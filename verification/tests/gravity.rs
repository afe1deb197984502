use alphabit::cell::{Ceil, CeilType};
use alphabit::field::Field;
use alphabit::settings::{DECAY_START, DECAY_STEP};

fn letter_cell(letter: char) -> Ceil {
    Ceil { letter, checked: 0, ceil_type: CeilType::Active }
}

#[test]
fn decay_counts_down_by_the_pacing_step() {
    let mut f = Field::new(2, 2);
    f.set(0, 0, Ceil { letter: 'А', checked: DECAY_START, ceil_type: CeilType::Empty });
    assert!(f.is_blocked());
    f.tick();
    assert_eq!(f.is_checked(0, 0), DECAY_START + DECAY_STEP);
    assert_eq!(f.get(0, 0).letter, 'А');
    assert_eq!(f.get(0, 0).ceil_type, CeilType::Empty);
}

#[test]
fn full_decay_runs_to_minus_one_then_vacates() {
    let mut f = Field::new(1, 1);
    f.set(0, 0, Ceil { letter: 'А', checked: DECAY_START, ceil_type: CeilType::Empty });
    let mut ticks = 0;
    while f.is_checked(0, 0) != -1 {
        f.tick();
        ticks += 1;
        assert!(ticks < 100);
    }
    f.tick();
    let c = f.get(0, 0);
    assert_eq!(c.checked, 0);
    assert_eq!(c.letter, ' ');
    assert_eq!(c.ceil_type, CeilType::Empty);
    assert!(!f.is_blocked());
}

#[test]
fn gravity_drops_the_column_above_by_one_row() {
    let mut f = Field::new(2, 3);
    f.set(0, 0, letter_cell('А'));
    f.set(0, 1, letter_cell('Б'));
    f.set(0, 2, Ceil { letter: 'В', checked: -1, ceil_type: CeilType::Empty });
    f.set(1, 0, letter_cell('Г'));
    f.set(1, 1, letter_cell('Д'));
    f.set(1, 2, letter_cell('Ж'));

    f.tick();

    // The vacated slot rose to the top of its column; the live cells above
    // it each dropped one row.
    let top = f.get(0, 0);
    assert_eq!(top.letter, ' ');
    assert_eq!(top.checked, 0);
    assert_eq!(top.ceil_type, CeilType::Empty);
    assert_eq!(f.get(0, 1).letter, 'А');
    assert_eq!(f.get(0, 2).letter, 'Б');
    // The other column is untouched.
    assert_eq!(f.get(1, 0).letter, 'Г');
    assert_eq!(f.get(1, 1).letter, 'Д');
    assert_eq!(f.get(1, 2).letter, 'Ж');
    assert!(!f.is_blocked());
}

#[test]
fn gravity_stops_at_a_decaying_cell() {
    // The collapse only moves the run of live cells directly above the gap:
    // a decaying cell higher up blocks it.
    let mut f = Field::new(1, 3);
    f.set(0, 0, Ceil { letter: 'А', checked: -43, ceil_type: CeilType::Empty });
    f.set(0, 1, letter_cell('Б'));
    f.set(0, 2, Ceil { letter: 'В', checked: -1, ceil_type: CeilType::Empty });

    f.tick();

    // Row 0 keeps decaying (stepped by one tick), row 1's live cell fell,
    // and the gap now sits where it was.
    assert_eq!(f.is_checked(0, 0), -43 + DECAY_STEP);
    assert_eq!(f.get(0, 1).letter, ' ');
    assert_eq!(f.get(0, 1).checked, 0);
    assert_eq!(f.get(0, 2).letter, 'Б');
}

#[test]
fn down_alone_shifts_a_column() {
    let mut f = Field::new(1, 3);
    f.set(0, 0, letter_cell('А'));
    f.set(0, 1, letter_cell('Б'));
    f.set(0, 2, Ceil { letter: ' ', checked: 0, ceil_type: CeilType::Empty });
    f.down(0, 2);
    assert_eq!(f.get(0, 0).ceil_type, CeilType::Empty);
    assert_eq!(f.get(0, 0).letter, ' ');
    assert_eq!(f.get(0, 1).letter, 'А');
    assert_eq!(f.get(0, 2).letter, 'Б');
}

#[test]
fn commit_then_full_animation_unblocks_the_board() {
    let mut f = Field::with_words(3, 3, vec!["кот".to_string()]);
    f.set(0, 0, letter_cell('К'));
    f.set(1, 0, letter_cell('О'));
    f.set(2, 0, letter_cell('Т'));
    f.set(0, 1, letter_cell('Б'));
    f.set(1, 1, letter_cell('В'));
    f.set(2, 1, letter_cell('Г'));
    f.set(0, 2, letter_cell('Д'));
    f.set(1, 2, letter_cell('Ж'));
    f.set(2, 2, letter_cell('З'));
    f.try_check(0, 0);
    f.try_check(1, 0);
    f.try_check(2, 0);
    f.try_check(2, 0);
    assert!(f.is_blocked());
    let mut ticks = 0;
    while f.is_blocked() {
        f.tick();
        ticks += 1;
        assert!(ticks < 100);
    }
    // The cleared top row never held anything above it, so the letters of
    // the lower rows stay put and the top row is the gap.
    for x in 0..3 {
        assert_eq!(f.get(x, 0).ceil_type, CeilType::Empty);
        assert_eq!(f.get(x, 0).letter, ' ');
    }
    assert_eq!(f.get(0, 1).letter, 'Б');
    assert_eq!(f.get(0, 2).letter, 'Д');
}
