use alphabit::cell::{Ceil, CeilType, Direction};
use alphabit::field::Field;

fn letter_cell(letter: char) -> Ceil {
    Ceil { letter, checked: 0, ceil_type: CeilType::Active }
}

/// A 3x3 board whose top row spells КОТ and whose word list holds кот.
fn kot_board() -> Field {
    let mut f = Field::with_words(3, 3, vec!["кот".to_string()]);
    f.set(0, 0, letter_cell('К'));
    f.set(1, 0, letter_cell('О'));
    f.set(2, 0, letter_cell('Т'));
    f.set(0, 1, letter_cell('Б'));
    f.set(1, 1, letter_cell('В'));
    f.set(2, 1, letter_cell('Г'));
    f.set(0, 2, letter_cell('Д'));
    f.set(1, 2, letter_cell('Ж'));
    f.set(2, 2, letter_cell('З'));
    f
}

#[test]
fn new_board_is_blank() {
    let f = Field::new(4, 5);
    assert_eq!(f.get_width(), 4);
    assert_eq!(f.get_height(), 5);
    assert_eq!(f.get_scores(), 0);
    assert_eq!(f.get_longest_word(), String::new());
    assert!(!f.is_word());
    assert!(!f.is_blocked());
    for y in 0..5 {
        for x in 0..4 {
            let c = f.get(x, y);
            assert_eq!(c.letter, ' ');
            assert_eq!(c.checked, 0);
            assert_eq!(c.ceil_type, CeilType::Active);
        }
    }
}

#[test]
fn generated_board_has_no_selection_and_no_empty_cells() {
    let alphabet = "АБВГДЕЁЖЗИЙКЛМНОПРСТУФХЦЧШЩЪЫЬЭЮЯ";
    let mut f = Field::new(15, 15);
    f.generate();
    for y in 0..15 {
        for x in 0..15 {
            let c = f.get(x, y);
            assert_eq!(c.checked, 0);
            assert!(c.ceil_type == CeilType::Active || c.ceil_type == CeilType::Bonus);
            assert!(alphabet.contains(c.letter));
        }
    }
    assert!(!f.is_blocked());
}

#[test]
fn generated_board_has_at_most_one_bonus_per_row() {
    let mut f = Field::new(15, 15);
    f.generate();
    for y in 0..15 {
        let mut bonuses = 0;
        for x in 0..15 {
            if f.get(x, y).ceil_type == CeilType::Bonus {
                bonuses += 1;
            }
        }
        assert!(bonuses <= 1);
    }
}

#[test]
fn chain_select_extend_ignore_and_commit() {
    let mut f = kot_board();

    f.try_check(0, 0);
    assert_eq!(f.is_checked(0, 0), 1);

    f.try_check(1, 0);
    assert_eq!(f.is_checked(1, 0), 2);

    f.try_check(2, 0);
    assert_eq!(f.is_checked(2, 0), 3);
    assert!(f.is_word());

    // Re-clicking the chain's start is not the chain's end: ignored.
    f.try_check(0, 0);
    assert_eq!(f.is_checked(0, 0), 1);
    assert_eq!(f.is_checked(1, 0), 2);
    assert_eq!(f.is_checked(2, 0), 3);
    assert_eq!(f.get_scores(), 0);
    assert!(!f.is_blocked());

    // Clicking the chain's end with a valid word commits it.
    f.try_check(2, 0);
    assert!(f.get_scores() > 0);
    for x in 0..3 {
        let c = f.get(x, 0);
        assert_eq!(c.ceil_type, CeilType::Empty);
        assert!(c.checked < 0);
    }
    assert!(f.is_blocked());
}

#[test]
fn commit_without_bonus_awards_fifty_per_cell_doubled() {
    let mut f = kot_board();
    f.try_check(0, 0);
    f.try_check(1, 0);
    f.try_check(2, 0);
    f.try_check(2, 0);
    assert_eq!(f.get_scores(), 3 * 50 * 2);
    assert_eq!(f.get_longest_word(), "КОТ".to_string());
}

#[test]
fn commit_award_scales_with_the_chain_length() {
    let mut f = Field::with_words(3, 3, vec!["да".to_string()]);
    f.set(0, 0, letter_cell('Д'));
    f.set(1, 0, letter_cell('А'));
    f.set(2, 0, letter_cell('Б'));
    f.set(0, 1, letter_cell('В'));
    f.set(1, 1, letter_cell('Г'));
    f.set(2, 1, letter_cell('Ж'));
    f.set(0, 2, letter_cell('З'));
    f.set(1, 2, letter_cell('И'));
    f.set(2, 2, letter_cell('К'));
    f.try_check(0, 0);
    f.try_check(1, 0);
    f.try_check(1, 0);
    assert_eq!(f.get_scores(), 2 * 50 * 2);
}

#[test]
fn commit_with_bonus_line_awards_hundred_and_line_cells() {
    // КОТ on the bottom row; a bonus cell in the middle row is woken by its
    // selected lower neighbour, making the middle row a bonus line.
    let mut f = Field::with_words(3, 3, vec!["кот".to_string()]);
    f.set(0, 0, letter_cell('Д'));
    f.set(1, 0, letter_cell('Ж'));
    f.set(2, 0, letter_cell('З'));
    f.set(0, 1, letter_cell('Б'));
    f.set(1, 1, Ceil { letter: 'В', checked: 0, ceil_type: CeilType::Bonus });
    f.set(2, 1, letter_cell('Г'));
    f.set(0, 2, letter_cell('К'));
    f.set(1, 2, letter_cell('О'));
    f.set(2, 2, letter_cell('Т'));

    f.try_check(0, 2);
    f.try_check(1, 2);
    assert!(f.is_bonus(1, 1));
    assert!(f.is_bonus_exists());
    assert!(f.is_on_the_bonus_line(0, 1));
    assert!(!f.is_on_the_bonus_line(0, 0));
    f.try_check(2, 2);
    f.try_check(2, 2);
    // 3 selected cells at 100 each, 3 bonus-line cells at 5 each, doubled.
    assert_eq!(f.get_scores(), (3 * 100 + 3 * 5) * 2);
    // The whole bonus line was cleared along with the chain.
    for x in 0..3 {
        assert_eq!(f.get(x, 1).ceil_type, CeilType::Empty);
        assert!(f.get(x, 1).checked < 0);
        assert_eq!(f.get(x, 2).ceil_type, CeilType::Empty);
        assert!(f.get(x, 2).checked < 0);
        assert_eq!(f.get(x, 0).ceil_type, CeilType::Active);
        assert_eq!(f.get(x, 0).checked, 0);
    }
}

#[test]
fn bonus_ignores_the_down_right_diagonal() {
    // The neighbour scan's offset list omits the down-right diagonal, so a
    // selected cell there never wakes a bonus cell.
    let mut f = Field::new(3, 3);
    f.set(1, 1, Ceil { letter: 'В', checked: 0, ceil_type: CeilType::Bonus });
    f.try_check(2, 2);
    assert_eq!(f.is_checked(2, 2), 1);
    assert!(!f.is_bonus(1, 1));
    assert!(!f.is_bonus_exists());
}

#[test]
fn bonus_neighbour_targets_exclude_row_and_column_zero() {
    // Neighbour targets on row 0 or column 0 never count.
    let mut f = Field::new(3, 3);
    f.set(1, 1, Ceil { letter: 'В', checked: 0, ceil_type: CeilType::Bonus });
    f.try_check(1, 0);
    assert_eq!(f.is_checked(1, 0), 1);
    assert!(!f.is_bonus(1, 1));
    f.deselect();
    f.try_check(2, 1);
    assert_eq!(f.is_checked(2, 1), 1);
    assert!(f.is_bonus(1, 1));
}

#[test]
fn is_valid_excludes_row_and_column_zero() {
    let f = Field::new(3, 3);
    assert!(!f.is_valid(0, 1));
    assert!(!f.is_valid(1, 0));
    assert!(f.is_valid(1, 1));
    assert!(f.is_valid(2, 2));
    assert!(!f.is_valid(3, 1));
    assert!(!f.is_valid(1, 3));
    assert!(!f.is_valid(-1, 1));
}

#[test]
fn bonus_cells_are_never_selectable() {
    let mut f = Field::new(3, 3);
    f.set(1, 1, Ceil { letter: 'В', checked: 0, ceil_type: CeilType::Bonus });
    f.try_check(1, 1);
    assert_eq!(f.is_checked(1, 1), 0);
}

#[test]
fn out_of_grid_clicks_are_ignored() {
    let mut f = kot_board();
    f.try_check(-1, 0);
    f.try_check(0, -1);
    f.try_check(3, 0);
    f.try_check(0, 3);
    for y in 0..3 {
        for x in 0..3 {
            assert_eq!(f.is_checked(x, y), 0);
        }
    }
    assert_eq!(f.is_checked(-1, 0), -1);
    assert_eq!(f.is_checked(0, 7), -1);
}

#[test]
fn non_adjacent_click_is_ignored() {
    let mut f = kot_board();
    f.try_check(0, 0);
    f.try_check(2, 2);
    assert_eq!(f.is_checked(2, 2), 0);
    assert_eq!(f.is_checked(0, 0), 1);
}

#[test]
fn diagonal_extension_is_allowed() {
    let mut f = kot_board();
    f.try_check(0, 0);
    f.try_check(1, 1);
    assert_eq!(f.is_checked(1, 1), 2);
}

#[test]
fn deselect_clears_the_chain_and_keeps_decay() {
    let mut f = kot_board();
    f.try_check(0, 0);
    f.try_check(1, 0);
    f.set(2, 2, Ceil { letter: 'З', checked: -29, ceil_type: CeilType::Empty });
    f.deselect();
    assert_eq!(f.is_checked(0, 0), 0);
    assert_eq!(f.is_checked(1, 0), 0);
    assert_eq!(f.is_checked(2, 2), -29);
    assert_eq!(f.get(0, 0).letter, 'К');
}

#[test]
fn deselect_then_select_starts_fresh() {
    let mut f = kot_board();
    f.try_check(0, 0);
    f.try_check(1, 0);
    f.try_check(1, 1);
    f.deselect();
    f.try_check(2, 1);
    assert_eq!(f.is_checked(2, 1), 1);
    for y in 0..3 {
        for x in 0..3 {
            if (x, y) != (2, 1) {
                assert_eq!(f.is_checked(x, y), 0);
            }
        }
    }
}

#[test]
fn find_max_word_and_letters() {
    let mut f = kot_board();
    f.try_check(0, 0);
    f.try_check(1, 0);
    f.try_check(2, 0);
    assert_eq!(f.find_max(), (3, 2, 0));
    assert_eq!(f.get_word(), "КОТ".to_string());
    assert_eq!(f.get_at_value(2), 'О');
    assert_eq!(f.get_at_value(99), 'x');
}

#[test]
fn find_max_on_an_empty_chain() {
    let f = kot_board();
    assert_eq!(f.find_max(), (0, -1, -1));
    assert_eq!(f.get_word(), String::new());
}

#[test]
fn directions_follow_the_chain() {
    let mut f = kot_board();
    f.try_check(0, 0);
    f.try_check(1, 0);
    f.try_check(1, 1);
    assert!(f.get_direction(0, 0) == Direction::LeftToRight);
    assert!(f.get_direction(1, 0) == Direction::UpToDown);
    assert!(f.get_direction(1, 1) == Direction::Nowhere);
    assert!(f.get_before_direction(0, 0) == Direction::Nowhere);
    assert!(f.get_before_direction(1, 0) == Direction::RightToLeft);
    assert!(f.get_before_direction(1, 1) == Direction::DownToUp);
    assert!(f.get_direction(2, 2) == Direction::Nowhere);
    assert!(f.get_direction(-1, 5) == Direction::Nowhere);
}

#[test]
fn word_flag_tracks_the_chain() {
    let mut f = kot_board();
    f.try_check(0, 0);
    assert!(!f.is_word());
    f.try_check(1, 0);
    assert!(!f.is_word());
    f.try_check(2, 0);
    assert!(f.is_word());
    f.deselect();
    f.try_check(0, 0);
    assert!(!f.is_word());
}

#[test]
fn longest_word_only_grows() {
    let mut f = kot_board();
    f.set_longest_word("ГОРОД".to_string());
    f.try_check(0, 0);
    f.try_check(1, 0);
    f.try_check(2, 0);
    f.try_check(2, 0);
    assert_eq!(f.get_longest_word(), "ГОРОД".to_string());
}

#[test]
fn scores_accessors_round_trip() {
    let mut f = Field::new(2, 2);
    f.set_scores(1234);
    assert_eq!(f.get_scores(), 1234);
}

#[test]
fn restore_round_trips_a_board() {
    let mut cells = Vec::new();
    for i in 0..6 {
        cells.push(Ceil { letter: 'А', checked: i as i32 % 2, ceil_type: CeilType::Active });
    }
    let f = Field::restore(3, 2, cells, 77, "СЛОВО".to_string(), false, vec!["слово".to_string()])
        .unwrap();
    assert_eq!(f.get_width(), 3);
    assert_eq!(f.get_height(), 2);
    assert_eq!(f.get_scores(), 77);
    assert_eq!(f.get_longest_word(), "СЛОВО".to_string());
    assert_eq!(f.get(1, 1).checked, 0);
    assert_eq!(f.get(1, 0).checked, 1);
}

#[test]
fn restore_refuses_a_mismatched_cell_count() {
    let cells = vec![Ceil { letter: 'А', checked: 0, ceil_type: CeilType::Active }; 5];
    assert!(Field::restore(3, 2, cells, 0, String::new(), false, Vec::new()).is_none());
}
