use alphabit::field::Field;

fn board_with(words: Vec<&str>) -> Field {
    Field::with_words(1, 1, words.into_iter().map(|w| w.to_string()).collect())
}

#[test]
fn exact_lowercase_match() {
    let f = board_with(vec!["кот"]);
    assert!(f.check_word("кот".to_string()));
    assert!(!f.check_word("кит".to_string()));
    assert!(!f.check_word("ко".to_string()));
    assert!(!f.check_word("коты".to_string()));
}

#[test]
fn entries_are_trimmed_and_lowercased() {
    let f = board_with(vec!["  КОТ \r", "\tпёс\n"]);
    assert!(f.check_word("кот".to_string()));
    assert!(f.check_word("пёс".to_string()));
    assert!(!f.check_word(" кот".to_string()));
}

#[test]
fn ie_matches_io_entry() {
    // A candidate spelled with е matches a list entry spelled with ё.
    let f = board_with(vec!["ёж"]);
    assert!(f.check_word("еж".to_string()));
    assert!(f.check_word("ёж".to_string()));
    assert!(!f.check_word("иж".to_string()));
}

#[test]
fn i_matches_short_i_entry() {
    // A candidate spelled with и matches a list entry spelled with й.
    let f = board_with(vec!["йод"]);
    assert!(f.check_word("иод".to_string()));
    assert!(f.check_word("йод".to_string()));
    assert!(!f.check_word("еод".to_string()));
}

#[test]
fn substitutions_are_not_combined() {
    // The е→ё and и→й substitutions apply one at a time, never together.
    let f = board_with(vec!["ёйж"]);
    assert!(!f.check_word("еиж".to_string()));
    assert!(f.check_word("ёиж".to_string()));
    assert!(f.check_word("ейж".to_string()));
}

#[test]
fn substitution_replaces_every_occurrence() {
    let f = board_with(vec!["берёза"]);
    // Both е become ё under the substitution, so this cannot match...
    assert!(!f.check_word("береза".to_string()));
    // ...but the fully spelled form does.
    assert!(f.check_word("берёза".to_string()));
}

#[test]
fn empty_list_matches_nothing() {
    let f = board_with(vec![]);
    assert!(!f.check_word("кот".to_string()));
    assert!(!f.check_word(String::new()));
}

#[test]
fn latin_entries_fold_case_too() {
    let f = board_with(vec!["CAT"]);
    assert!(f.check_word("cat".to_string()));
    assert!(!f.check_word("CAT".to_string()));
}
