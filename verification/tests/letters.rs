use alphabit::gen::letter_pool;

#[test]
fn pool_matches_the_frequency_table() {
    let pool = letter_pool();
    assert_eq!(pool.len(), 10001);
    let count = |c: char| pool.iter().filter(|&&x| x == c).count();
    assert_eq!(count('О'), 1097);
    assert_eq!(count('Е'), 845);
    assert_eq!(count('А'), 801);
    assert_eq!(count('Ё'), 4);
    assert_eq!(count('Ъ'), 4);
    assert_eq!(count('Я'), 201);
}

#[test]
fn pool_lays_the_runs_out_in_table_order() {
    let pool = letter_pool();
    assert_eq!(pool[0], 'А');
    assert_eq!(pool[800], 'А');
    assert_eq!(pool[801], 'Б');
    assert_eq!(pool[10000], 'Я');
}
