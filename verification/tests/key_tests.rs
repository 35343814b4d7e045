use surf::key::{first_difference_at, normalize, truncate, Key, KeyOps};

#[test]
fn truncate_far_fast_john() {
    let keys: Vec<Key> = vec![b"far".to_vec(), b"fast".to_vec(), b"john".to_vec()];
    let out = truncate(&keys);
    assert_eq!(out, vec![b"far".to_vec(), b"fas".to_vec(), b"j".to_vec()]);
}

#[test]
fn truncate_keeps_prefix_keys_whole() {
    let keys: Vec<Key> = vec![
        b"ai".to_vec(),
        b"ao".to_vec(),
        b"f".to_vec(),
        b"fa".to_vec(),
        b"fe".to_vec(),
    ];
    assert_eq!(truncate(&keys), keys);
    let keys: Vec<Key> = vec![b"a".to_vec(), b"abcd".to_vec(), b"abxyz".to_vec()];
    assert_eq!(
        truncate(&keys),
        vec![b"a".to_vec(), b"abc".to_vec(), b"abx".to_vec()]
    );
    let none: Vec<Key> = Vec::new();
    assert_eq!(truncate(&none), none);
    let one: Vec<Key> = vec![b"hello".to_vec()];
    assert_eq!(truncate(&one), vec![b"h".to_vec()]);
}

#[test]
fn less_is_lexicographic() {
    assert!(b"a".to_vec().less(b"b"));
    assert!(!b"b".to_vec().less(b"a"));
    assert!(b"ab".to_vec().less(b"abc"));
    assert!(!b"abc".to_vec().less(b"ab"));
    assert!(!b"abc".to_vec().less(b"abc"));
    assert!(b"abc".to_vec().less(b"abd"));
    assert!(b"".to_vec().less(b"a"));
    assert!(!b"".to_vec().less(b""));
    assert!(vec![0x01u8, 0xFF].less(&[0x02]));
}

#[test]
fn first_difference() {
    assert_eq!(first_difference_at(b"far", b"fast"), (true, 2));
    assert_eq!(first_difference_at(b"far", b"far"), (false, 0));
    assert_eq!(first_difference_at(b"fa", b"far"), (true, 2));
    assert_eq!(first_difference_at(b"john", b"fast"), (true, 0));
    assert_eq!(first_difference_at(b"", b""), (false, 0));
    assert_eq!(first_difference_at(b"", b"x"), (true, 0));
}

#[test]
fn normalize_sorts_and_drops_duplicates() {
    let keys: Vec<Key> = vec![
        b"john".to_vec(),
        b"far".to_vec(),
        b"fast".to_vec(),
        b"far".to_vec(),
        b"fa".to_vec(),
    ];
    assert_eq!(
        normalize(keys),
        vec![b"fa".to_vec(), b"far".to_vec(), b"fast".to_vec(), b"john".to_vec()]
    );
    let none: Vec<Key> = Vec::new();
    assert_eq!(normalize(none), Vec::<Key>::new());
}
