use bigqueue::names::{arena_file_name, arena_id};

#[test]
fn names_of_arenas() {
    assert_eq!(arena_file_name(0), "arena_0.dat");
    assert_eq!(arena_file_name(5), "arena_5.dat");
    assert_eq!(arena_file_name(10), "arena_10.dat");
    assert_eq!(arena_file_name(1234567890), "arena_1234567890.dat");
    assert_eq!(arena_file_name(usize::MAX), format!("arena_{}.dat", usize::MAX));
}

#[test]
fn identifiers_in_names() {
    assert_eq!(arena_id("arena_0.dat"), Some(0));
    assert_eq!(arena_id("arena_42.dat"), Some(42));
    assert_eq!(arena_id("arena_007.dat"), Some(7));
    assert_eq!(arena_id(&format!("arena_{}.dat", usize::MAX)), Some(usize::MAX));
    assert_eq!(arena_id(&format!("arena_{}0.dat", usize::MAX)), None);
    assert_eq!(arena_id("arena_99999999999999999999999999.dat"), None);
    assert_eq!(arena_id("index.dat"), None);
    assert_eq!(arena_id("arena_.dat"), None);
    assert_eq!(arena_id("arena_1.dat.bak"), None);
    assert_eq!(arena_id("arena_1x.dat"), None);
    assert_eq!(arena_id("arena_+1.dat"), None);
    assert_eq!(arena_id("Arena_1.dat"), None);
    assert_eq!(arena_id("arena-1.dat"), None);
    assert_eq!(arena_id("xarena_1.dat"), None);
    assert_eq!(arena_id("arena_1.dot"), None);
    assert_eq!(arena_id(""), None);
    assert_eq!(arena_id("arena_\u{661}.dat"), None);
}

#[test]
fn names_round_trip() {
    for aid in [0usize, 1, 9, 10, 99, 100, 65535, usize::MAX - 1, usize::MAX] {
        assert_eq!(arena_id(&arena_file_name(aid)), Some(aid));
    }
}
