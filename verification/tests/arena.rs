use bigqueue::codec::{read_bytes, read_u64, write_bytes, write_u64};
use bigqueue::{Arena, Error};
use memmap::MmapMut;

fn arena(size: usize) -> Arena {
    Arena::new(MmapMut::map_anon(size).unwrap())
}

#[test]
fn test_arena() {
    let mut t = arena(5 * 8);
    t.write_u64_at(0, 100u64).unwrap();
    t.write_u64_at(8, 10u64).unwrap();
    t.flush().unwrap();
    println!("{:?}", t.as_slice());
    assert_eq!(t.read_u64_at_windows(0), Some(100));
    assert_eq!(t.read_u64_at(8), Some(10));
    assert_eq!(t.read_bytes_at(0, 9), Some(vec![100, 0, 0, 0, 0, 0, 0, 0, 10]));
}

#[test]
fn words_are_little_endian() {
    let mut region = [0xffu8; 12];
    write_u64(&mut region, 2, 0x0102030405060708).unwrap();
    assert_eq!(region, [0xff, 0xff, 8, 7, 6, 5, 4, 3, 2, 1, 0xff, 0xff]);
    assert_eq!(read_u64(&region, 2), Some(0x0102030405060708));
    assert_eq!(read_u64(&region, 0), Some(0x0304050607_08ffff));
}

#[test]
fn word_out_of_range() {
    let mut region = [0u8; 12];
    assert!(matches!(write_u64(&mut region, 5, 1), Err(Error::Write)));
    assert_eq!(region, [0u8; 12]);
    assert!(write_u64(&mut region, 4, 1).is_ok());
    assert_eq!(read_u64(&region, 5), None);
    assert_eq!(read_u64(&region, usize::MAX), None);
    assert!(matches!(write_u64(&mut region, usize::MAX, 1), Err(Error::Write)));
}

#[test]
fn bytes_in_and_out() {
    let mut region = [0u8; 8];
    write_bytes(&mut region, 3, b"abc").unwrap();
    assert_eq!(&region, b"\0\0\0abc\0\0");
    assert_eq!(read_bytes(&region, 2, 5), Some(b"\0abc\0".to_vec()));
    assert_eq!(read_bytes(&region, 8, 0), Some(vec![]));
    assert_eq!(read_bytes(&region, 4, 5), None);
    assert!(matches!(write_bytes(&mut region, 6, b"abc"), Err(Error::Write)));
    assert_eq!(&region, b"\0\0\0abc\0\0");
    write_bytes(&mut region, 8, b"").unwrap();
}

#[test]
fn arena_windows() {
    let mut a = arena(20);
    assert_eq!(a.len(), 20);
    a.write_u64_at_windows(1, 7).unwrap();
    assert_eq!(a.read_u64_at_windows(1), Some(7));
    assert_eq!(a.read_u64_at(8), Some(7));
    assert_eq!(a.read_u64_at_windows(2), None);
    assert!(matches!(a.write_u64_at_windows(2, 7), Err(Error::Write)));
    assert_eq!(a.read_u64_at_windows(usize::MAX), None);
    assert!(matches!(a.write_u64_at_windows(usize::MAX / 8 + 1, 7), Err(Error::Write)));
    a.write_bytes_at(16, b"wxyz").unwrap();
    assert!(matches!(a.write_bytes_at(17, b"wxyz"), Err(Error::Write)));
    assert_eq!(a.read_bytes_at(16, 4), Some(b"wxyz".to_vec()));
    assert_eq!(a.read_bytes_at(17, 4), None);
    let map = a.into_inner();
    assert_eq!(&map[16..20], b"wxyz");
}

#[test]
fn arena_as_text() {
    let mut a = arena(4);
    assert_eq!(a.to_string(), "[0, 0, 0, 0]");
    a.write_bytes_at(0, &[100, 0, 255, 7]).unwrap();
    assert_eq!(a.to_string(), "[100, 0, 255, 7]");
    assert_eq!(a.to_string(), format!("{:?}", a.as_slice()));
    assert_eq!(arena(1).to_string(), "[0]");
}
