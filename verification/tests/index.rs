use bigqueue::{Arena, Error, Index};
use memmap::MmapMut;

fn arena(size: usize) -> Arena {
    Arena::new(MmapMut::map_anon(size).unwrap())
}

#[test]
fn test_index() {
    let mut qi = Index::new(arena(32));
    qi.set_head(1, 3).unwrap();
    qi.set_tail(1, 4).unwrap();

    let (head_aid, head_offset) = qi.get_head_tuple().expect("failed to open the 1");
    let (tail_aid, tail_offset) = qi.get_tail_tuple().expect("failed to open the 1");

    assert_eq!(head_aid, 1);
    assert_eq!(tail_aid, 1);
    assert_eq!(head_offset, 3);
    assert_eq!(tail_offset, 4);
}

#[test]
fn fresh_index_is_zero() {
    let qi = Index::new(arena(32));
    assert_eq!(qi.len(), 32);
    assert_eq!(qi.get_head_tuple(), Some((0, 0)));
    assert_eq!(qi.get_tail_tuple(), Some((0, 0)));
}

#[test]
fn index_layout() {
    let mut map = MmapMut::map_anon(32).unwrap();
    for i in 0..32 {
        map[i] = i as u8;
    }
    let mut qi = Index::new(Arena::new(map));
    assert_eq!(qi.head_words(), Some((0x0706050403020100, 0x0f0e0d0c0b0a0908)));
    assert_eq!(qi.tail_words(), Some((0x1716151413121110, 0x1f1e1d1c1b1a1918)));
    qi.set_head(0x0102, 0x0304).unwrap();
    qi.set_tail(0x0506, 0x0708).unwrap();
    assert_eq!(qi.head_words(), Some((0x0102, 0x0304)));
    assert_eq!(qi.tail_words(), Some((0x0506, 0x0708)));
}

#[test]
fn short_index() {
    let mut qi = Index::new(arena(20));
    assert_eq!(qi.get_head_tuple(), Some((0, 0)));
    assert_eq!(qi.get_tail_tuple(), None);
    assert!(qi.set_head(5, 6).is_ok());
    assert!(matches!(qi.set_tail(7, 8), Err(Error::Write)));
    assert_eq!(qi.get_head_tuple(), Some((5, 6)));
    let mut tiny = Index::new(arena(12));
    assert_eq!(tiny.get_head_tuple(), None);
    assert!(matches!(tiny.set_head(9, 1), Err(Error::Write)));
    assert_eq!(tiny.head_words(), None);
}
