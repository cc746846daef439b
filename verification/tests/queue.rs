use bigqueue::names::arena_id;
use bigqueue::{Arena, BigQueue, Config, Error, Index, Page};
use memmap::MmapMut;

fn arena(size: usize) -> Arena {
    Arena::new(MmapMut::map_anon(size).unwrap())
}

fn open(size: usize, cap: u8) -> BigQueue {
    let conf = Config { arena_size: size, max_arenas_in_mem: cap };
    BigQueue::with_config(Index::new(arena(32)), None, arena(size), conf).unwrap()
}

/// Pushes, mapping a new arena whenever the queue names one that it lacks.
fn push(q: &mut BigQueue, size: usize, bytes: &[u8]) -> usize {
    let mut pages: Vec<Page> = Vec::new();
    let mut mapped = 0;
    loop {
        match q.push(bytes, &mut pages) {
            Ok(()) => {
                assert!(pages.is_empty());
                return mapped;
            }
            Err(Error::Exist(name)) => {
                let aid = arena_id(&name).unwrap();
                pages.push(Page { aid, arena: arena(size) });
                mapped += 1;
            }
            Err(e) => panic!("push failed: {:?}", e),
        }
    }
}

fn pop(q: &mut BigQueue) -> Result<Vec<u8>, Error> {
    q.pop(&mut Vec::new())
}

fn peek(q: &BigQueue) -> Result<Vec<u8>, Error> {
    q.peek(&Vec::new())
}


#[test]
fn simple_fifo() {
    let mut q = open(64, 3);
    assert!(q.is_empty());
    assert_eq!(push(&mut q, 64, b"abc"), 0);
    assert_eq!(push(&mut q, 64, b"defgh"), 0);
    assert!(!q.is_empty());
    assert_eq!(pop(&mut q).unwrap(), b"abc");
    assert_eq!(pop(&mut q).unwrap(), b"defgh");
    assert!(matches!(pop(&mut q), Err(Error::QueueEmpty)));
    assert!(q.is_empty());
}

#[test]
fn empty_after_open() {
    let mut q = open(64, 3);
    assert!(q.is_empty());
    assert!(matches!(pop(&mut q), Err(Error::QueueEmpty)));
    assert!(matches!(q.dequeue(&mut Vec::new()), Err(Error::QueueEmpty)));
    assert!(matches!(peek(&q), Err(Error::QueueEmpty)));
}

#[test]
fn peek_then_pop() {
    let mut q = open(64, 3);
    push(&mut q, 64, b"p");
    assert_eq!(peek(&q).unwrap(), b"p");
    assert_eq!(peek(&q).unwrap(), b"p");
    assert_eq!(pop(&mut q).unwrap(), b"p");
    assert!(q.is_empty());
}

#[test]
fn length_frame_straddle() {
    let mut q = open(64, 3);
    // 8 + 44 = 52 bytes, then 8 + 0 = 8 bytes: the tail stands at 60
    push(&mut q, 64, &[7u8; 44]);
    push(&mut q, 64, b"");
    assert_eq!(push(&mut q, 64, b"X"), 1);
    let (index, pages) = q.close();
    assert_eq!(index.get_head_tuple(), Some((0, 0)));
    assert_eq!(index.get_tail_tuple(), Some((1, 9)));
    assert_eq!(pages[0].aid, 1);
    assert_eq!(pages[0].arena.read_u64_at(0), Some(1));
    assert_eq!(pages[0].arena.read_bytes_at(8, 1), Some(b"X".to_vec()));
    assert_eq!(pages[1].aid, 0);
    assert_eq!(pages[1].arena.read_bytes_at(60, 4), Some(vec![0, 0, 0, 0]));
}

#[test]
fn length_frame_straddle_pops() {
    let mut q = open(64, 3);
    push(&mut q, 64, &[7u8; 44]);
    push(&mut q, 64, b"");
    push(&mut q, 64, b"X");
    assert_eq!(pop(&mut q).unwrap(), vec![7u8; 44]);
    assert_eq!(pop(&mut q).unwrap(), b"");
    assert_eq!(pop(&mut q).unwrap(), b"X");
    assert!(matches!(pop(&mut q), Err(Error::QueueEmpty)));
}

#[test]
fn payload_straddle() {
    let mut q = open(64, 3);
    // 8 + 48 = 56 bytes: the tail stands at 56
    push(&mut q, 64, &[1u8; 48]);
    assert_eq!(push(&mut q, 64, b"0123456789ABCDEFGHIJ"), 1);
    assert_eq!(pop(&mut q).unwrap(), vec![1u8; 48]);
    assert_eq!(peek(&q).unwrap(), b"0123456789ABCDEFGHIJ");
    let (index, pages) = {
        let mut again = open(64, 3);
        push(&mut again, 64, &[1u8; 48]);
        push(&mut again, 64, b"0123456789ABCDEFGHIJ");
        again.close()
    };
    assert_eq!(index.get_tail_tuple(), Some((1, 20)));
    assert_eq!(pages[1].arena.read_u64_at(56), Some(20));
    assert_eq!(pages[0].arena.read_bytes_at(0, 20), Some(b"0123456789ABCDEFGHIJ".to_vec()));
    assert_eq!(pop(&mut q).unwrap(), b"0123456789ABCDEFGHIJ");
    assert!(q.is_empty());
}

fn dequeue(q: &mut BigQueue) -> Result<(), Error> {
    q.dequeue(&mut Vec::new())
}

fn aids(pages: &Vec<Page>) -> Vec<usize> {
    pages.iter().map(|p| p.aid).collect()
}

/// Every arena of a queue that was fed the given records, as a stand-in for the files.
fn disk(size: usize, records: &[Vec<u8>]) -> (Index, Vec<Page>) {
    let mut q = open(size, 255);
    for r in records {
        push(&mut q, size, r);
    }
    q.close()
}

fn take(pages: &mut Vec<Page>, aid: usize) -> Page {
    let i = pages.iter().position(|p| p.aid == aid).unwrap();
    pages.remove(i)
}

/// Pops, fetching from `files` whatever arena the queue names as missing.
fn pop_from(q: &mut BigQueue, files: &mut Vec<Page>) -> Result<Vec<u8>, Error> {
    let mut pages: Vec<Page> = Vec::new();
    loop {
        match q.pop(&mut pages) {
            Err(Error::Exist(name)) => {
                let aid = arena_id(&name).unwrap();
                pages.push(take(files, aid));
            }
            other => return other,
        }
    }
}

#[test]
fn record_longer_than_an_arena() {
    let mut q = open(16, 8);
    let long: Vec<u8> = (0..100u8).collect();
    // 8 + 100 = 108 bytes: six arenas after the first, the tail at 108 - 96 = 12
    assert_eq!(push(&mut q, 16, &long), 6);
    assert_eq!(peek(&q).unwrap(), long);
    assert_eq!(pop(&mut q).unwrap(), long);
    assert!(q.is_empty());
    let (index, pages) = q.close();
    assert_eq!(index.get_head_tuple(), Some((6, 12)));
    assert_eq!(index.get_tail_tuple(), Some((6, 12)));
    assert_eq!(aids(&pages), vec![6]);
}

#[test]
fn record_that_fills_the_arena() {
    let mut q = open(32, 3);
    // 8 + 24 = 32: the record ends where the arena ends, and the tail moves on
    assert_eq!(push(&mut q, 32, &[9u8; 24]), 1);
    let parts = {
        let mut again = open(32, 3);
        push(&mut again, 32, &[9u8; 24]);
        again.close()
    };
    assert_eq!(parts.0.get_tail_tuple(), Some((1, 0)));
    assert_eq!(aids(&parts.1), vec![1, 0]);
    assert_eq!(pop(&mut q).unwrap(), vec![9u8; 24]);
    assert!(q.is_empty());
    let (index, pages) = q.close();
    assert_eq!(index.get_head_tuple(), Some((1, 0)));
    assert_eq!(aids(&pages), vec![1]);
}

#[test]
fn length_word_that_fills_the_arena() {
    let mut q = open(32, 3);
    push(&mut q, 32, &[2u8; 16]);
    // the tail stands at 24: the word takes 24..32, the payload starts the next arena
    assert_eq!(push(&mut q, 32, b"xy"), 1);
    assert_eq!(pop(&mut q).unwrap(), vec![2u8; 16]);
    assert_eq!(pop(&mut q).unwrap(), b"xy");
    let (index, pages) = q.close();
    assert_eq!(index.get_head_tuple(), Some((1, 2)));
    assert_eq!(index.get_tail_tuple(), Some((1, 2)));
    assert_eq!(pages[0].arena.read_bytes_at(0, 2), Some(b"xy".to_vec()));
}

#[test]
fn round_trip_of_many() {
    let mut q = open(64, 255);
    let records: Vec<Vec<u8>> = (0..300usize).map(|i| vec![i as u8; i % 50]).collect();
    for r in &records {
        push(&mut q, 64, r);
    }
    for r in &records {
        assert_eq!(&peek(&q).unwrap(), r);
        assert_eq!(&pop(&mut q).unwrap(), r);
    }
    assert!(matches!(pop(&mut q), Err(Error::QueueEmpty)));
}

#[test]
fn interleaved_push_and_pop() {
    let mut q = open(24, 2);
    let mut next = 0u32;
    let mut want = 0u32;
    for round in 0..200 {
        for _ in 0..(round % 3 + 1) {
            push(&mut q, 24, &next.to_le_bytes()[..(next % 5) as usize]);
            next += 1;
        }
        for _ in 0..(round % 3 + 1) {
            assert_eq!(pop(&mut q).unwrap(), &want.to_le_bytes()[..(want % 5) as usize]);
            want += 1;
        }
        assert!(q.is_empty());
    }
}

#[test]
fn persist_and_reopen() {
    let records: Vec<Vec<u8>> = (0..1000).map(|_| b"hello".to_vec()).collect();
    let (index, mut files) = disk(64, &records);
    assert_eq!(index.get_head_tuple(), Some((0, 0)));
    // 1000 frames of 13 bytes and 238 bytes skipped where a word would be split
    assert_eq!(index.get_tail_tuple(), Some((206, 54)));
    assert_eq!(files.len(), 207);
    let tail = take(&mut files, 206).arena;
    let head = take(&mut files, 0).arena;
    let conf = Config { arena_size: 64, max_arenas_in_mem: 3 };
    let mut q = BigQueue::with_config(index, Some(head), tail, conf).unwrap();
    for _ in 0..1000 {
        assert_eq!(pop_from(&mut q, &mut files).unwrap(), b"hello");
    }
    assert!(matches!(pop_from(&mut q, &mut files), Err(Error::QueueEmpty)));
    assert!(files.is_empty());
}

#[test]
fn reopen_keeps_the_cursors() {
    let mut q = open(64, 3);
    push(&mut q, 64, b"one");
    push(&mut q, 64, b"two");
    push(&mut q, 64, b"three");
    assert_eq!(pop(&mut q).unwrap(), b"one");
    let (index, mut pages) = q.close();
    assert_eq!(index.get_head_tuple(), Some((0, 11)));
    assert_eq!(index.get_tail_tuple(), Some((0, 35)));
    assert_eq!(pages.len(), 1);
    let conf = Config { arena_size: 64, max_arenas_in_mem: 3 };
    let mut q = BigQueue::with_config(index, None, pages.remove(0).arena, conf).unwrap();
    assert_eq!(pop(&mut q).unwrap(), b"two");
    assert_eq!(pop(&mut q).unwrap(), b"three");
    assert!(q.is_empty());
}

#[test]
fn arenas_roll_over() {
    // frames of 16 bytes fill arenas of 64 bytes exactly: 4 * K records reach arena K
    for k in 1..6usize {
        let mut q = open(64, 255);
        let mut mapped = 0;
        for _ in 0..(4 * k) {
            mapped += push(&mut q, 64, &[5u8; 8]);
        }
        assert_eq!(mapped, k);
        for _ in 0..(4 * k) {
            assert_eq!(pop(&mut q).unwrap(), vec![5u8; 8]);
        }
        let (index, _) = q.close();
        assert_eq!(index.get_tail_tuple(), Some((k, 0)));
        assert_eq!(index.get_head_tuple(), Some((k, 0)));
    }
    // frames of 28 bytes: ceil(64 * 3 / 28) = 7 records take 196 bytes and reach arena 3
    let mut q = open(64, 255);
    let mut mapped = 0;
    for _ in 0..7 {
        mapped += push(&mut q, 64, &[5u8; 20]);
    }
    assert_eq!(mapped, 3);
    let (index, _) = q.close();
    assert_eq!(index.get_tail_tuple(), Some((3, 4)));
}

#[test]
fn shrink_after_drain() {
    let mut q = open(64, 255);
    let mut records = 0;
    let mut mapped = 0;
    while mapped < 5 {
        mapped += push(&mut q, 64, b"0123456789");
        records += 1;
    }
    let names: Vec<String> = ["arena_3.dat", "index.dat", "arena_0.dat", "arena_5.dat", "arena_1.dat",
        "notes.txt", "arena_4.dat", "arena_2.dat", "arena_x.dat"]
        .iter().map(|s| s.to_string()).collect();
    assert!(q.shrink(&names).is_empty());
    for _ in 0..records {
        assert_eq!(pop(&mut q).unwrap(), b"0123456789");
    }
    assert!(q.is_empty());
    assert_eq!(q.shrink(&names), vec!["arena_3.dat", "arena_0.dat", "arena_1.dat", "arena_4.dat", "arena_2.dat"]);
    assert!(q.is_stale("arena_4.dat"));
    assert!(!q.is_stale("arena_5.dat"));
    assert!(!q.is_stale("index.dat"));
    let (index, pages) = q.close();
    assert_eq!(index.get_head_tuple().unwrap().0, 5);
    assert_eq!(aids(&pages), vec![5]);
}

#[test]
fn dequeue_counts() {
    let mut q = open(64, 255);
    let total = 5000;
    let data = b"1234567890abcdefghij";
    let mut files: Vec<Page> = Vec::new();
    let mut count = 0;
    let mut bytes = 0;
    for i in 0..total {
        push(&mut q, 64, data);
        if i % 7 == 0 {
            while dequeue(&mut q).is_ok() {
                count += 1;
                bytes += data.len();
            }
        }
    }
    while dequeue(&mut q).is_ok() {
        count += 1;
        bytes += data.len();
    }
    assert!(files.is_empty());
    files.clear();
    assert_eq!(count, total);
    assert_eq!(bytes, total * 20);
    assert!(matches!(dequeue(&mut q), Err(Error::QueueEmpty)));
}

#[test]
fn dequeue_skips_like_pop() {
    let mut a = open(16, 255);
    let mut b = open(16, 255);
    let records: Vec<Vec<u8>> = (0..40usize).map(|i| vec![i as u8; (i * 7) % 45]).collect();
    for r in &records {
        push(&mut a, 16, r);
        push(&mut b, 16, r);
    }
    for (i, r) in records.iter().enumerate() {
        if i % 2 == 0 {
            dequeue(&mut a).unwrap();
            dequeue(&mut b).unwrap();
        } else {
            assert_eq!(&pop(&mut a).unwrap(), r);
            dequeue(&mut b).unwrap();
        }
    }
    let (ia, _) = a.close();
    let (ib, _) = b.close();
    assert_eq!(ia.get_head_tuple(), ib.get_head_tuple());
    assert_eq!(ia.get_head_tuple(), ia.get_tail_tuple());
}

#[test]
fn cache_keeps_the_latest() {
    let mut q = open(16, 2);
    // one record over arenas 0..5; the head stays in arena 0
    push(&mut q, 16, &[1u8; 70]);
    let (_, pages) = q.close();
    // the tail's, the head's, then the cache from the least recently used on
    assert_eq!(aids(&pages), vec![4, 0, 2, 3]);
    let mut q = open(16, 1);
    push(&mut q, 16, &[1u8; 70]);
    let (_, pages) = q.close();
    assert_eq!(aids(&pages), vec![4, 0, 3]);
    let mut q = open(16, 2);
    push(&mut q, 16, &[1u8; 70]);
    q.clear_cache();
    let (_, pages) = q.close();
    assert_eq!(aids(&pages), vec![4, 0]);
}

#[test]
fn missing_arena_is_named() {
    let record = vec![3u8; 70];
    let mut q = open(16, 2);
    push(&mut q, 16, &record);
    // arena 1 has left the cache
    match peek(&q) {
        Err(Error::Exist(name)) => assert_eq!(name, "arena_1.dat"),
        other => panic!("{:?}", other),
    }
    match pop(&mut q) {
        Err(Error::Exist(name)) => assert_eq!(name, "arena_1.dat"),
        other => panic!("{:?}", other),
    }
    // skipping the payload needs the arena of the end alone, which is the tail's
    assert!(dequeue(&mut q).is_ok());
    assert!(q.is_empty());
    let mut q = open(16, 2);
    push(&mut q, 16, &record);
    let (_, mut files) = disk(16, &[record.clone()]);
    let mut pages = vec![take(&mut files, 1)];
    assert_eq!(q.peek(&pages).unwrap(), record);
    assert_eq!(q.pop(&mut pages).unwrap(), record);
    // the page was read and not taken: the head moved into the tail's arena
    assert_eq!(aids(&pages), vec![1]);
}

#[test]
fn head_takes_its_arena_from_the_pages() {
    let records = vec![vec![1u8; 20], vec![2u8; 20], vec![3u8; 20], vec![4u8; 20], vec![5u8; 20]];
    // frames of 28 bytes in arenas of 32: each record starts a new arena
    let mut q = open(32, 1);
    for r in &records {
        push(&mut q, 32, r);
    }
    let (_, mut files) = disk(32, &records);
    assert_eq!(pop(&mut q).unwrap(), records[0]);
    // the head is at 28 in arena 0; the next word starts arena 1, which is not mapped
    let mut pages: Vec<Page> = Vec::new();
    match q.pop(&mut pages) {
        Err(Error::Exist(name)) => assert_eq!(name, "arena_1.dat"),
        other => panic!("{:?}", other),
    }
    pages.push(take(&mut files, 2));
    pages.push(take(&mut files, 1));
    assert_eq!(q.pop(&mut pages).unwrap(), records[1]);
    assert_eq!(aids(&pages), vec![2]);
    assert_eq!(q.pop(&mut pages).unwrap(), records[2]);
    assert!(pages.is_empty());
    // arena 3 is in the cache, arena 4 is the tail's
    assert_eq!(pop(&mut q).unwrap(), records[3]);
    assert_eq!(pop(&mut q).unwrap(), records[4]);
    assert!(q.is_empty());
}

#[test]
fn pages_of_the_wrong_size_are_not_used() {
    let mut q = open(32, 3);
    push(&mut q, 32, b"fits");
    let mut pages = vec![Page { aid: 1, arena: arena(16) }];
    match q.push(&[0u8; 30], &mut pages) {
        Err(Error::Exist(name)) => assert_eq!(name, "arena_1.dat"),
        other => panic!("{:?}", other),
    }
    assert_eq!(pages.len(), 1);
    pages.push(Page { aid: 1, arena: arena(32) });
    pages.push(Page { aid: 7, arena: arena(32) });
    q.push(&[0u8; 30], &mut pages).unwrap();
    assert_eq!(aids(&pages), vec![1, 7]);
    assert_eq!(pages[0].arena.len(), 16);
    assert_eq!(pop(&mut q).unwrap(), b"fits");
    assert_eq!(pop(&mut q).unwrap(), vec![0u8; 30]);
}

fn index_with(head: (usize, usize), tail: (usize, usize)) -> Index {
    let mut index = Index::new(arena(32));
    index.set_head(head.0, head.1).unwrap();
    index.set_tail(tail.0, tail.1).unwrap();
    index
}

#[test]
fn open_checks_what_it_is_given() {
    let conf = || Config { arena_size: 64, max_arenas_in_mem: 3 };
    match BigQueue::with_config(Index::new(arena(31)), None, arena(64), conf()) {
        Err(Error::OpenFileWithLength(name, n)) => assert_eq!((name.as_str(), n), ("index.dat", 32)),
        other => panic!("{:?}", other.is_ok()),
    }
    match BigQueue::with_config(Index::new(arena(33)), None, arena(64), conf()) {
        Err(Error::OpenFileWithLength(name, n)) => assert_eq!((name.as_str(), n), ("index.dat", 32)),
        other => panic!("{:?}", other.is_ok()),
    }
    match BigQueue::with_config(index_with((2, 0), (2, 5)), None, arena(63), conf()) {
        Err(Error::OpenFileWithLength(name, n)) => assert_eq!((name.as_str(), n), ("arena_2.dat", 64)),
        other => panic!("{:?}", other.is_ok()),
    }
    match BigQueue::with_config(index_with((1, 0), (2, 5)), None, arena(64), conf()) {
        Err(Error::Exist(name)) => assert_eq!(name, "arena_1.dat"),
        other => panic!("{:?}", other.is_ok()),
    }
    match BigQueue::with_config(index_with((1, 0), (2, 5)), Some(arena(65)), arena(64), conf()) {
        Err(Error::OpenFileWithLength(name, n)) => assert_eq!((name.as_str(), n), ("arena_1.dat", 64)),
        other => panic!("{:?}", other.is_ok()),
    }
    for (head, tail) in [((3, 0), (2, 5)), ((2, 6), (2, 5)), ((1, 64), (2, 5)), ((1, 0), (2, 64))] {
        assert!(matches!(
            BigQueue::with_config(index_with(head, tail), Some(arena(64)), arena(64), conf()),
            Err(Error::Read)
        ));
    }
    assert!(BigQueue::with_config(index_with((1, 63), (2, 0)), Some(arena(64)), arena(64), conf()).is_ok());
    assert!(BigQueue::with_config(index_with((2, 5), (2, 5)), Some(arena(1)), arena(64), conf()).is_ok());
    assert!(matches!(
        BigQueue::new(Index::new(arena(32)), None, arena(64)),
        Err(Error::OpenFileWithLength(_, 134217728))
    ));
}

#[test]
fn records_that_overrun_the_tail() {
    // a length word of 100 with the tail 20 bytes on
    let mut first = arena(64);
    first.write_u64_at(0, 100).unwrap();
    let conf = || Config { arena_size: 64, max_arenas_in_mem: 3 };
    let mut q = BigQueue::with_config(index_with((0, 0), (0, 20)), None, first, conf()).unwrap();
    assert!(matches!(peek(&q), Err(Error::Read)));
    assert!(matches!(pop(&mut q), Err(Error::Read)));
    assert!(matches!(dequeue(&mut q), Err(Error::Read)));
    let mut exact = arena(64);
    exact.write_u64_at(0, 12).unwrap();
    exact.write_bytes_at(8, b"twelve bytes").unwrap();
    let mut q = BigQueue::with_config(index_with((0, 0), (0, 20)), None, exact, conf()).unwrap();
    assert_eq!(pop(&mut q).unwrap(), b"twelve bytes");
    assert!(q.is_empty());
    // the tail in the middle of the length word
    let mut q = BigQueue::with_config(index_with((0, 0), (0, 7)), None, arena(64), conf()).unwrap();
    assert!(matches!(peek(&q), Err(Error::ReadLength)));
    assert!(matches!(pop(&mut q), Err(Error::ReadLength)));
    assert!(matches!(dequeue(&mut q), Err(Error::ReadLength)));
    // the head too near the end of its arena for a word, the tail in the same arena
    let mut q = BigQueue::with_config(index_with((0, 60), (0, 63)), None, arena(64), conf()).unwrap();
    assert!(matches!(pop(&mut q), Err(Error::ReadLength)));
    let (index, _) = q.close();
    assert_eq!(index.get_head_tuple(), Some((0, 60)));
}

#[test]
fn last_arena_cannot_roll_over() {
    let conf = Config { arena_size: 64, max_arenas_in_mem: 3 };
    let at = (usize::MAX, 40);
    let mut q = BigQueue::with_config(index_with(at, at), None, arena(64), conf).unwrap();
    let mut pages: Vec<Page> = Vec::new();
    assert!(matches!(q.push(&[0u8; 16], &mut pages), Err(Error::Write)));
    assert!(q.is_empty());
    q.push(&[7u8; 15], &mut pages).unwrap();
    assert!(matches!(q.push(b"", &mut pages), Err(Error::Write)));
    assert_eq!(pop(&mut q).unwrap(), vec![7u8; 15]);
    let (index, _) = q.close();
    assert_eq!(index.get_tail_tuple(), Some((usize::MAX, 63)));
}

#[test]
fn messages() {
    assert_eq!(Error::Write.to_string(), "fail to write.");
    assert_eq!(Error::IsDir("/tmp/x".to_string()).to_string(), "/tmp/x is not directory.");
    assert_eq!(Error::CanWrite("/tmp/x".to_string()).to_string(), "/tmp/x is not writable.");
    assert_eq!(Error::Exist("arena_3.dat".to_string()).to_string(), "arena_3.dat not exist.");
    assert_eq!(Error::QueueEmpty.to_string(), "queue is empty.");
    assert_eq!(
        Error::OpenFileWithLength("index.dat".to_string(), 32).to_string(),
        "fail to open index.dat with length 32."
    );
    assert_eq!(Error::ReadLength.to_string(), "fail to read length.");
    assert_eq!(Error::Read.to_string(), "fail to read.");
    let cause = std::io::Error::new(std::io::ErrorKind::Other, "no space");
    assert_eq!(Error::Io(cause).to_string(), "no space");
}

#[test]
fn default_configuration() {
    let c = Config::new();
    assert_eq!(c.arena_size, 128 * 1024 * 1024);
    assert_eq!(c.max_arenas_in_mem, 3);
    assert!(c.is_valid());
    assert!(!Config { arena_size: 8, max_arenas_in_mem: 3 }.is_valid());
    assert!(Config { arena_size: 9, max_arenas_in_mem: 1 }.is_valid());
    assert!(!Config { arena_size: 64, max_arenas_in_mem: 0 }.is_valid());
}

#[test]
fn index_records_the_cursors() {
    let mut q = open(64, 8);
    push(&mut q, 64, &[1u8; 60]);
    push(&mut q, 64, &[2u8; 300]);
    assert_eq!(pop(&mut q).unwrap(), vec![1u8; 60]);
    // head: 68 bytes on; tail: 68 + 308 = 376 bytes on
    let (index, _) = q.close();
    let mut want = Vec::new();
    for word in [1u64, 4, 5, 56] {
        want.extend_from_slice(&word.to_le_bytes());
    }
    assert_eq!(index.as_slice(), &want[..]);
}

#[test]
fn head_leaves_the_cache_behind() {
    let mut q = open(16, 8);
    push(&mut q, 16, &[1u8; 20]);
    push(&mut q, 16, &[2u8; 50]);
    // the tail has left arenas 0 to 4; arena 0 is the head's
    let parts = {
        let mut again = open(16, 8);
        push(&mut again, 16, &[1u8; 20]);
        push(&mut again, 16, &[2u8; 50]);
        again.close()
    };
    // 28 bytes for the first frame, 4 bytes skipped, 58 bytes for the second
    assert_eq!(parts.0.get_tail_tuple(), Some((5, 10)));
    assert_eq!(aids(&parts.1), vec![5, 0, 1, 2, 3, 4]);
    // the first record ends in arena 1: the head takes that arena out of the cache
    assert_eq!(pop(&mut q).unwrap(), vec![1u8; 20]);
    let parts = {
        let mut again = open(16, 8);
        push(&mut again, 16, &[1u8; 20]);
        push(&mut again, 16, &[2u8; 50]);
        pop(&mut again).unwrap();
        again.close()
    };
    assert_eq!(parts.0.get_head_tuple(), Some((1, 12)));
    assert_eq!(aids(&parts.1), vec![5, 1, 2, 3, 4]);
    // the second record ends in the tail's arena: what the head passes leaves the cache
    assert_eq!(peek(&q).unwrap(), vec![2u8; 50]);
    assert_eq!(pop(&mut q).unwrap(), vec![2u8; 50]);
    let (index, pages) = q.close();
    assert_eq!(index.get_head_tuple(), Some((5, 10)));
    assert_eq!(aids(&pages), vec![5]);
}
