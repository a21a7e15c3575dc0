use pfind::queue::PathQueue;
use pfind::ring::MemPathQueue;
use pfind::spill::TempfilePathQueue;
use pfind::state::PathQueueState;
use pfind::lock::SpinLock;
use pfind::Error;

fn bytes(s: &str) -> Vec<u8> {
    s.as_bytes().to_vec()
}

#[test]
fn single_thread() {
    let mut q = PathQueue::new(2, 2).unwrap();
    assert!(q.push(bytes("1")).unwrap().is_none());
    assert_eq!(
        q.state(),
        (PathQueueState::Empty, PathQueueState::Empty, PathQueueState::PartiallyFilled)
    );
    assert!(q.push(bytes("2")).unwrap().is_none());
    assert_eq!(q.state(), (PathQueueState::Empty, PathQueueState::Empty, PathQueueState::Full));
    assert!(q.push(bytes("3")).unwrap().is_none());
    assert_eq!(
        q.state(),
        (PathQueueState::Full, PathQueueState::Empty, PathQueueState::PartiallyFilled)
    );
    assert!(q.push(bytes("4")).unwrap().is_none());
    assert_eq!(q.state(), (PathQueueState::Full, PathQueueState::Empty, PathQueueState::Full));
    assert!(q.push(bytes("5")).unwrap().is_none());
    assert_eq!(
        q.state(),
        (
            PathQueueState::Full,
            PathQueueState::PartiallyFilled,
            PathQueueState::PartiallyFilled
        )
    );
    assert!(q.push(bytes("6")).unwrap().is_none());
    assert_eq!(
        q.state(),
        (PathQueueState::Full, PathQueueState::PartiallyFilled, PathQueueState::Full)
    );
    assert_eq!(q.pop().unwrap(), Some(bytes("1")));
    assert_eq!(q.pop().unwrap(), Some(bytes("2")));
    assert_eq!(q.pop().unwrap(), Some(bytes("3")));
    assert_eq!(q.pop().unwrap(), Some(bytes("4")));
    assert_eq!(q.pop().unwrap(), Some(bytes("5")));
    assert_eq!(q.pop().unwrap(), Some(bytes("6")));
    assert_eq!(q.pop().unwrap(), None);
}

#[test]
fn spsc() {
    let mut queue = PathQueue::new(73, 131).unwrap();
    let count: usize = 100000;
    let mut next_push: usize = 0;
    let mut next_pop: usize = 0;
    // One producer and one consumer taking turns in uneven bursts, so the
    // queue repeatedly fills, spills to disk, and drains.
    while next_pop < count {
        let mut burst = 997;
        while burst > 0 && next_push < count {
            let path = next_push.to_string().into_bytes();
            assert!(queue.push(path).unwrap().is_none());
            next_push += 1;
            burst -= 1;
        }
        let mut burst = if next_push < count { 499 } else { count - next_pop };
        while burst > 0 && next_pop < count {
            if let Some(path) = queue.pop().unwrap() {
                assert_eq!(path, next_pop.to_string().into_bytes());
                next_pop += 1;
            }
            burst -= 1;
        }
    }
    assert!(queue.is_empty());
}

#[test]
fn spill_transparency() {
    // The same pushes through a queue that spills and one that does not:
    // both pop the same sequence.
    let mut small = PathQueue::new(2, 2).unwrap();
    let mut large = PathQueue::new(512, 512).unwrap();
    for i in 0..200usize {
        let p = format!("p{}", i).into_bytes();
        assert!(small.push(p.clone()).unwrap().is_none());
        assert!(large.push(p).unwrap().is_none());
    }
    // The small queue had to spill: its middle stage holds paths.
    assert_eq!(small.state().1, PathQueueState::PartiallyFilled);
    assert_eq!(large.state().1, PathQueueState::Empty);
    for _ in 0..200usize {
        assert_eq!(small.pop().unwrap(), large.pop().unwrap());
    }
    assert!(small.is_empty());
    assert!(large.is_empty());
}

#[test]
fn mass_conservation() {
    let mut q = PathQueue::new(4, 4).unwrap();
    assert!(q.is_empty());
    for i in 0..50usize {
        assert!(q.push(i.to_string().into_bytes()).unwrap().is_none());
        assert!(!q.is_empty());
    }
    for _ in 0..50usize {
        assert!(!q.is_empty());
        assert!(q.pop().unwrap().is_some());
    }
    assert!(q.is_empty());
    assert_eq!(q.pop().unwrap(), None);
}

#[test]
fn ring_capacity_rounds_up() {
    // 73 rounds to 128 and 131 to 256: the ring accepts exactly that many
    // paths before handing one back.
    let mut r = MemPathQueue::new(73);
    for i in 0..128u32 {
        assert!(r.push(i.to_string().into_bytes()).is_none());
    }
    assert_eq!(r.push(bytes("full")), Some(bytes("full")));
    for i in 0..128u32 {
        assert_eq!(r.pop(), Some(i.to_string().into_bytes()));
    }
    assert_eq!(r.pop(), None);
}

#[test]
fn ring_wraps_its_slots() {
    // A capacity-2 ring cycled far past its size keeps FIFO order while the
    // same two slots are reused over and over.
    let mut r = MemPathQueue::new(2);
    assert!(r.push(bytes("a")).is_none());
    for i in 0..1000usize {
        assert!(r.push(i.to_string().into_bytes()).is_none());
        let got = r.pop().unwrap();
        if i == 0 {
            assert_eq!(got, bytes("a"));
        } else {
            assert_eq!(got, (i - 1).to_string().into_bytes());
        }
        assert_eq!(r.state(), PathQueueState::PartiallyFilled);
    }
    assert_eq!(r.pop(), Some(999usize.to_string().into_bytes()));
    assert_eq!(r.state(), PathQueueState::Empty);
}

#[test]
fn spill_log_round_trip() {
    // Paths of many lengths survive the NUL-delimited disk encoding,
    // including empty ones and ones holding newlines.
    let mut s = TempfilePathQueue::new();
    assert_eq!(s.state(), PathQueueState::Empty);
    let items: Vec<Vec<u8>> = vec![
        bytes(""),
        bytes("a"),
        bytes("with space"),
        bytes("line\nbreak"),
        vec![0xffu8, 0x01, 0x80],
        bytes("x").repeat(3000),
    ];
    for it in &items {
        s.push(it).unwrap();
        assert_eq!(s.state(), PathQueueState::PartiallyFilled);
    }
    for it in &items {
        assert_eq!(s.pop().unwrap(), Some(it.clone()));
    }
    assert_eq!(s.pop().unwrap(), None);
    assert_eq!(s.state(), PathQueueState::Empty);
}

#[test]
fn empty_paths_are_ordinary_values() {
    // No sentinel: the empty path is a first-class value, also through the
    // spill stage.
    let mut q = PathQueue::new(2, 2).unwrap();
    for i in 0..8usize {
        if i % 2 == 0 {
            assert!(q.push(Vec::new()).unwrap().is_none());
        } else {
            assert!(q.push(i.to_string().into_bytes()).unwrap().is_none());
        }
    }
    for i in 0..8usize {
        let got = q.pop().unwrap().unwrap();
        if i % 2 == 0 {
            assert!(got.is_empty());
        } else {
            assert_eq!(got, i.to_string().into_bytes());
        }
    }
    assert!(q.is_empty());
}

#[test]
fn spin_lock_refuses_second_take() {
    let mut l = SpinLock::new();
    assert_eq!(l.try_lock(), Ok(()));
    assert_eq!(l.try_lock(), Err(Error::SpinLockFailed));
    l.unlock();
    assert_eq!(l.try_lock(), Ok(()));
}

#[test]
fn state_predicates() {
    assert!(PathQueueState::Empty.is_empty());
    assert!(!PathQueueState::Empty.is_partially_filled());
    assert!(!PathQueueState::Empty.is_full());
    assert!(PathQueueState::PartiallyFilled.is_partially_filled());
    assert!(!PathQueueState::PartiallyFilled.is_full());
    assert!(PathQueueState::Full.is_full());
    assert!(!PathQueueState::Full.is_empty());
}
