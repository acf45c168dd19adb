use floton::threading::SpSc;
use floton::threading::Switch;
use floton::threading::TVal;
use floton::threading::Parker;
use floton::traits::NewType;

#[derive(Debug, Copy, Clone, PartialEq)]
struct TestType(u32);

#[test]
fn parker_works() {
    let mut p = Parker::new(10, 100, 10);
    assert_eq!(p.cur_time, p.min_time);
    p.do_park(false);
    assert_eq!(p.cur_time, p.min_time + p.segment);
    p.do_park(true);
    assert_eq!(p.cur_time, p.min_time);
}

#[test]
fn parker_caps_at_max() {
    let mut p = Parker::new(0, 25, 10);
    p.do_park(false);
    p.do_park(false);
    assert_eq!(p.cur_time, 20);
    p.do_park(false);
    assert_eq!(p.cur_time, 25);
    p.do_park(false);
    assert_eq!(p.cur_time, 25);
}

#[test]
fn threading_make_ring_works() {
    // a full cycle of pushes and pops brings the queue back to its start
    let ring_size = 5;
    let mut queue: SpSc<TestType> = SpSc::new(ring_size);
    for lap in 0..2u32 {
        for i in 0..ring_size {
            assert!(queue.push(TestType(lap * 10 + i as u32)));
        }
        for i in 0..ring_size {
            assert_eq!(queue.pop(), Some(TestType(lap * 10 + i as u32)));
        }
        assert!(queue.is_empty());
    }
}

#[test]
fn spsc_push_works() {
    let qsize = 3;
    let mut queue: SpSc<TestType> = SpSc::new(qsize);
    for _ in 0..qsize {
        assert!(queue.push(TestType(4)));
    }
    // this push must fail
    assert!(!queue.push(TestType(4)));
}

#[test]
fn spsc_is_full_works() {
    let qsize = 3;
    let mut queue: SpSc<TestType> = SpSc::new(qsize);
    for _ in 0..qsize {
        assert!(queue.push(TestType(4)));
    }
    assert!(queue.is_full());
}

#[test]
fn spsc_pop_works() {
    let qsize = 3;
    let mut queue: SpSc<TestType> = SpSc::new(qsize);
    for _ in 0..qsize {
        assert!(queue.push(TestType(4)));
    }
    assert!(!queue.push(TestType(4)));
    for _ in 0..qsize {
        match queue.pop() {
            Some(_) => (),
            None => panic!("Pop with non empty queue failed"),
        }
    }
    match queue.pop() {
        Some(v) => panic!("Expected empty queue but got {:?}", v),
        _ => (),
    }
}

#[test]
fn spsc_is_empty_works() {
    let qsize = 3;
    let queue: SpSc<TestType> = SpSc::new(qsize);
    assert!(queue.is_empty());
}

#[test]
fn switch_works() {
    let mut a = Switch::new();
    assert!(!a.get());
    a.set(true);
    assert!(a.get());
    a.set(false);
    assert!(!a.get());
}

#[test]
fn tval_wraps_value() {
    let v = TVal::new(TestType(9));
    assert_eq!(v.get().0, 9);
}
