use floton::shared::TimePtr;
use floton::shared::FreeNode;
use floton::shared::FreeList;
use floton::shared::Shared;

#[derive(Debug, Copy, Clone)]
struct TestType(u32);

#[test]
fn shared_freenode_works() {
    let tptr = TimePtr::make(30u32, 44);
    let fnode = FreeNode::new_ptr(tptr);
    match fnode.0 {
        Some(r) => {
            assert_eq!(r.0, 30);
            assert_eq!(r.1, 44);
        },
        None => panic!("empty cell returned from FreeNode::new_ptr"),
    }
}

#[test]
fn freelist_add_works() {
    let mut flist: FreeList<u32> = FreeList::new();
    assert_eq!(flist.count(), 0);
    let tptr = TimePtr::make(777u32, 5);
    flist.add(tptr);
    assert_eq!(flist.count(), 1);
    let tptr2 = TimePtr::make(555u32, 6);
    flist.add(tptr2);
    assert_eq!(flist.count(), 2);
}

#[test]
fn shared_rw_works() {
    let mut shared: Shared<TestType> = Shared::new();
    shared.write(TimePtr::make(TestType(5), 10), 0);
    match shared.read(0, 3) {
        Some(tp) => {
            assert_eq!(tp.0.0, 5);
            assert_eq!(tp.1, 10);
        },
        None => panic!("read returned nothing after a write"),
    }
}

#[test]
fn shared_update_time_works() {
    let mut shared: Shared<TestType> = Shared::new();
    shared.write(TimePtr::make(TestType(5), 10), 0);
    // the first write displaced nothing, so no time is observed yet and
    // every timestamp is vacuously cleared
    assert!(shared.time_check(9));
    assert!(shared.update_time(0));
    // now thread 0 has observed time 10
    assert!(shared.time_check(9));
    assert!(!shared.time_check(10));
}

#[test]
fn shared_new_val_holds_value() {
    let shared: Shared<TestType> = Shared::new_val(TestType(8), 3);
    match shared.current_ref() {
        Some(tp) => {
            assert_eq!(tp.0.0, 8);
            assert_eq!(tp.1, 3);
        },
        None => panic!("expected a current value"),
    }
}

#[test]
fn shared_freerun_respects_observed_times() {
    let mut shared: Shared<TestType> = Shared::new();
    shared.write(TimePtr::make(TestType(1), 10), 0);
    shared.write(TimePtr::make(TestType(2), 20), 0);
    // the displaced value (stamped 10) sits on thread 0's free list, and
    // thread 0's observed time is 10: not strictly past it, so a sweep
    // with a limit of 1 must keep it
    assert_eq!(shared.free_run(0, 1), 0);
    // after observing the newer value (stamped 20) the old one clears
    assert!(shared.update_time(0));
    assert_eq!(shared.free_run(0, 1), 1);
    // nothing retired remains, so another sweep frees nothing
    assert_eq!(shared.free_run(0, 1), 0);
}

#[test]
fn shared_write_retires_displaced_value() {
    let mut shared: Shared<TestType> = Shared::new();
    shared.write(TimePtr::make(TestType(1), 100), 4);
    shared.write(TimePtr::make(TestType(2), 200), 4);
    match shared.current_ref() {
        Some(tp) => {
            assert_eq!(tp.0.0, 2);
            assert_eq!(tp.1, 200);
        },
        None => panic!("expected a current value"),
    }
    // thread 4 observed the displaced value's timestamp
    assert!(!shared.time_check(100));
    assert!(shared.time_check(99));
}
