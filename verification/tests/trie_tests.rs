use floton::trie::IntNode;
use floton::trie::IntTrie;
use floton::traits::NewType;

#[derive(Debug)]
struct TimePoint(usize);

impl NewType for TimePoint {
    fn new() -> Self {
        TimePoint(0)
    }
}

fn empty_node<T>() -> IntNode<T> {
    IntNode { val: None, zero: None, one: None }
}

#[test]
fn inode_create01_works() {
    let mut a: IntNode<u32> = empty_node();
    a.create_0();
    a.create_1();
    assert!(a.zero.is_some());
    assert!(a.one.is_some());
    let created = a.zero.as_ref().unwrap();
    assert!(created.zero.is_none());
    assert!(created.one.is_none());
    let created1 = a.one.as_ref().unwrap();
    assert!(created1.zero.is_none());
    assert!(created1.one.is_none());
}

#[test]
fn inode_get01_works() {
    let mut a: IntNode<u32> = empty_node();
    a.get_0();
    a.get_1();
    assert!(a.zero.is_some());
    assert!(a.one.is_some());
    let got0 = a.zero.as_ref().unwrap();
    assert!(got0.zero.is_none());
    assert!(got0.one.is_none());
    let got1 = a.one.as_ref().unwrap();
    assert!(got1.zero.is_none());
    assert!(got1.one.is_none());
}

#[test]
fn inode_create_seq_works() {
    // key 2 walks zero then one
    let mut b: IntNode<u32> = empty_node();
    b.create_seq(2);
    {
        let node2 = b.zero.as_ref().unwrap().one.as_ref().unwrap();
        assert!(node2.zero.is_none());
        assert!(node2.one.is_none());
    }
    b.create_seq(3);
    {
        let node2 = b.one.as_ref().unwrap().one.as_ref().unwrap();
        assert!(node2.zero.is_none());
        assert!(node2.one.is_none());
    }
    // key 4 walks zero, zero, one
    let mut c: IntNode<u32> = empty_node();
    c.create_seq(4);
    {
        let node2 = c.zero.as_ref().unwrap().zero.as_ref().unwrap().one.as_ref().unwrap();
        assert!(node2.zero.is_none());
        assert!(node2.one.is_none());
    }
    c.create_seq(7);
    {
        let node2 = c.one.as_ref().unwrap().one.as_ref().unwrap().one.as_ref().unwrap();
        assert!(node2.zero.is_none());
        assert!(node2.one.is_none());
    }
    // key 10 walks zero, one, zero, one
    let mut d: IntNode<u32> = empty_node();
    d.create_seq(10);
    {
        let node2 = d
            .zero
            .as_ref()
            .unwrap()
            .one
            .as_ref()
            .unwrap()
            .zero
            .as_ref()
            .unwrap()
            .one
            .as_ref()
            .unwrap();
        assert!(node2.zero.is_none());
        assert!(node2.one.is_none());
    }
    d.create_seq(17);
    {
        let node2 = d
            .one
            .as_ref()
            .unwrap()
            .zero
            .as_ref()
            .unwrap()
            .zero
            .as_ref()
            .unwrap()
            .zero
            .as_ref()
            .unwrap()
            .one
            .as_ref()
            .unwrap();
        assert!(node2.zero.is_none());
        assert!(node2.one.is_none());
    }
}

#[test]
fn inode_get_seq_works() {
    let mut b: IntNode<u32> = empty_node();
    b.get_seq(3);
    {
        let node2 = b.one.as_ref().unwrap().one.as_ref().unwrap();
        assert!(node2.zero.is_none());
        assert!(node2.one.is_none());
    }
    b.get_seq(7);
    {
        let node2 = b.one.as_ref().unwrap().one.as_ref().unwrap().one.as_ref().unwrap();
        assert!(node2.zero.is_none());
        assert!(node2.one.is_none());
    }
    b.get_seq(6);
    {
        let node2 = b.zero.as_ref().unwrap().one.as_ref().unwrap().one.as_ref().unwrap();
        assert!(node2.zero.is_none());
        assert!(node2.one.is_none());
    }
    b.get_seq(21);
    {
        let node2 = b
            .one
            .as_ref()
            .unwrap()
            .zero
            .as_ref()
            .unwrap()
            .one
            .as_ref()
            .unwrap()
            .zero
            .as_ref()
            .unwrap()
            .one
            .as_ref()
            .unwrap();
        assert!(node2.zero.is_none());
        assert!(node2.one.is_none());
    }
}

#[test]
fn mt_inode_get_works() {
    // paths made by earlier keys stay intact as later keys are walked
    let mut node: IntNode<u32> = empty_node();
    node.get_seq(16);
    node.get_seq(11);
    node.get_seq(19);
    node.get_seq(13);
    {
        let node2 = node
            .one
            .as_ref()
            .unwrap()
            .zero
            .as_ref()
            .unwrap()
            .one
            .as_ref()
            .unwrap()
            .one
            .as_ref()
            .unwrap();
        assert!(node2.zero.is_none());
        assert!(node2.one.is_none());
    }
    // key 16 = [0,0,0,0,1] is still there
    let deep = node
        .zero
        .as_ref()
        .unwrap()
        .zero
        .as_ref()
        .unwrap()
        .zero
        .as_ref()
        .unwrap()
        .zero
        .as_ref()
        .unwrap()
        .one
        .as_ref();
    assert!(deep.is_some());
}

#[test]
fn check_if_one_works() {
    let mut b: IntTrie<TimePoint> = IntTrie::new(4);
    // install values at keys 3 and 1 by walking their paths
    b.nodes.get_seq(3);
    b.nodes.one.as_mut().unwrap().one.as_mut().unwrap().val = Some(Box::new(TimePoint(6)));
    b.nodes.get_seq(1);
    b.nodes.one.as_mut().unwrap().val = Some(Box::new(TimePoint(2)));
    let over = |obj: &TimePoint, op: &usize| obj.0 > *op;
    assert!(b.check_if_one(&over, &4));
    let between = |obj: &TimePoint, rng: &(usize, usize)| rng.0 <= obj.0 && obj.0 <= rng.1;
    assert!(b.check_if_one(&between, &(0, 2)));
    assert!(!b.check_if_one(&over, &6));
}

#[test]
fn check_if_get_by_tid_works() {
    let mut b: IntTrie<TimePoint> = IntTrie::new(4);
    let current_tid: usize = 2;
    {
        let val = b.get_by_tid(current_tid);
        assert_eq!(val.0, 0);
    }
    // the node for the key now exists and holds the value
    let regular_node = b.nodes.zero.as_ref().unwrap().one.as_ref().unwrap();
    assert!(regular_node.val.is_some());
}

#[test]
fn mt_get_by_tid_works() {
    // each key gets its own stable slot
    let mut b: IntTrie<TimePoint> = IntTrie::new(20);
    for round in 0..3 {
        for tid in 0..6usize {
            let v = b.get_by_tid(tid);
            assert_eq!(v.0, 0);
            let _ = round;
        }
    }
}
