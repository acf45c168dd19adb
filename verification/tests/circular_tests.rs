use floton::circular::CircleNode;
use floton::circular::CircleList;

#[derive(Debug, Clone)]
struct TestType(u32);

#[test]
fn circular_make_ring_works() {
    let template = TestType(30);
    let ring = CircleNode::make_ring(&template, 10);
    assert_eq!(ring.len(), 10);
    for cell in &ring {
        assert_eq!(cell.0.0, 30);
    }
}

#[test]
fn circ_list_next_works() {
    let base = TestType(7);
    let mut list = CircleList::new(&base, 10);
    list.ring[0].0 = TestType(1);
    for _ in 0..10 {
        list.next();
    }
    assert_eq!(list.next().0, 1);
}

#[test]
fn circ_list_len_works() {
    let base = TestType(7);
    let list = CircleList::new(&base, 4);
    assert_eq!(list.len(), 4);
}
