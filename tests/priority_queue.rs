use flatnav::{Closest, ClosestQueue, Furthest, FurthestQueue};

// Distances are in tenths: 72 stands for 7.2.

#[test]
fn test_closest() {
    let mut q: ClosestQueue<u32> = ClosestQueue::new();

    let items = [(4, 72), (12, 93), (5, 31), (22, 47), (19, 72)];
    for &(node, dist) in items.iter() {
        q.push(Closest { node, dist });
    }

    let top = q.pop().unwrap();
    assert_eq!(top.node, 5);
    assert_eq!(top.dist, 31);

    let top = q.pop().unwrap();
    assert_eq!(top.node, 22);
    assert_eq!(top.dist, 47);

    let top = q.pop().unwrap();
    assert_eq!(top.node, 4);
    assert_eq!(top.dist, 72);

    let top = q.pop().unwrap();
    assert_eq!(top.node, 19);
    assert_eq!(top.dist, 72);
}

#[test]
fn test_furthest() {
    let mut q: FurthestQueue<u32> = FurthestQueue::new();

    let items = [(4, 72), (12, 93), (5, 31), (22, 47), (19, 72)];
    for &(node, dist) in items.iter() {
        q.push(Furthest { node, dist });
    }

    let top = q.pop().unwrap();
    assert_eq!(top.node, 12);
    assert_eq!(top.dist, 93);

    let top = q.pop().unwrap();
    assert_eq!(top.node, 4);
    assert_eq!(top.dist, 72);

    let top = q.pop().unwrap();
    assert_eq!(top.node, 19);
    assert_eq!(top.dist, 72);

    let top = q.pop().unwrap();
    assert_eq!(top.node, 22);
    assert_eq!(top.dist, 47);
}

#[test]
fn queues_empty_behaviour() {
    let mut c: ClosestQueue<u32> = ClosestQueue::new();
    assert!(c.is_empty());
    assert!(c.pop().is_none());
    c.push(Closest { node: 1, dist: 5 });
    assert_eq!(c.len(), 1);
    let mut f: FurthestQueue<u32> = FurthestQueue::new();
    assert_eq!(f.peek_dist(), None);
    assert!(f.pop().is_none());
    f.push(Furthest { node: 1, dist: 5 });
    f.push(Furthest { node: 2, dist: 9 });
    assert_eq!(f.peek_dist(), Some(9));
    assert_eq!(f.len(), 2);
}

#[test]
fn furthest_into_closest_reverses() {
    let mut f: FurthestQueue<u32> = FurthestQueue::new();
    for &(node, dist) in [(1, 30), (2, 10), (3, 20)].iter() {
        f.push(Furthest { node, dist });
    }
    let mut c = f.into_closest();
    assert_eq!(c.len(), 3);
    assert_eq!(c.pop().unwrap().node, 2);
    assert_eq!(c.pop().unwrap().node, 3);
    assert_eq!(c.pop().unwrap().node, 1);
}
