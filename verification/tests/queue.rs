use routinglib::geometry::Point;
use routinglib::next_node_queue::{DiscoveredNode, NextNodeQueue};

fn node(x: i32, cost: u64, estimated: u64) -> DiscoveredNode {
    DiscoveredNode { point: Point::new(x, 0), cost, estimated, previous: None }
}

fn drain(queue: &mut NextNodeQueue) -> Vec<(i32, u64, u64)> {
    let mut out = Vec::new();
    while let Some(n) = queue.pop() {
        out.push((n.point.x, n.cost, n.estimated));
    }
    out
}

#[test]
fn new_queue_is_empty() {
    let mut q = NextNodeQueue::new();
    assert!(q.is_empty());
    assert!(q.pop().is_none());
    assert!(q.is_empty());
}

#[test]
fn pop_takes_the_lowest_estimate_first() {
    let mut q = NextNodeQueue::new();
    q.insert(node(1, 0, 5));
    q.insert(node(2, 0, 3));
    q.insert(node(3, 0, 9));
    q.insert(node(4, 0, 4));
    assert!(!q.is_empty());
    assert_eq!(drain(&mut q), vec![(2, 0, 3), (4, 0, 4), (1, 0, 5), (3, 0, 9)]);
    assert!(q.is_empty());
}

#[test]
fn among_equal_estimates_the_newest_leaves_first() {
    let mut q = NextNodeQueue::new();
    q.insert(node(1, 0, 5));
    q.insert(node(2, 0, 5));
    q.insert(node(3, 0, 5));
    assert_eq!(drain(&mut q), vec![(3, 0, 5), (2, 0, 5), (1, 0, 5)]);
}

#[test]
fn a_cheaper_node_takes_the_place_of_the_old_one() {
    let mut q = NextNodeQueue::new();
    q.insert(node(1, 10, 20));
    q.insert(node(2, 1, 15));
    q.insert(node(3, 1, 11));
    q.insert(node(1, 5, 12));
    assert_eq!(drain(&mut q), vec![(3, 1, 11), (1, 5, 12), (2, 1, 15)]);
}

#[test]
fn a_cheaper_node_moves_past_all_higher_estimates() {
    let mut q = NextNodeQueue::new();
    q.insert(node(1, 10, 20));
    q.insert(node(2, 1, 15));
    q.insert(node(3, 1, 11));
    q.insert(node(1, 2, 4));
    assert_eq!(drain(&mut q), vec![(1, 2, 4), (3, 1, 11), (2, 1, 15)]);
}

#[test]
fn a_cheaper_node_with_the_estimate_of_another_goes_before_it() {
    let mut q = NextNodeQueue::new();
    q.insert(node(1, 10, 20));
    q.insert(node(2, 1, 15));
    q.insert(node(1, 5, 15));
    // it stops in front of the first node whose estimate is not higher
    assert_eq!(drain(&mut q), vec![(2, 1, 15), (1, 5, 15)]);
}

#[test]
fn a_node_that_is_not_cheaper_changes_nothing() {
    let mut q = NextNodeQueue::new();
    q.insert(node(1, 5, 9));
    q.insert(node(2, 5, 7));
    q.insert(node(1, 5, 1));
    q.insert(node(1, 6, 2));
    assert_eq!(drain(&mut q), vec![(2, 5, 7), (1, 5, 9)]);
}

#[test]
fn a_cheaper_node_with_a_higher_estimate_stays_in_place() {
    let mut q = NextNodeQueue::new();
    q.insert(node(1, 0, 9));
    q.insert(node(2, 2, 5));
    q.insert(node(2, 1, 12));
    assert_eq!(drain(&mut q), vec![(2, 1, 12), (1, 0, 9)]);
}

#[test]
fn the_queue_keeps_the_back_pointer() {
    let mut q = NextNodeQueue::new();
    q.insert(DiscoveredNode {
        point: Point::new(1, 1),
        cost: 3,
        estimated: 4,
        previous: Some(Point::new(7, 8)),
    });
    let n = q.pop().unwrap();
    assert_eq!(n.point, Point::new(1, 1));
    assert_eq!(n.cost, 3);
    assert_eq!(n.estimated, 4);
    assert_eq!(n.previous, Some(Point::new(7, 8)));
}

#[test]
fn clear_empties_the_queue() {
    let mut q = NextNodeQueue::new();
    q.insert(node(1, 0, 5));
    q.insert(node(2, 0, 3));
    q.clear();
    assert!(q.is_empty());
    assert!(q.pop().is_none());
    q.insert(node(3, 0, 1));
    assert_eq!(drain(&mut q), vec![(3, 0, 1)]);
}
