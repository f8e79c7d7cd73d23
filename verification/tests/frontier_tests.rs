use path_finding::frontier::{Frontier, Node};
use path_finding::lookup::{PosMap, PosSet};
use path_finding::pathfinding::NodeState;

fn node(x: usize, cost: u128, key: u128) -> Node {
    Node { position: (x, 0), cost, key }
}

fn drain(frontier: &mut Frontier) -> Vec<(usize, usize)> {
    let mut order = Vec::new();
    while let Some(node) = frontier.pop() {
        order.push(node.position);
    }
    order
}

#[test]
fn frontier_pops_the_smallest_key_first() {
    let mut frontier = Frontier::new();
    frontier.push(node(0, 5, 5));
    frontier.push(node(1, 2, 2));
    frontier.push(node(2, 9, 9));
    frontier.push(node(3, 0, 0));
    assert_eq!(drain(&mut frontier), vec![(3, 0), (1, 0), (0, 0), (2, 0)]);
    assert!(frontier.pop().is_none());
}

#[test]
fn equal_keys_pop_the_larger_cost_first() {
    let mut frontier = Frontier::new();
    frontier.push(node(0, 1, 4));
    frontier.push(node(1, 3, 4));
    frontier.push(node(2, 2, 4));
    frontier.push(node(3, 7, 5));
    assert_eq!(drain(&mut frontier), vec![(1, 0), (2, 0), (0, 0), (3, 0)]);
}

#[test]
fn full_ties_pop_in_the_order_pushed() {
    let mut frontier = Frontier::new();
    frontier.push(node(4, 1, 1));
    frontier.push(node(2, 1, 1));
    frontier.push(node(7, 1, 1));
    assert_eq!(drain(&mut frontier), vec![(4, 0), (2, 0), (7, 0)]);
}

#[test]
fn popped_node_is_returned_whole() {
    let mut frontier = Frontier::new();
    frontier.push(Node { position: (3, 9), cost: 6, key: 11 });
    let popped = frontier.pop().unwrap();
    assert_eq!(popped.position, (3, 9));
    assert_eq!(popped.cost, 6);
    assert_eq!(popped.key, 11);
}

#[test]
fn pops_before_orders_by_key_then_by_cost() {
    assert!(node(0, 9, 1).pops_before(&node(1, 0, 2)));
    assert!(!node(0, 0, 2).pops_before(&node(1, 9, 1)));
    assert!(node(0, 5, 3).pops_before(&node(1, 4, 3)));
    assert!(!node(0, 4, 3).pops_before(&node(1, 5, 3)));
    assert!(!node(0, 4, 3).pops_before(&node(1, 4, 3)));
}

#[test]
fn position_set_holds_what_was_inserted() {
    let mut set = PosSet::new();
    assert_eq!(set.len(), 0);
    assert!(!set.contains((0, 0)));
    set.insert((1, 2));
    set.insert((2, 1));
    set.insert((1, 2));
    assert_eq!(set.len(), 2);
    assert!(set.contains((1, 2)));
    assert!(set.contains((2, 1)));
    assert!(!set.contains((1, 1)));
    set.insert((usize::MAX, 0));
    set.insert((0, usize::MAX));
    assert!(set.contains((usize::MAX, 0)));
    assert!(set.contains((0, usize::MAX)));
    assert!(!set.contains((usize::MAX, usize::MAX)));
    assert_eq!(set.len(), 4);
}

#[test]
fn position_map_keeps_the_last_value() {
    let mut map: PosMap<NodeState> = PosMap::new();
    assert_eq!(map.get((3, 4)), None);
    assert!(!map.contains_key((3, 4)));
    map.insert((3, 4), NodeState::InQueue);
    map.insert((4, 3), NodeState::Visited);
    assert_eq!(map.get((3, 4)), Some(NodeState::InQueue));
    map.insert((3, 4), NodeState::Path);
    assert_eq!(map.get((3, 4)), Some(NodeState::Path));
    assert_eq!(map.get((4, 3)), Some(NodeState::Visited));
    assert!(map.contains_key((4, 3)));
    assert!(!map.contains_key((0, 0)));
}
