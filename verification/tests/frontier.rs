use std::collections::HashSet;
use std::sync::Arc;
use wikilinker::frontier::expand_frontier;
use wikilinker::node::LinkFollower;

fn root(id: u32) -> Arc<LinkFollower> {
    Arc::new(LinkFollower::new(id, None))
}

fn ids(frontier: &[Arc<LinkFollower>]) -> Vec<u32> {
    frontier.iter().map(|node| node.current_link()).collect()
}

#[test]
fn children_keep_their_parent_as_predecessor() {
    let frontier = vec![root(1), root(2)];
    let mut visited = HashSet::new();
    let next = expand_frontier(&frontier, &mut visited, &vec![Some(vec![10, 11]), Some(vec![20])]);
    assert_eq!(ids(&next), vec![10, 11, 20]);
    assert_eq!(next[0].get_links(), vec![1]);
    assert_eq!(next[1].get_links(), vec![1]);
    assert_eq!(next[2].get_links(), vec![2]);
    assert_eq!(next[2].get_depth(), 1);
}

#[test]
fn expanded_places_become_visited() {
    let frontier = vec![root(1), root(2)];
    let mut visited = HashSet::new();
    visited.insert(99);
    expand_frontier(&frontier, &mut visited, &vec![Some(vec![3]), None]);
    let expected: HashSet<u32> = [1, 2, 99].into_iter().collect();
    assert_eq!(visited, expected);
}

#[test]
fn visited_places_are_not_discovered_again() {
    let frontier = vec![root(5)];
    let mut visited: HashSet<u32> = [1, 2].into_iter().collect();
    let next = expand_frontier(&frontier, &mut visited, &vec![Some(vec![1, 6, 2, 7])]);
    assert_eq!(ids(&next), vec![6, 7]);
}

#[test]
fn a_place_discovered_twice_joins_the_frontier_once() {
    let frontier = vec![root(1), root(2)];
    let mut visited = HashSet::new();
    let next = expand_frontier(&frontier, &mut visited, &vec![Some(vec![7, 8, 7]), Some(vec![8, 9])]);
    assert_eq!(ids(&next), vec![7, 8, 9]);
    assert_eq!(next[1].get_links(), vec![1]);
    assert_eq!(next[2].get_links(), vec![2]);
}

#[test]
fn a_failed_node_discovers_nothing_and_stops_nothing() {
    let frontier = vec![root(1), root(2), root(3)];
    let mut visited = HashSet::new();
    let next = expand_frontier(&frontier, &mut visited, &vec![Some(vec![4]), None, Some(vec![5])]);
    assert_eq!(ids(&next), vec![4, 5]);
    assert_eq!(next[1].get_links(), vec![3]);
}

#[test]
fn a_node_without_report_discovers_nothing() {
    let frontier = vec![root(1), root(2)];
    let mut visited = HashSet::new();
    let next = expand_frontier(&frontier, &mut visited, &vec![Some(vec![4])]);
    assert_eq!(ids(&next), vec![4]);
    assert!(visited.contains(&2));
}

#[test]
fn nothing_discovered_gives_an_empty_frontier() {
    let frontier = vec![root(1)];
    let mut visited = HashSet::new();
    assert!(expand_frontier(&frontier, &mut visited, &vec![Some(vec![])]).is_empty());
    assert!(expand_frontier(&frontier, &mut visited, &vec![None]).is_empty());
}

#[test]
fn filtering_again_with_nothing_new_leaves_nothing() {
    let frontier = vec![root(1)];
    let reports = vec![Some(vec![2, 3, 2])];
    let mut visited = HashSet::new();
    let first = expand_frontier(&frontier, &mut visited, &reports);
    assert_eq!(ids(&first), vec![2, 3]);
    for node in &first {
        visited.insert(node.current_link());
    }
    let second = expand_frontier(&frontier, &mut visited, &reports);
    assert!(second.is_empty());
    let third = expand_frontier(&frontier, &mut visited, &reports);
    assert!(third.is_empty());
}

#[test]
fn depth_grows_by_one_with_each_pass() {
    let mut frontier = vec![root(0)];
    let mut visited = HashSet::new();
    for pass in 1..=4u32 {
        let reports: Vec<Option<Vec<u32>>> =
            frontier.iter().map(|node| Some(vec![node.current_link() * 2 + 1, node.current_link() * 2 + 2])).collect();
        frontier = expand_frontier(&frontier, &mut visited, &reports);
        assert_eq!(frontier.len(), 1 << pass);
        for node in &frontier {
            assert_eq!(node.get_depth(), pass as usize);
        }
    }
}
