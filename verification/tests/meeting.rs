use std::sync::Arc;
use wikilinker::meeting::find_meetings;
use wikilinker::node::LinkFollower;

fn roots(ids: &[u32]) -> Vec<Arc<LinkFollower>> {
    ids.iter().map(|id| Arc::new(LinkFollower::new(*id, None))).collect()
}

#[test]
fn no_common_place_no_meeting() {
    let forward = roots(&[1, 2, 3]);
    let backward = roots(&[4, 5]);
    assert!(find_meetings(&forward, &backward).is_empty());
}

#[test]
fn empty_frontiers_do_not_meet() {
    assert!(find_meetings(&roots(&[]), &roots(&[1])).is_empty());
    assert!(find_meetings(&roots(&[1]), &roots(&[])).is_empty());
    assert!(find_meetings(&roots(&[]), &roots(&[])).is_empty());
}

#[test]
fn meetings_give_positions_in_both_frontiers() {
    let forward = roots(&[10, 20, 30, 40]);
    let backward = roots(&[40, 5, 20]);
    assert_eq!(find_meetings(&forward, &backward), vec![(1, 2), (3, 0)]);
}

#[test]
fn every_meeting_pair_has_one_id() {
    let forward = roots(&[7, 8, 9, 8, 1]);
    let backward = roots(&[8, 2, 7, 9, 9]);
    for (i, j) in find_meetings(&forward, &backward) {
        assert_eq!(forward[i].current_link(), backward[j].current_link());
    }
}

#[test]
fn shared_ids_give_each_combination_once() {
    let forward = roots(&[5, 6, 5]);
    let backward = roots(&[5, 5, 7]);
    let pairs = find_meetings(&forward, &backward);
    assert_eq!(pairs, vec![(0, 0), (0, 1), (2, 0), (2, 1)]);
    let mut unique = pairs.clone();
    unique.sort();
    unique.dedup();
    assert_eq!(unique.len(), pairs.len());
}

#[test]
fn meeting_ignores_how_a_place_was_reached() {
    let a = Arc::new(LinkFollower::new(1, None));
    let b = Arc::new(LinkFollower::new(2, None));
    let forward = vec![Arc::new(LinkFollower::new(9, Some(a)))];
    let backward = vec![Arc::new(LinkFollower::new(9, Some(b)))];
    assert_eq!(find_meetings(&forward, &backward), vec![(0, 0)]);
}
