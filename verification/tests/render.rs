use std::collections::HashMap;
use std::sync::Arc;
use wikilinker::node::LinkFollower;
use wikilinker::render::{
    absorb_titles, combine_with_mapping, meeting_page_ids, path_ids, result_file_name,
    summary_line, title_batches, TitlePage,
};

fn chain(ids: &[u32]) -> Arc<LinkFollower> {
    let mut node = Arc::new(LinkFollower::new(ids[0], None));
    for id in &ids[1..] {
        node = Arc::new(LinkFollower::new(*id, Some(node)));
    }
    node
}

fn titles(pairs: &[(u32, &str)]) -> HashMap<u32, String> {
    pairs.iter().map(|(id, title)| (*id, title.to_string())).collect()
}

#[test]
fn path_runs_from_start_through_meeting_to_end() {
    let forward = chain(&[1, 2, 3]);
    let backward = chain(&[9, 8, 3]);
    assert_eq!(path_ids(&forward, &backward), vec![1, 2, 3, 8, 9]);
}

#[test]
fn path_of_two_roots_is_the_place_itself() {
    assert_eq!(path_ids(&chain(&[4]), &chain(&[4])), vec![4]);
}

#[test]
fn rendered_line_names_titles_and_depth() {
    let forward = chain(&[1, 2, 3]);
    let backward = chain(&[9, 8, 3]);
    let mapping = titles(&[(1, "Start"), (2, "Second"), (3, "Middle"), (8, "Fourth"), (9, "End")]);
    assert_eq!(
        combine_with_mapping(&forward, &backward, &mapping),
        Some("Start -> Second -> Middle -> Fourth -> End at depth 4".to_string())
    );
}

#[test]
fn stated_depth_is_sum_of_depths_and_number_of_arrows() {
    let forward = chain(&[1, 2, 3, 4]);
    let backward = chain(&[7, 6, 5, 4]);
    let mapping = titles(&[(1, "a"), (2, "b"), (3, "c"), (4, "d"), (5, "e"), (6, "f"), (7, "g")]);
    let line = combine_with_mapping(&forward, &backward, &mapping).unwrap();
    let depth = forward.get_depth() + backward.get_depth();
    assert_eq!(depth, 6);
    assert!(line.ends_with(&format!(" at depth {}", depth)));
    assert_eq!(line.matches(" -> ").count(), depth);
}

#[test]
fn depth_with_several_digits_is_written_in_full() {
    let ids: Vec<u32> = (0..=120).collect();
    let forward = chain(&ids);
    let backward = chain(&[120]);
    let mapping: HashMap<u32, String> = ids.iter().map(|id| (*id, format!("n{}", id))).collect();
    let line = combine_with_mapping(&forward, &backward, &mapping).unwrap();
    assert!(line.starts_with("n0 -> n1 -> n2"));
    assert!(line.ends_with("n119 -> n120 at depth 120"));
}

#[test]
fn missing_title_gives_no_line() {
    let forward = chain(&[1, 2]);
    let backward = chain(&[3, 2]);
    let mapping = titles(&[(1, "a"), (2, "b")]);
    assert_eq!(combine_with_mapping(&forward, &backward, &mapping), None);
}

#[test]
fn page_ids_are_listed_once_in_order_of_use() {
    let forward = vec![chain(&[1, 2, 3]), chain(&[1, 4, 5])];
    let backward = vec![chain(&[9, 5]), chain(&[9, 8, 3])];
    let pairs = vec![(0, 1), (1, 0)];
    assert_eq!(meeting_page_ids(&forward, &backward, &pairs), vec![1, 2, 3, 8, 9, 4, 5]);
}

#[test]
fn pairs_outside_the_frontiers_need_no_titles() {
    let forward = vec![chain(&[1])];
    let backward = vec![chain(&[1])];
    assert_eq!(meeting_page_ids(&forward, &backward, &vec![(0, 3), (2, 0), (0, 0)]), vec![1]);
}

#[test]
fn batches_hold_at_most_fifty_ids() {
    let ids: Vec<u32> = (1..=120).collect();
    let batches = title_batches(&ids);
    assert_eq!(batches.len(), 3);
    assert_eq!(batches[0], (1..=50).collect::<Vec<u32>>());
    assert_eq!(batches[1], (51..=100).collect::<Vec<u32>>());
    assert_eq!(batches[2], (101..=120).collect::<Vec<u32>>());
}

#[test]
fn batches_at_the_limit() {
    assert!(title_batches(&vec![]).is_empty());
    assert_eq!(title_batches(&(1..=50).collect()).len(), 1);
    let batches = title_batches(&(1..=51).collect());
    assert_eq!(batches.len(), 2);
    assert_eq!(batches[1], vec![51]);
    assert_eq!(title_batches(&(1..=100).collect()).len(), 2);
}

#[test]
fn titles_are_entered_under_their_ids() {
    let mut mapping = HashMap::new();
    mapping.insert(1, "old".to_string());
    let pages = vec![
        TitlePage { pageid: 1, title: "One".to_string() },
        TitlePage { pageid: 2, title: "Two".to_string() },
        TitlePage { pageid: 2, title: "Deux".to_string() },
    ];
    absorb_titles(&mut mapping, &pages);
    assert_eq!(mapping, titles(&[(1, "One"), (2, "Deux")]));
}

#[test]
fn title_ids_keep_their_low_32_bits() {
    let mut mapping = HashMap::new();
    absorb_titles(&mut mapping, &vec![TitlePage { pageid: (1u64 << 32) + 7, title: "Seven".to_string() }]);
    assert_eq!(mapping, titles(&[(7, "Seven")]));
}

#[test]
fn summary_line_counts_both_frontiers() {
    assert_eq!(
        summary_line(12, 3456),
        "In the end, there were 12 links going forward and 3456 links going backwards that were added to the graph."
    );
    assert_eq!(
        summary_line(0, 0),
        "In the end, there were 0 links going forward and 0 links going backwards that were added to the graph."
    );
}

#[test]
fn file_name_encodes_the_moment() {
    assert_eq!(result_file_name(2019, 3, 7, 0, 5, 59), "link_dated_2019-3-7_0-5-59.txt");
    assert_eq!(result_file_name(-44, 12, 31, 23, 10, 0), "link_dated_-44-12-31_23-10-0.txt");
}
