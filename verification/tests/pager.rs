use wikilinker::pager::{absorb_page, PageReply, Paging, QueryKind};
use wikilinker::query::Continuation;

fn more(token: &str, cursor: &str) -> Option<Continuation> {
    Some(Continuation { token: token.to_string(), cursor: cursor.to_string() })
}

fn collected_of(paging: Paging) -> Option<Vec<u32>> {
    match paging {
        Paging::Finished(result) => result,
        Paging::More { .. } => panic!("another page is due"),
    }
}

#[test]
fn single_page_completes_the_list() {
    let reply = PageReply { ids: Some(vec![3, 1, 2]), continuation: None };
    assert_eq!(collected_of(absorb_page(QueryKind::Links, vec![], reply)), Some(vec![3, 1, 2]));
}

#[test]
fn ids_not_above_zero_are_dropped() {
    let reply = PageReply { ids: Some(vec![5, 0, -1, 6, -200]), continuation: None };
    assert_eq!(collected_of(absorb_page(QueryKind::Backlinks, vec![], reply)), Some(vec![5, 6]));
}

#[test]
fn ids_keep_their_low_32_bits() {
    let reply = PageReply { ids: Some(vec![(1i64 << 32) + 9, 4294967295]), continuation: None };
    assert_eq!(collected_of(absorb_page(QueryKind::Links, vec![], reply)), Some(vec![9, 4294967295]));
}

#[test]
fn continuation_asks_for_another_page() {
    let reply = PageReply { ids: Some(vec![7]), continuation: more("||", "next") };
    match absorb_page(QueryKind::Links, vec![1], reply) {
        Paging::More { collected, continuation } => {
            assert_eq!(collected, vec![1, 7]);
            assert_eq!(continuation.token, "||");
            assert_eq!(continuation.cursor, "next");
        }
        Paging::Finished(_) => panic!("the list is not complete"),
    }
}

#[test]
fn pages_accumulate_until_no_continuation_comes() {
    let replies = vec![
        PageReply { ids: Some(vec![1, 2]), continuation: more("a", "b") },
        PageReply { ids: Some(vec![]), continuation: more("c", "d") },
        PageReply { ids: Some(vec![3]), continuation: None },
    ];
    let mut collected = vec![];
    let mut asked = 0;
    let mut result = None;
    for reply in replies {
        asked += 1;
        match absorb_page(QueryKind::Redirects, collected, reply) {
            Paging::More { collected: all, .. } => collected = all,
            Paging::Finished(all) => {
                result = all;
                collected = vec![];
                break;
            }
        }
    }
    assert_eq!(asked, 3);
    assert_eq!(result, Some(vec![1, 2, 3]));
    assert!(collected.is_empty());
}

#[test]
fn links_without_a_list_give_no_result() {
    let reply = PageReply { ids: None, continuation: None };
    assert_eq!(collected_of(absorb_page(QueryKind::Links, vec![4], reply)), None);
    let reply = PageReply { ids: None, continuation: more("a", "b") };
    assert_eq!(collected_of(absorb_page(QueryKind::Backlinks, vec![4], reply)), None);
}

#[test]
fn redirects_without_a_list_are_passed_over() {
    let reply = PageReply { ids: None, continuation: None };
    assert_eq!(collected_of(absorb_page(QueryKind::Redirects, vec![4], reply)), Some(vec![4]));
    let reply = PageReply { ids: None, continuation: more("a", "b") };
    match absorb_page(QueryKind::Redirects, vec![4], reply) {
        Paging::More { collected, continuation } => {
            assert_eq!(collected, vec![4]);
            assert_eq!(continuation.cursor, "b");
        }
        Paging::Finished(_) => panic!("another page is due"),
    }
}
