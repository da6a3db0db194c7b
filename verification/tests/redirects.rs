use std::collections::HashMap;
use wikilinker::redirects::BacklinkResolver;

struct Source {
    backlinks: HashMap<u32, Vec<u32>>,
    redirects: HashMap<u32, Vec<u32>>,
}

fn source(backlinks: &[(u32, &[u32])], redirects: &[(u32, &[u32])]) -> Source {
    Source {
        backlinks: backlinks.iter().map(|(node, ids)| (*node, ids.to_vec())).collect(),
        redirects: redirects.iter().map(|(node, ids)| (*node, ids.to_vec())).collect(),
    }
}

fn resolve(source: &Source, node: u32) -> (Option<Vec<u32>>, Vec<u32>) {
    let mut resolver = BacklinkResolver::start(node);
    let mut asked = vec![];
    let mut current = Some(resolver.current());
    while let Some(at) = current {
        assert!(asked.len() < 1000, "the resolution does not end");
        asked.push(at);
        let backlinks = source.backlinks.get(&at).cloned();
        let redirects = Some(source.redirects.get(&at).cloned().unwrap_or_default());
        current = resolver.absorb(backlinks, redirects);
    }
    assert!(resolver.is_done());
    (resolver.finish(), asked)
}

#[test]
fn node_without_aliases_gives_its_own_backlinks() {
    let source = source(&[(1, &[10, 11])], &[]);
    assert_eq!(resolve(&source, 1), (Some(vec![10, 11]), vec![1]));
}

#[test]
fn backlinks_of_aliases_are_folded_in() {
    let source = source(&[(1, &[10]), (2, &[20, 21]), (3, &[30])], &[(1, &[2, 3])]);
    assert_eq!(resolve(&source, 1), (Some(vec![10, 20, 21, 30]), vec![1, 2, 3]));
}

#[test]
fn aliases_of_aliases_come_before_later_aliases() {
    let source = source(
        &[(1, &[10]), (2, &[20]), (3, &[30]), (4, &[40])],
        &[(1, &[2, 3]), (2, &[4])],
    );
    assert_eq!(resolve(&source, 1), (Some(vec![10, 20, 40, 30]), vec![1, 2, 4, 3]));
}

#[test]
fn redirect_cycle_terminates_with_backlinks_of_both() {
    let source = source(&[(1, &[10, 11]), (2, &[20])], &[(1, &[2]), (2, &[1])]);
    assert_eq!(resolve(&source, 1), (Some(vec![10, 11, 20]), vec![1, 2]));
}

#[test]
fn node_that_redirects_to_itself_is_asked_once() {
    let source = source(&[(1, &[10])], &[(1, &[1, 1])]);
    assert_eq!(resolve(&source, 1), (Some(vec![10]), vec![1]));
}

#[test]
fn alias_named_twice_is_asked_once() {
    let source = source(
        &[(1, &[10]), (2, &[20]), (3, &[30])],
        &[(1, &[2, 3, 2]), (3, &[2]), (2, &[3])],
    );
    assert_eq!(resolve(&source, 1), (Some(vec![10, 20, 30]), vec![1, 2, 3]));
}

#[test]
fn alias_without_backlinks_adds_nothing() {
    let source = source(&[(1, &[10])], &[(1, &[2])]);
    assert_eq!(resolve(&source, 1), (Some(vec![10]), vec![1, 2]));
}

#[test]
fn node_without_any_list_has_no_backlinks() {
    let mut resolver = BacklinkResolver::start(5);
    assert_eq!(resolver.current(), 5);
    assert!(!resolver.is_done());
    assert_eq!(resolver.absorb(None, None), None);
    assert!(resolver.is_done());
    assert_eq!(resolver.finish(), None);
}

#[test]
fn node_with_backlinks_but_no_redirect_list() {
    let mut resolver = BacklinkResolver::start(5);
    assert_eq!(resolver.absorb(Some(vec![1, 2]), None), None);
    assert_eq!(resolver.finish(), Some(vec![1, 2]));
}

#[test]
fn node_without_backlink_list_but_with_aliases() {
    let mut resolver = BacklinkResolver::start(5);
    assert_eq!(resolver.absorb(None, Some(vec![6])), Some(6));
    assert_eq!(resolver.current(), 6);
    assert_eq!(resolver.absorb(Some(vec![60]), Some(vec![])), None);
    assert_eq!(resolver.finish(), Some(vec![60]));
}

#[test]
fn reading_off_before_any_report_gives_nothing() {
    assert_eq!(BacklinkResolver::start(1).finish(), None);
}
