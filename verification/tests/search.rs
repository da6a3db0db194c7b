use std::collections::HashMap;
use wikilinker::linker::{Direction, SearchStep, WikiLinker};
use wikilinker::redirects::BacklinkResolver;
use wikilinker::render::{absorb_titles, meeting_page_ids, title_batches, TitlePage};
use wikilinker::query::titles_uri;

struct Graph {
    titles: Vec<(u32, &'static str)>,
    links: Vec<(u32, u32)>,
    redirects: Vec<(u32, u32)>,
}

#[derive(Debug, PartialEq)]
enum Outcome {
    Found(Vec<String>),
    DeadEnd(Direction),
}

impl Graph {
    fn id_of(&self, title: &str) -> u32 {
        self.titles.iter().find(|(_, t)| *t == title).map(|(id, _)| *id).unwrap()
    }

    fn outgoing(&self, node: u32) -> Option<Vec<u32>> {
        let found: Vec<u32> = self.links.iter().filter(|(from, _)| *from == node).map(|(_, to)| *to).collect();
        if found.is_empty() { None } else { Some(found) }
    }

    fn incoming(&self, node: u32) -> Option<Vec<u32>> {
        let found: Vec<u32> = self.links.iter().filter(|(_, to)| *to == node).map(|(from, _)| *from).collect();
        if found.is_empty() { None } else { Some(found) }
    }

    fn redirects_of(&self, node: u32) -> Option<Vec<u32>> {
        Some(self.redirects.iter().filter(|(_, to)| *to == node).map(|(alias, _)| *alias).collect())
    }

    fn backlinks(&self, node: u32) -> Option<Vec<u32>> {
        let mut resolver = BacklinkResolver::start(node);
        let mut current = Some(node);
        while let Some(at) = current {
            current = resolver.absorb(self.incoming(at), self.redirects_of(at));
        }
        resolver.finish()
    }

    fn mapping(&self, ids: &Vec<u32>) -> HashMap<u32, String> {
        let mut mapping = HashMap::new();
        for batch in title_batches(ids) {
            assert!(titles_uri("test", &batch).is_ok());
            let pages: Vec<TitlePage> = batch
                .iter()
                .map(|id| TitlePage {
                    pageid: *id as u64,
                    title: self.titles.iter().find(|(i, _)| i == id).unwrap().1.to_string(),
                })
                .collect();
            absorb_titles(&mut mapping, &pages);
        }
        mapping
    }

    fn search(&self, start: &str, end: &str) -> (Outcome, Vec<Direction>) {
        let mut linker = WikiLinker::new();
        linker.seed(self.id_of(start), self.id_of(end));
        let mut passes = vec![];
        loop {
            assert!(passes.len() < 100, "the search does not end");
            match linker.next_step() {
                SearchStep::Found(pairs) => {
                    let ids = meeting_page_ids(linker.links(), linker.backlinks(), &pairs);
                    let mut lines = linker.report(&pairs, &self.mapping(&ids)).unwrap();
                    lines.pop();
                    return (Outcome::Found(lines), passes);
                }
                SearchStep::DeadEnd(side) => return (Outcome::DeadEnd(side), passes),
                SearchStep::Expand(Direction::Backward) => {
                    passes.push(Direction::Backward);
                    let reports = linker.backlinks().iter().map(|n| self.backlinks(n.current_link())).collect();
                    linker.do_backward_link_pass(&reports);
                }
                SearchStep::Expand(Direction::Forward) => {
                    passes.push(Direction::Forward);
                    let reports = linker.links().iter().map(|n| self.outgoing(n.current_link())).collect();
                    linker.do_forward_link_pass(&reports);
                }
            }
        }
    }
}

#[test]
fn new_search_has_the_default_site_and_filter() {
    let linker = WikiLinker::new();
    assert_eq!(linker.domain(), "en.wikipedia.org/w");
    assert_eq!(linker.namespaces(), "0|14|100");
    assert!(linker.links().is_empty());
    assert!(linker.backlinks().is_empty());
}

#[test]
fn site_and_filter_can_be_set() {
    let mut linker = WikiLinker::new();
    linker.set_domain("de.wikipedia.org/w");
    linker.set_namespaces("0");
    assert_eq!(linker.domain(), "de.wikipedia.org/w");
    assert_eq!(linker.namespaces(), "0");
}

#[test]
fn start_equal_to_end_meets_at_once() {
    let graph = Graph { titles: vec![(1, "A")], links: vec![], redirects: vec![] };
    let (outcome, passes) = graph.search("A", "A");
    assert_eq!(outcome, Outcome::Found(vec!["A at depth 0".to_string()]));
    assert!(passes.is_empty());
}

#[test]
fn direct_link_is_found_at_depth_one() {
    let graph = Graph { titles: vec![(1, "A"), (2, "B")], links: vec![(1, 2)], redirects: vec![] };
    let (outcome, passes) = graph.search("A", "B");
    assert_eq!(outcome, Outcome::Found(vec!["A -> B at depth 1".to_string()]));
    assert_eq!(passes.len(), 1);
}

#[test]
fn forward_pass_that_discovers_the_end_meets_it() {
    let mut linker = WikiLinker::new();
    linker.seed(1, 2);
    assert!(linker.check_end().is_empty());
    linker.do_forward_link_pass(&vec![Some(vec![2])]);
    let pairs = linker.check_end();
    assert_eq!(pairs, vec![(0, 0)]);
    let mut mapping = HashMap::new();
    mapping.insert(1, "A".to_string());
    mapping.insert(2, "B".to_string());
    let lines = linker.report(&pairs, &mapping).unwrap();
    assert_eq!(lines[0], "A -> B at depth 1");
    assert_eq!(lines.len(), 2);
    assert_eq!(
        lines[1],
        "In the end, there were 1 links going forward and 1 links going backwards that were added to the graph."
    );
}

#[test]
fn start_without_links_is_a_dead_end() {
    let graph = Graph {
        titles: vec![(1, "A"), (2, "B"), (3, "C"), (4, "D")],
        links: vec![(3, 2), (4, 2)],
        redirects: vec![],
    };
    let (outcome, passes) = graph.search("A", "B");
    assert_eq!(outcome, Outcome::DeadEnd(Direction::Forward));
    assert_eq!(passes, vec![Direction::Backward, Direction::Forward]);
}

#[test]
fn end_without_backlinks_is_a_dead_end() {
    let graph = Graph { titles: vec![(1, "A"), (2, "B"), (3, "C")], links: vec![(1, 3)], redirects: vec![] };
    let (outcome, passes) = graph.search("A", "B");
    assert_eq!(outcome, Outcome::DeadEnd(Direction::Backward));
    assert_eq!(passes, vec![Direction::Backward]);
}

#[test]
fn backward_side_is_expanded_while_it_is_no_larger() {
    let graph = Graph {
        titles: vec![(1, "A"), (2, "B"), (3, "C"), (4, "D"), (5, "E"), (6, "F")],
        links: vec![(1, 2), (2, 3), (3, 4), (4, 5), (5, 6)],
        redirects: vec![],
    };
    let (outcome, passes) = graph.search("A", "F");
    assert_eq!(outcome, Outcome::Found(vec!["A -> B -> C -> D -> E -> F at depth 5".to_string()]));
    assert_eq!(passes, vec![Direction::Backward; 5]);
}

#[test]
fn sides_alternate_when_the_backward_side_grows_larger() {
    let graph = Graph {
        titles: vec![(1, "A"), (2, "B"), (3, "C"), (4, "D"), (5, "E"), (6, "F"), (7, "G")],
        links: vec![(1, 2), (2, 3), (3, 4), (4, 7), (5, 7), (6, 5)],
        redirects: vec![],
    };
    let (outcome, passes) = graph.search("A", "G");
    assert_eq!(outcome, Outcome::Found(vec!["A -> B -> C -> D -> G at depth 4".to_string()]));
    assert_eq!(
        passes,
        vec![Direction::Backward, Direction::Forward, Direction::Forward, Direction::Forward]
    );
}

#[test]
fn link_to_a_redirect_counts_as_link_to_the_page() {
    let graph = Graph {
        titles: vec![(1, "A"), (2, "B"), (3, "B alias")],
        links: vec![(1, 3)],
        redirects: vec![(3, 2)],
    };
    let (outcome, _) = graph.search("A", "B");
    assert_eq!(outcome, Outcome::Found(vec!["A -> B at depth 1".to_string()]));
}

#[test]
fn every_meeting_is_reported() {
    let graph = Graph {
        titles: vec![(1, "A"), (2, "B"), (3, "C"), (4, "D")],
        links: vec![(1, 2), (1, 3), (2, 4), (3, 4)],
        redirects: vec![],
    };
    let (outcome, passes) = graph.search("A", "D");
    assert_eq!(
        outcome,
        Outcome::Found(vec!["A -> B -> D at depth 2".to_string(), "A -> C -> D at depth 2".to_string()])
    );
    assert_eq!(passes, vec![Direction::Backward, Direction::Forward]);
}

#[test]
fn report_needs_every_title_and_position() {
    let mut linker = WikiLinker::new();
    linker.seed(1, 1);
    let mut mapping = HashMap::new();
    assert_eq!(linker.report(&vec![(0, 0)], &mapping), None);
    mapping.insert(1, "A".to_string());
    assert_eq!(linker.report(&vec![(0, 1)], &mapping), None);
    assert_eq!(linker.report(&vec![(1, 0)], &mapping), None);
    assert_eq!(linker.report(&vec![(0, 0)], &mapping).unwrap()[0], "A at depth 0");
}

#[test]
fn unseeded_search_runs_dry_backward() {
    let mut linker = WikiLinker::new();
    assert!(matches!(linker.next_step(), SearchStep::Expand(Direction::Backward)));
    linker.do_backward_link_pass(&vec![]);
    assert!(matches!(linker.next_step(), SearchStep::DeadEnd(Direction::Backward)));
}
