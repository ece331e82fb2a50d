use wikipath::WikiUrl;
use wikipath::cache::{DbCache, insert_into_cache};
use wikipath::query::{
    QueueRequest, Search, SearchError, SearchStep, extract_links, make_link_set, query,
};

fn u(s: &str) -> WikiUrl {
    WikiUrl(String::from(s))
}

#[test]
fn scenario_direct_link_found_at_depth_one() {
    let mut cache = DbCache::create();
    insert_into_cache(&mut cache, &u("A"), &vec![u("B"), u("C")]);
    let (pages_checked, path) = query(&cache, u("A"), u("B"), 1).unwrap();
    assert_eq!(pages_checked, 1);
    assert_eq!(path, vec![u("A"), u("B")]);
}

#[test]
fn depth_zero_finds_direct_member() {
    let mut cache = DbCache::create();
    insert_into_cache(&mut cache, &u("A"), &vec![u("B"), u("C")]);
    let (pages_checked, path) = query(&cache, u("A"), u("C"), 0).unwrap();
    assert_eq!(pages_checked, 1);
    assert_eq!(path, vec![u("A"), u("C")]);
}

#[test]
fn depth_zero_misses_indirect_target() {
    let mut cache = DbCache::create();
    insert_into_cache(&mut cache, &u("A"), &vec![u("B")]);
    insert_into_cache(&mut cache, &u("B"), &vec![u("Z")]);
    assert_eq!(
        query(&cache, u("A"), u("Z"), 0),
        Err(SearchError::NotFound(1))
    );
}

#[test]
fn scenario_self_loop_graph_exhausts_after_one_page() {
    // every page links only to itself, so each fetched link set is empty
    // once self-references are excluded
    let mut cache = DbCache::create();
    let raw = vec![String::from("A")];
    let links = make_link_set(&u("A"), &raw);
    assert_eq!(links, Vec::<WikiUrl>::new());
    insert_into_cache(&mut cache, &u("A"), &links);
    assert_eq!(
        query(&cache, u("A"), u("Z"), 2),
        Err(SearchError::NotFound(1))
    );
}

#[test]
fn two_hop_path_is_found_in_depth_order() {
    let mut cache = DbCache::create();
    insert_into_cache(&mut cache, &u("A"), &vec![u("B")]);
    insert_into_cache(&mut cache, &u("B"), &vec![u("C")]);
    let (pages_checked, path) = query(&cache, u("A"), u("C"), 5).unwrap();
    assert_eq!(pages_checked, 2);
    assert_eq!(path, vec![u("A"), u("B"), u("C")]);
}

#[test]
fn first_match_wins_over_later_links() {
    let mut cache = DbCache::create();
    insert_into_cache(&mut cache, &u("A"), &vec![u("B"), u("Z")]);
    insert_into_cache(&mut cache, &u("B"), &vec![u("Z")]);
    let (pages_checked, path) = query(&cache, u("A"), u("Z"), 3).unwrap();
    assert_eq!(pages_checked, 1);
    assert_eq!(path, vec![u("A"), u("Z")]);
}

#[test]
fn unresolvable_page_fails_the_run() {
    let cache = DbCache::create();
    assert_eq!(
        query(&cache, u("A"), u("B"), 2),
        Err(SearchError::FetchFailed)
    );
}

#[test]
fn deeper_pages_stay_unexpanded_within_bound() {
    let mut cache = DbCache::create();
    insert_into_cache(&mut cache, &u("A"), &vec![u("B")]);
    insert_into_cache(&mut cache, &u("B"), &vec![u("C")]);
    insert_into_cache(&mut cache, &u("C"), &vec![u("Z")]);
    // bound 1: A and B expand, C's links are never resolved
    assert_eq!(
        query(&cache, u("A"), u("Z"), 1),
        Err(SearchError::NotFound(2))
    );
}

#[test]
fn cancellation_wins_over_adjacent_target() {
    // the target sits right next to the page about to be expanded, yet a
    // stop request observed at that expansion yields cancelled, not found
    let mut search = Search::new(u("A"), u("B"), 2);
    match search.next_step(true) {
        SearchStep::Cancelled(pages_checked) => assert_eq!(pages_checked, 0),
        _ => panic!("a stop request must cancel the next expansion"),
    }
}

#[test]
fn stepwise_drive_finds_target_on_second_level() {
    let mut search = Search::new(u("A"), u("Z"), 1);
    match search.next_step(false) {
        SearchStep::Expand(page) => assert_eq!(page, u("A")),
        _ => panic!("the origin must be expanded first"),
    }
    assert!(search.offer_links(&vec![u("B")]).is_none());
    match search.next_step(false) {
        SearchStep::Expand(page) => assert_eq!(page, u("B")),
        _ => panic!("the next shallowest path must be expanded"),
    }
    let path = search.offer_links(&vec![u("Z")]).unwrap();
    assert_eq!(path, vec![u("A"), u("B"), u("Z")]);
    assert_eq!(search.pages_checked(), 2);
}

#[test]
fn exhausted_reports_pages_checked() {
    let mut search = Search::new(u("A"), u("Z"), 1);
    match search.next_step(false) {
        SearchStep::Expand(_) => {},
        _ => panic!("the origin must be expanded first"),
    }
    assert!(search.offer_links(&Vec::new()).is_none());
    match search.next_step(false) {
        SearchStep::Exhausted(pages_checked) => assert_eq!(pages_checked, 1),
        _ => panic!("an empty frontier must exhaust the run"),
    }
}

#[test]
fn queue_request_depth_is_edges_travelled() {
    assert_eq!(QueueRequest(vec![u("A")]).depth(), 0);
    assert_eq!(QueueRequest(vec![u("A"), u("B"), u("C")]).depth(), 2);
}

#[test]
fn extract_links_scrapes_dedups_and_drops_self() {
    let html = "<p><a href=\"/wiki/B\">b</a> text <a href=\"/wiki/C\">c</a> \
                <a href=\"/wiki/B\">again</a> <a href=\"/wiki/A\">self</a> \
                <a href=\"http://elsewhere\">out</a></p>";
    let links = extract_links(&u("A"), html);
    assert_eq!(links, vec![u("B"), u("C")]);
}

#[test]
fn make_link_set_keeps_first_occurrence_order() {
    let raw = vec![
        String::from("C"),
        String::from("B"),
        String::from("C"),
        String::from("P"),
        String::from("B"),
    ];
    let links = make_link_set(&u("P"), &raw);
    assert_eq!(links, vec![u("C"), u("B")]);
}

#[test]
fn query_options_carry_the_request() {
    let opts = wikipath::QueryOptions {
        from: String::from("A"),
        to: String::from("B"),
        depth: Some(3),
    };
    assert_eq!(opts.from, "A");
    assert_eq!(opts.to, "B");
    assert_eq!(opts.depth, Some(3));
}

#[test]
fn wiki_url_equality_is_by_text() {
    assert_eq!(u("Same"), u("Same"));
    assert_ne!(u("One"), u("Two"));
    let copy = u("Page").clone();
    assert_eq!(copy, u("Page"));
}

#[test]
fn mid_run_fetch_failure_aborts_the_run() {
    // the second expansion cannot be resolved: the run fails at once
    // instead of reporting not found
    let mut cache = DbCache::create();
    insert_into_cache(&mut cache, &u("A"), &vec![u("B")]);
    assert_eq!(
        query(&cache, u("A"), u("Z"), 2),
        Err(SearchError::FetchFailed)
    );
}
