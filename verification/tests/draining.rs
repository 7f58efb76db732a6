use crawler::drain::drain;
use crawler::state::CrawlState;

fn url(x: &str) -> String {
    x.to_string()
}

#[test]
fn drain_empties_a_finite_graph_and_visits_each_page_once() {
    let mut st = CrawlState::empty();
    st.enqueue_if_new(url("http://a.com/p"));
    let pages = vec![
        (
            url("http://a.com/p"),
            vec![url("/q"), url("//b.com/r"), url("mailto:x@y")],
        ),
        // Links back to the start: the cycle must not loop the drain.
        (url("http://a.com/q"), vec![url("/p"), url("/q")]),
        (url("https://b.com/r"), vec![]),
    ];
    drain(&mut st, &pages);
    assert!(st.frontier.is_empty());
    assert_eq!(
        st.visited,
        vec![
            url("http://a.com/p"),
            url("http://a.com/q"),
            url("https://b.com/r"),
        ]
    );
}

#[test]
fn drain_drops_urls_whose_fetch_fails() {
    let mut st = CrawlState::empty();
    st.enqueue_if_new(url("http://a.com/p"));
    let pages = vec![(url("http://a.com/p"), vec![url("/dead")])];
    drain(&mut st, &pages);
    assert!(st.frontier.is_empty());
    // The dead link was dequeued, found unfetchable, and dropped unvisited.
    assert_eq!(st.visited, vec![url("http://a.com/p")]);
}

#[test]
fn drain_on_an_empty_frontier_does_nothing() {
    let mut st = CrawlState::empty();
    let pages: Vec<(String, Vec<String>)> = Vec::new();
    drain(&mut st, &pages);
    assert!(st.frontier.is_empty());
    assert!(st.visited.is_empty());
}
