use crawler::process::apply_links;
use crawler::process::process_page;
use crawler::state::CrawlState;

fn url(x: &str) -> String {
    x.to_string()
}

const PAGE: &str = "http://example.com/a/b";

#[test]
fn apply_links_normalizes_and_enqueues_new_urls_in_order() {
    let mut st = CrawlState::empty();
    let hrefs = vec![
        url("//cdn.com/x"),
        url("/c/d"),
        url("http://other.com/y"),
        url(""),
        url("/"),
        url("mailto:x@y.com"),
        url("http://other.com/y"),
    ];
    apply_links(&mut st, PAGE, &hrefs);
    assert_eq!(
        st.frontier,
        vec![
            url("https://cdn.com/x"),
            url("http://example.com/c/d"),
            url("http://other.com/y"),
        ]
    );
    assert!(st.visited.is_empty());
}

#[test]
fn apply_links_never_requeues_a_visited_url() {
    let mut st = CrawlState::empty();
    st.mark_visited(url("http://other.com/y"));
    let hrefs = vec![url("http://other.com/y"), url("/c/d")];
    apply_links(&mut st, PAGE, &hrefs);
    assert_eq!(st.frontier, vec![url("http://example.com/c/d")]);
}

#[test]
fn process_page_extracts_anchors_and_marks_the_page_visited() {
    let mut st = CrawlState::empty();
    let body = "<html><body>\
        <a href=\"/c/d\">one</a>\
        <a href=\"//cdn.com/x\">two</a>\
        <a>no attribute</a>\
        <a href=\"mailto:x@y.com\">mail</a>\
        <a href=\"http://other.com/y\">three</a>\
        </body></html>";
    process_page(&mut st, PAGE, body);
    assert_eq!(st.visited, vec![url(PAGE)]);
    assert_eq!(
        st.frontier,
        vec![
            url("http://example.com/c/d"),
            url("https://cdn.com/x"),
            url("http://other.com/y"),
        ]
    );
}

#[test]
fn process_page_skips_links_back_to_the_page_itself() {
    let mut st = CrawlState::empty();
    let body = "<a href=\"http://example.com/a/b\">self</a><a href=\"/c/d\">other</a>";
    process_page(&mut st, PAGE, body);
    assert_eq!(st.visited, vec![url(PAGE)]);
    assert_eq!(st.frontier, vec![url("http://example.com/c/d")]);
}

#[test]
fn process_page_on_a_body_without_anchors_only_marks_visited() {
    let mut st = CrawlState::empty();
    process_page(&mut st, PAGE, "<p>nothing here</p>");
    assert_eq!(st.visited, vec![url(PAGE)]);
    assert!(st.frontier.is_empty());
}

#[test]
fn resumed_state_never_hands_out_a_visited_url() {
    // Crawl a little, checkpoint, restore, and drain: nothing the restored
    // frontier yields was already in the checkpoint's visited set.
    let mut st = CrawlState::empty();
    st.enqueue_if_new(url(PAGE));
    let seed = st.dequeue().unwrap();
    process_page(
        &mut st,
        &seed,
        "<a href=\"/c/d\">x</a><a href=\"//cdn.com/x\">y</a>",
    );
    let text = crawler::codec::encode_state(&st);
    let mut resumed = crawler::codec::restore_state(&text);
    let snapshot_visited = resumed.visited.clone();
    while let Some(next) = resumed.dequeue() {
        assert!(!snapshot_visited.contains(&next));
        resumed.mark_visited(next);
    }
}
