use crawler::state::CrawlState;

fn url(x: &str) -> String {
    x.to_string()
}

#[test]
fn init_holds_seed_alone() {
    let st = CrawlState::init("http://seed.org");
    assert_eq!(st.frontier, vec![url("http://seed.org")]);
    assert!(st.visited.is_empty());
}

#[test]
fn enqueue_if_new_never_repeats_a_queued_url() {
    let mut st = CrawlState::empty();
    st.enqueue_if_new(url("A"));
    st.enqueue_if_new(url("A"));
    st.enqueue_if_new(url("B"));
    st.enqueue_if_new(url("A"));
    assert_eq!(st.frontier, vec![url("A"), url("B")]);
}

#[test]
fn enqueue_if_new_skips_visited_urls() {
    let mut st = CrawlState::empty();
    st.mark_visited(url("B"));
    st.enqueue_if_new(url("A"));
    st.enqueue_if_new(url("B"));
    assert_eq!(st.frontier, vec![url("A")]);
}

#[test]
fn interleaved_enqueues_and_marks_keep_frontier_duplicate_free() {
    let mut st = CrawlState::empty();
    st.enqueue_if_new(url("A"));
    st.mark_visited(url("C"));
    st.enqueue_if_new(url("B"));
    st.enqueue_if_new(url("C"));
    st.enqueue_if_new(url("B"));
    st.enqueue_if_new(url("A"));
    assert_eq!(st.frontier, vec![url("A"), url("B")]);
    for i in 0..st.frontier.len() {
        for j in 0..i {
            assert_ne!(st.frontier[i], st.frontier[j]);
        }
    }
}

#[test]
fn dequeue_is_fifo_and_reports_empty() {
    let mut st = CrawlState::empty();
    st.enqueue_if_new(url("A"));
    st.enqueue_if_new(url("B"));
    assert_eq!(st.dequeue(), Some(url("A")));
    assert_eq!(st.dequeue(), Some(url("B")));
    assert_eq!(st.dequeue(), None);
}

#[test]
fn each_frontier_element_is_handed_out_once() {
    let mut st = CrawlState::empty();
    st.enqueue_if_new(url("A"));
    st.enqueue_if_new(url("B"));
    let first = st.dequeue().unwrap();
    let second = st.dequeue().unwrap();
    assert_ne!(first, second);
    assert_eq!(st.dequeue(), None);
}

#[test]
fn mark_visited_is_idempotent() {
    let mut st = CrawlState::empty();
    st.mark_visited(url("A"));
    st.mark_visited(url("A"));
    assert_eq!(st.visited, vec![url("A")]);
}

#[test]
fn size_and_is_empty_track_the_frontier() {
    let mut st = CrawlState::empty();
    assert!(st.is_empty());
    assert_eq!(st.size(), 0);
    st.enqueue_if_new(url("A"));
    assert!(!st.is_empty());
    assert_eq!(st.size(), 1);
    st.dequeue();
    assert!(st.is_empty());
}

#[test]
fn membership_queries_see_both_records() {
    let mut st = CrawlState::empty();
    st.enqueue_if_new(url("A"));
    st.mark_visited(url("B"));
    assert!(st.frontier_contains(&url("A")));
    assert!(!st.frontier_contains(&url("B")));
    assert!(st.visited_contains(&url("B")));
    assert!(!st.visited_contains(&url("A")));
}
