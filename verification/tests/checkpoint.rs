use crawler::codec::decode_state;
use crawler::codec::encode_state;
use crawler::codec::restore_state;
use crawler::state::CrawlState;

fn url(x: &str) -> String {
    x.to_string()
}

fn sample_state() -> CrawlState {
    let mut st = CrawlState::empty();
    st.enqueue_if_new(url("A"));
    st.enqueue_if_new(url("B"));
    st.mark_visited(url("C"));
    st
}

#[test]
fn encode_writes_the_exact_record() {
    let st = sample_state();
    assert_eq!(
        encode_state(&st),
        "{\"urls_to_visit\":[\"A\",\"B\"],\"visited_urls\":[\"C\"]}"
    );
}

#[test]
fn encode_of_empty_state_writes_empty_arrays() {
    let st = CrawlState::empty();
    assert_eq!(
        encode_state(&st),
        "{\"urls_to_visit\":[],\"visited_urls\":[]}"
    );
}

#[test]
fn round_trip_keeps_frontier_order_and_visited_set() {
    let st = sample_state();
    let text = encode_state(&st);
    let back = decode_state(&text).unwrap();
    assert_eq!(back.frontier, st.frontier);
    assert_eq!(back.visited, st.visited);
}

#[test]
fn round_trip_keeps_urls_with_quotes_and_backslashes() {
    let mut st = CrawlState::empty();
    st.enqueue_if_new(url("http://a/\"q\""));
    st.enqueue_if_new(url("http://b/\\back"));
    st.mark_visited(url("plain"));
    let text = encode_state(&st);
    let back = decode_state(&text).unwrap();
    assert_eq!(back.frontier, st.frontier);
    assert_eq!(back.visited, st.visited);
}

#[test]
fn decode_rejects_text_that_is_not_one_record() {
    assert!(decode_state("").is_none());
    assert!(decode_state("not json").is_none());
    assert!(decode_state("{\"urls_to_visit\":[\"A\"]}").is_none());
    assert!(decode_state("{\"urls_to_visit\":[\"A\"],\"visited_urls\":[\"B\"]} ").is_none());
    assert!(decode_state("{\"urls_to_visit\":[\"A\",],\"visited_urls\":[]}").is_none());
    assert!(decode_state("{\"urls_to_visit\":[\"A],\"visited_urls\":[]}").is_none());
}

#[test]
fn restore_falls_back_to_the_empty_state() {
    let st = restore_state("garbage");
    assert!(st.frontier.is_empty());
    assert!(st.visited.is_empty());
}

#[test]
fn restore_treats_a_repeating_record_as_unreadable() {
    let st = restore_state("{\"urls_to_visit\":[\"A\",\"A\"],\"visited_urls\":[]}");
    assert!(st.frontier.is_empty());
    assert!(st.visited.is_empty());
}

#[test]
fn restore_returns_a_written_checkpoint_verbatim() {
    let st = sample_state();
    let back = restore_state(&encode_state(&st));
    assert_eq!(back.frontier, st.frontier);
    assert_eq!(back.visited, st.visited);
}

#[test]
fn encoded_checkpoint_is_json_a_generic_reader_accepts() {
    let st = sample_state();
    let text = encode_state(&st);
    let value: serde_json::Value = serde_json::from_str(&text).unwrap();
    assert_eq!(value["urls_to_visit"][0], serde_json::Value::String(url("A")));
    assert_eq!(value["urls_to_visit"][1], serde_json::Value::String(url("B")));
    assert_eq!(value["visited_urls"][0], serde_json::Value::String(url("C")));
}
