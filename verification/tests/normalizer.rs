use crawler::norm::base_is_splittable;
use crawler::norm::normalize_href;
use crawler::norm::trimmed;

const BASE: &str = "http://example.com/a/b";

#[test]
fn protocol_relative_href_gets_https_scheme() {
    assert_eq!(
        normalize_href("//cdn.com/x", BASE),
        Some("https://cdn.com/x".to_string())
    );
}

#[test]
fn root_relative_href_joins_scheme_and_host() {
    assert_eq!(
        normalize_href("/c/d", BASE),
        Some("http://example.com/c/d".to_string())
    );
}

#[test]
fn absolute_href_passes_through() {
    assert_eq!(
        normalize_href("http://other.com/y", BASE),
        Some("http://other.com/y".to_string())
    );
}

#[test]
fn empty_href_is_rejected() {
    assert_eq!(normalize_href("", BASE), None);
}

#[test]
fn bare_slash_is_rejected() {
    assert_eq!(normalize_href("/", BASE), None);
}

#[test]
fn mailto_href_is_rejected() {
    assert_eq!(normalize_href("mailto:x@y.com", BASE), None);
}

#[test]
fn https_base_keeps_its_scheme_for_root_relative() {
    assert_eq!(
        normalize_href("/p", "https://host.net/deep/path"),
        Some("https://host.net/p".to_string())
    );
}

#[test]
fn href_with_leading_whitespace_is_rejected() {
    assert_eq!(normalize_href(" /c/d", BASE), None);
}

#[test]
fn accepted_result_is_trimmed() {
    assert_eq!(
        normalize_href("http://other.com/y ", BASE),
        Some("http://other.com/y".to_string())
    );
    assert_eq!(
        normalize_href("/c/d\n", BASE),
        Some("http://example.com/c/d".to_string())
    );
}

#[test]
fn http_prefix_alone_is_enough_to_pass_through() {
    // The rule looks only at the leading characters, exactly as stated.
    assert_eq!(
        normalize_href("httpsomething", BASE),
        Some("httpsomething".to_string())
    );
}

#[test]
fn trimmed_strips_surrounding_whitespace_only() {
    assert_eq!(trimmed("  a b\t\n"), "a b");
    assert_eq!(trimmed(""), "");
    assert_eq!(trimmed("   "), "");
    assert_eq!(trimmed("x"), "x");
}

#[test]
fn base_splittable_needs_two_slashes() {
    assert!(base_is_splittable("http://example.com"));
    assert!(base_is_splittable("a/b/c"));
    assert!(!base_is_splittable("nope"));
    assert!(!base_is_splittable("one/slash"));
}

#[test]
fn root_relative_keeps_host_with_port() {
    assert_eq!(
        normalize_href("/p", "http://example.com:8080/a/b"),
        Some("http://example.com:8080/p".to_string())
    );
}

#[test]
fn bare_double_slash_becomes_bare_https() {
    assert_eq!(normalize_href("//", BASE), Some("https://".to_string()));
}
