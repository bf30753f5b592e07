use deadlinks::extract::{dedup_links, find_links, href_values, is_fragment_link};
use std::collections::HashSet;

fn set_of(v: Vec<String>) -> HashSet<String> {
    v.into_iter().collect()
}

#[test]
fn test_regex() {
    let s = r#"<p>I learned about extensions when reading the <a href="https://docs.rs/hyper/latest/hyper/struct.Request.html#method.extensions">hyper docs</a>. But"#;
    let link = find_links(s);
    assert_eq!(
        set_of(link),
        HashSet::from([
            "https://docs.rs/hyper/latest/hyper/struct.Request.html#method.extensions".to_string()
        ])
    )
}

#[test]
fn test_regex_decoded() {
    let s = r#"<a  href="http:&#x2F;&#x2F;127.0.0.1:1111&#x2F;about&#x2F;">About</a>"#;
    let link = find_links(s);
    assert_eq!(
        set_of(link),
        HashSet::from(["http://127.0.0.1:1111/about/".to_string()])
    )
}

#[test]
fn spaces_around_equals_are_accepted() {
    let s = r#"<a href="a">1</a><a href ="b">2</a><a href= "c">3</a><a href = "d">4</a>"#;
    assert_eq!(find_links(s), vec!["a", "b", "c", "d"]);
}

#[test]
fn any_whitespace_around_equals_is_accepted() {
    let s = "<a href  =\"a\">1</a><a href=  \"b\">2</a><a href\t=\n\r\x0C\"c\">3</a>";
    assert_eq!(href_values(s), vec!["a", "b", "c"]);
    assert_eq!(find_links(s), vec!["a", "b", "c"]);
}

#[test]
fn empty_or_single_quoted_value_does_not_match() {
    let s = r#"<a href="">1</a><a href='c'>2</a><a href = >3</a>"#;
    assert_eq!(href_values(s), Vec::<String>::new());
}

#[test]
fn fragment_left_out_and_spaced_link_found() {
    let s = r##"<a href="#top">Top</a> <a href  =  "http://x/">x</a>"##;
    assert_eq!(set_of(find_links(s)), HashSet::from(["http://x/".to_string()]));
}

#[test]
fn fragment_links_are_left_out() {
    let s = r##"<a href="#top">top</a><a href="/page#part">part</a>"##;
    assert_eq!(href_values(s), vec!["#top", "/page#part"]);
    assert_eq!(find_links(s), vec!["/page#part"]);
}

#[test]
fn plain_value_is_not_changed() {
    let s = r#"<a href="http://example.com">x</a>"#;
    assert_eq!(find_links(s), vec!["http://example.com"]);
}

#[test]
fn named_entities_are_decoded() {
    let s = r#"<a href="/search?a=1&amp;b=2">x</a>"#;
    assert_eq!(href_values(s), vec!["/search?a=1&amp;b=2"]);
    assert_eq!(find_links(s), vec!["/search?a=1&b=2"]);
}

#[test]
fn decimal_entities_are_decoded() {
    let s = r#"<a href="http:&#47;&#47;host&#47;">x</a>"#;
    assert_eq!(find_links(s), vec!["http://host/"]);
}

#[test]
fn no_href_gives_no_links() {
    assert_eq!(find_links(""), Vec::<String>::new());
    assert_eq!(find_links("<p>no links <b>here</b></p>"), Vec::<String>::new());
    assert_eq!(find_links(r#"<img src="a.png">"#), Vec::<String>::new());
}

#[test]
fn duplicate_links_are_kept_once() {
    let s = r#"<a href="/a">1</a><a href="/b">2</a><a href="/a">3</a><a href="&#x2F;a">4</a>"#;
    assert_eq!(find_links(s), vec!["/a", "/b"]);
}

#[test]
fn dedup_keeps_first_occurrences_in_order() {
    let v = vec!["x".to_string(), "y".to_string(), "x".to_string(), "z".to_string(), "y".to_string()];
    assert_eq!(dedup_links(v), vec!["x", "y", "z"]);
    assert_eq!(dedup_links(Vec::new()), Vec::<String>::new());
}

#[test]
fn fragment_test_looks_at_first_character() {
    assert!(is_fragment_link("#a"));
    assert!(!is_fragment_link("a#"));
    assert!(!is_fragment_link(""));
}

#[test]
fn search_resumes_after_closing_quote() {
    let s = r#"<a href="x href=">y"#;
    assert_eq!(href_values(s), vec!["x href="]);
    let t = "<a href=\"caf\u{e9}\u{2603}\">";
    assert_eq!(href_values(t), vec!["caf\u{e9}\u{2603}"]);
}

#[test]
fn value_may_span_lines() {
    let s = "<a href=\"a\nb\">";
    assert_eq!(href_values(s), vec!["a\nb"]);
}
