use textnorm::markup::{finish_stripped, strip_markup};

#[test]
fn tags_are_removed() {
    assert_eq!(strip_markup(Some("<b>Hello</b>"), None).as_deref(), Some("Hello"));
}

#[test]
fn sentinel_result_gives_none() {
    let sentinels = vec!["N/A".to_string()];
    assert_eq!(strip_markup(Some("<b>N/A</b>"), Some(sentinels.as_slice())), None);
}

#[test]
fn non_sentinel_result_is_kept() {
    let sentinels = vec!["N/A".to_string(), "-".to_string()];
    assert_eq!(strip_markup(Some(" <i>n/a</i> "), Some(sentinels.as_slice())).as_deref(), Some("n/a"));
}

#[test]
fn absent_text_gives_none() {
    let sentinels = vec!["N/A".to_string()];
    assert_eq!(strip_markup(None, Some(sentinels.as_slice())), None);
    assert_eq!(strip_markup(None, None), None);
}

#[test]
fn blank_result_gives_none() {
    assert_eq!(strip_markup(Some("  <p> </p>\n"), None), None);
    assert_eq!(strip_markup(Some(""), None), None);
}

#[test]
fn stripped_text_is_trimmed() {
    assert_eq!(
        strip_markup(Some("<p>\n  foo <b>bar</b> <a href=\"#\">baz</a>  </p>"), None).as_deref(),
        Some("foo bar baz")
    );
}

#[test]
fn stripping_twice_changes_nothing() {
    let once = strip_markup(Some("<div> Title: <em>A &amp; B</em> </div>"), None).unwrap();
    assert_eq!(once, "Title: A &amp; B");
    let twice = strip_markup(Some(&once), None);
    assert_eq!(twice.as_deref(), Some(once.as_str()));
}

#[test]
fn finishing_trims_and_checks_sentinels() {
    let sentinels = vec!["N/A".to_string()];
    assert_eq!(finish_stripped("  N/A \t", Some(sentinels.as_slice())), None);
    assert_eq!(finish_stripped("  x  ", Some(sentinels.as_slice())).as_deref(), Some("x"));
    assert_eq!(finish_stripped(" \u{3000} ", None), None);
}

#[test]
fn lone_angle_at_end_is_kept_once() {
    let once = strip_markup(Some("a < "), None).unwrap();
    assert_eq!(once, "a <");
    assert_eq!(strip_markup(Some(&once), None).as_deref(), Some("a"));
}
