use textnorm::inverted::{revert_entries, revert_inverted_index};

fn revert(s: &str) -> Option<String> {
    revert_inverted_index(Some(s.as_bytes()))
}

#[test]
fn words_in_position_order() {
    assert_eq!(revert(r#"{"the":[0],"cat":[1],"sat":[2]}"#).as_deref(), Some("the cat sat"));
}

#[test]
fn key_order_does_not_matter() {
    assert_eq!(revert(r#"{"sat":[2],"the":[0],"cat":[1]}"#).as_deref(), Some("the cat sat"));
}

#[test]
fn gaps_are_skipped() {
    assert_eq!(revert(r#"{"a":[0],"c":[2]}"#).as_deref(), Some("a c"));
}

#[test]
fn greater_word_wins_a_shared_position() {
    assert_eq!(revert(r#"{"a":[0],"b":[0]}"#).as_deref(), Some("b"));
    assert_eq!(revert(r#"{"b":[0],"a":[0]}"#).as_deref(), Some("b"));
}

#[test]
fn tie_break_is_by_code_point() {
    assert_eq!(revert(r#"{"apple":[0],"Apple":[0]}"#).as_deref(), Some("apple"));
    assert_eq!(revert(r#"{"ab":[0],"a":[0]}"#).as_deref(), Some("ab"));
}

#[test]
fn repeated_word_fills_each_position() {
    assert_eq!(revert(r#"{"the":[0,2],"cat":[1]}"#).as_deref(), Some("the cat the"));
}

#[test]
fn absent_input_gives_none() {
    assert_eq!(revert_inverted_index(None), None);
}

#[test]
fn empty_input_gives_none() {
    assert_eq!(revert_inverted_index(Some(&[])), None);
}

#[test]
fn malformed_json_gives_none() {
    assert_eq!(revert("{\"a\":[0]"), None);
    assert_eq!(revert("not json"), None);
    assert_eq!(revert(r#"{"a":[-1]}"#), None);
    assert_eq!(revert(r#"["a"]"#), None);
}

#[test]
fn empty_object_gives_none() {
    assert_eq!(revert("{}"), None);
    assert_eq!(revert(r#"{"a":[]}"#), None);
}

#[test]
fn rebuilt_text_is_trimmed() {
    assert_eq!(revert(r#"{" x":[0],"y ":[1]}"#).as_deref(), Some("x y"));
    assert_eq!(revert(r#"{"":[0],"a":[1]}"#).as_deref(), Some("a"));
    assert_eq!(revert(r#"{" ":[0]}"#), None);
}

#[test]
fn entries_in_any_order_give_the_same_text() {
    let a = vec![("b".to_string(), vec![0u32, 3]), ("a".to_string(), vec![0, 1]), ("c".to_string(), vec![5])];
    let mut b = a.clone();
    b.reverse();
    assert_eq!(revert_entries(&a).as_deref(), Some("b a b c"));
    assert_eq!(revert_entries(&b).as_deref(), Some("b a b c"));
}
