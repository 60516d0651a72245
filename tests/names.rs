use textnorm::name::{assemble_parsed_name, fallback_parse_name, parse_name, ParsedName, Person};

fn all_absent(p: &ParsedName) -> bool {
    p.first_initial.is_none()
        && p.given_name.is_none()
        && p.middle_initials.is_none()
        && p.middle_names.is_none()
        && p.surname.is_none()
        && p.full.is_none()
}

#[test]
fn absent_name_gives_absent_fields() {
    assert!(all_absent(&parse_name(None)));
}

#[test]
fn empty_name_gives_absent_fields() {
    assert!(all_absent(&parse_name(Some(""))));
}

#[test]
fn blank_name_gives_absent_fields() {
    assert!(all_absent(&parse_name(Some("  \t \n "))));
}

#[test]
fn full_parse_fills_surname_and_full() {
    let p = parse_name(Some("  Jane Doe  "));
    assert_eq!(p.given_name.as_deref(), Some("Jane"));
    assert_eq!(p.surname.as_deref(), Some("Doe"));
    assert_eq!(p.full.as_deref(), Some("Jane Doe"));
    assert_eq!(p.first_initial.as_deref(), Some("J"));
}

#[test]
fn full_parse_with_middle_name() {
    let p = parse_name(Some("John Allen Smith"));
    assert_eq!(p.given_name.as_deref(), Some("John"));
    assert_eq!(p.surname.as_deref(), Some("Smith"));
    assert_eq!(p.middle_names.as_deref(), Some("Allen"));
    assert!(p.full.is_some());
}

#[test]
fn fallback_splits_at_first_comma() {
    let (given, surname, full) = fallback_parse_name("Smith, John");
    assert_eq!(given.as_deref(), Some("John"));
    assert_eq!(surname.as_deref(), Some("Smith"));
    assert_eq!(full, "John Smith");
}

#[test]
fn fallback_comma_split_trims_both_parts() {
    let (given, surname, full) = fallback_parse_name("Smith ,   John, Jr");
    assert_eq!(given.as_deref(), Some("John, Jr"));
    assert_eq!(surname.as_deref(), Some("Smith"));
    assert_eq!(full, "John, Jr Smith");
}

#[test]
fn fallback_splits_at_last_space() {
    let (given, surname, full) = fallback_parse_name("John Q Smith");
    assert_eq!(given.as_deref(), Some("John Q"));
    assert_eq!(surname.as_deref(), Some("Smith"));
    assert_eq!(full, "John Q Smith");
}

#[test]
fn fallback_single_token_kept_whole() {
    let (given, surname, full) = fallback_parse_name("Prince");
    assert_eq!(given, None);
    assert_eq!(surname, None);
    assert_eq!(full, "Prince");
}

#[test]
fn assemble_without_parse_uses_fallback() {
    let p = assemble_parsed_name("Smith, John", None);
    assert_eq!(p.first_initial, None);
    assert_eq!(p.given_name.as_deref(), Some("John"));
    assert_eq!(p.middle_initials, None);
    assert_eq!(p.middle_names, None);
    assert_eq!(p.surname.as_deref(), Some("Smith"));
    assert_eq!(p.full.as_deref(), Some("John Smith"));
}

#[test]
fn assemble_single_token_without_parse() {
    let p = assemble_parsed_name("Prince", None);
    assert_eq!(p.given_name, None);
    assert_eq!(p.surname, None);
    assert_eq!(p.full.as_deref(), Some("Prince"));
}

#[test]
fn assemble_joins_middle_names_with_spaces() {
    let person = Person {
        first_initial: "J".to_string(),
        given_name: Some("John".to_string()),
        middle_initials: Some("RR".to_string()),
        middle_names: Some(vec!["Ronald".to_string(), "Reuel".to_string()]),
        surname: "Tolkien".to_string(),
        full: "John Ronald Reuel Tolkien".to_string(),
    };
    let p = assemble_parsed_name("J. R. R. Tolkien", Some(person));
    assert_eq!(p.first_initial.as_deref(), Some("J"));
    assert_eq!(p.given_name.as_deref(), Some("John"));
    assert_eq!(p.middle_initials.as_deref(), Some("RR"));
    assert_eq!(p.middle_names.as_deref(), Some("Ronald Reuel"));
    assert_eq!(p.surname.as_deref(), Some("Tolkien"));
    assert_eq!(p.full.as_deref(), Some("John Ronald Reuel Tolkien"));
}
