//! Personal-name parsing: a full linguistic parse by `human_name`, with a
//! comma/space heuristic when that parse gives nothing.

use vstd::prelude::*;

use crate::text::{join_spaced, join_with_spaces, trim_seq, trim_str};

verus! {

/// A parsed personal name; a field that could not be determined is `None`.
#[derive(Debug, Clone)]
pub struct ParsedName {
    pub first_initial: Option<String>,
    pub given_name: Option<String>,
    pub middle_initials: Option<String>,
    pub middle_names: Option<String>,
    pub surname: Option<String>,
    pub full: Option<String>,
}

/// The fields of a `ParsedName` as character sequences.
pub ghost struct ParsedNameModel {
    pub first_initial: Option<Seq<char>>,
    pub given_name: Option<Seq<char>>,
    pub middle_initials: Option<Seq<char>>,
    pub middle_names: Option<Seq<char>>,
    pub surname: Option<Seq<char>>,
    pub full: Option<Seq<char>>,
}

impl View for ParsedName {
    type V = ParsedNameModel;

    open spec fn view(&self) -> ParsedNameModel {
        ParsedNameModel {
            first_initial: self.first_initial.deep_view(),
            given_name: self.given_name.deep_view(),
            middle_initials: self.middle_initials.deep_view(),
            middle_names: self.middle_names.deep_view(),
            surname: self.surname.deep_view(),
            full: self.full.deep_view(),
        }
    }
}

/// What the full name parser made of a text, field by field.
#[derive(Debug, Clone)]
pub struct Person {
    pub first_initial: String,
    pub given_name: Option<String>,
    pub middle_initials: Option<String>,
    pub middle_names: Option<Vec<String>>,
    pub surname: String,
    pub full: String,
}

/// Whether `human_name::Name::parse` accepts the text.
pub uninterp spec fn person_parses(s: Seq<char>) -> bool;

/// `Name::first_initial` of the parse of the text.
pub uninterp spec fn person_first_initial(s: Seq<char>) -> char;

/// `Name::given_name` of the parse of the text.
pub uninterp spec fn person_given_name(s: Seq<char>) -> Option<Seq<char>>;

/// `Name::middle_initials` of the parse of the text.
pub uninterp spec fn person_middle_initials(s: Seq<char>) -> Option<Seq<char>>;

/// `Name::middle_names` of the parse of the text.
pub uninterp spec fn person_middle_names(s: Seq<char>) -> Option<Seq<Seq<char>>>;

/// `Name::surname` of the parse of the text.
pub uninterp spec fn person_surname(s: Seq<char>) -> Seq<char>;

/// `Name::display_full` of the parse of the text.
pub uninterp spec fn person_display_full(s: Seq<char>) -> Seq<char>;

/// Relies on `human_name::Name::parse` (whether a parse exists) and on the
/// accessors `first_initial`, `given_name`, `middle_initials`, `middle_names`,
/// `surname` and `display_full` of the parsed name, each a function of the text.
#[verifier::external_body]
fn parse_person(s: &str) -> (r: Option<Person>)
    ensures
        r is Some <==> person_parses(s@),
        r matches Some(p) ==> {
            &&& p.first_initial@ == seq![person_first_initial(s@)]
            &&& p.given_name.deep_view() == person_given_name(s@)
            &&& p.middle_initials.deep_view() == person_middle_initials(s@)
            &&& p.middle_names.deep_view() == person_middle_names(s@)
            &&& p.surname@ == person_surname(s@)
            &&& p.full@ == person_display_full(s@)
        },
{
    human_name::Name::parse(s).map(|n| Person {
        first_initial: n.first_initial().to_string(),
        given_name: n.given_name().map(String::from),
        middle_initials: n.middle_initials().map(String::from),
        middle_names: n.middle_names().map(|v| v.iter().map(|m| m.to_string()).collect()),
        surname: n.surname().to_string(),
        full: n.display_full().into_owned(),
    })
}

/// Every field absent.
pub open spec fn absent_model() -> ParsedNameModel {
    ParsedNameModel {
        first_initial: None,
        given_name: None,
        middle_initials: None,
        middle_names: None,
        surname: None,
        full: None,
    }
}

/// The fields taken from a full parse; middle names are joined with spaces.
pub open spec fn person_model(
    first_initial: Seq<char>,
    given_name: Option<Seq<char>>,
    middle_initials: Option<Seq<char>>,
    middle_names: Option<Seq<Seq<char>>>,
    surname: Seq<char>,
    full: Seq<char>,
) -> ParsedNameModel {
    ParsedNameModel {
        first_initial: Some(first_initial),
        given_name,
        middle_initials,
        middle_names: match middle_names {
            Some(ms) => Some(join_spaced(ms)),
            None => None,
        },
        surname: Some(surname),
        full: Some(full),
    }
}

/// The fields of `p`, as `assemble_parsed_name` copies them.
pub open spec fn person_fields_model(p: Person) -> ParsedNameModel {
    person_model(
        p.first_initial@,
        p.given_name.deep_view(),
        p.middle_initials.deep_view(),
        p.middle_names.deep_view(),
        p.surname@,
        p.full@,
    )
}

/// Given name, surname and display form from a split of `s`.
pub open spec fn split_name(given: Seq<char>, surname: Seq<char>) -> (
    Option<Seq<char>>,
    Option<Seq<char>>,
    Seq<char>,
) {
    (Some(given), Some(surname), given + seq![' '] + surname)
}

/// The heuristic split: "Surname, Given" at the first comma, else
/// "Given ... Surname" at the last space, else no split and `s` kept whole.
pub open spec fn fallback_spec(s: Seq<char>) -> (Option<Seq<char>>, Option<Seq<char>>, Seq<char>) {
    match s.index_of_first(',') {
        Some(i) => split_name(trim_seq(s.skip(i + 1)), trim_seq(s.take(i))),
        None => match s.index_of_last(' ') {
            Some(i) => split_name(trim_seq(s.take(i)), trim_seq(s.skip(i + 1))),
            None => (None, None, s),
        },
    }
}

/// The fields that the heuristic split yields.
pub open spec fn fallback_model(s: Seq<char>) -> ParsedNameModel {
    let (given, surname, full) = fallback_spec(s);
    ParsedNameModel {
        first_initial: None,
        given_name: given,
        middle_initials: None,
        middle_names: None,
        surname,
        full: Some(full),
    }
}

/// What `parse_name` returns for an optional text.
pub open spec fn parse_name_model(text: Option<Seq<char>>) -> ParsedNameModel {
    match text {
        None => absent_model(),
        Some(t) => {
            let s = trim_seq(t);
            if s.len() == 0 {
                absent_model()
            } else if person_parses(s) {
                person_model(
                    seq![person_first_initial(s)],
                    person_given_name(s),
                    person_middle_initials(s),
                    person_middle_names(s),
                    person_surname(s),
                    person_display_full(s),
                )
            } else {
                fallback_model(s)
            }
        },
    }
}

/// The characters of an optional text.
pub open spec fn opt_str_view(text: Option<&str>) -> Option<Seq<char>> {
    match text {
        Some(t) => Some(t@),
        None => None,
    }
}

/// Splits a name that the full parser could not read: at the first comma
/// ("Surname, Given"), else at the last space ("Given Middle Surname"); both
/// parts are trimmed and the display form is "Given Surname". With neither
/// separator, given name and surname are absent and the display form is the
/// text itself.
pub fn fallback_parse_name(text: &str) -> (r: (Option<String>, Option<String>, String))
    ensures
        (r.0.deep_view(), r.1.deep_view(), r.2@) == fallback_spec(text@),
{
    let ghost s = text@;
    let n = text.unicode_len();
    let mut i: usize = 0;
    while i < n && text.get_char(i) != ','
        invariant
            i <= n,
            n == s.len(),
            s == text@,
            forall|j: int| 0 <= j < i ==> s[j] != ',',
        decreases n - i,
    {
        i = i + 1;
    }
    proof {
        s.index_of_first_ensures(',');
        s.index_of_last_ensures(' ');
    }
    let (given, surname) = if i < n {
        proof {
            let k = s.index_of_first(',')->0;
            assert(k == i as int);
        }
        (trim_str(text.substring_char(i + 1, n)), trim_str(text.substring_char(0, i)))
    } else {
        assert(!s.contains(','));
        let mut j: usize = n;
        while j > 0 && text.get_char(j - 1) != ' '
            invariant
                j <= n,
                n == s.len(),
                s == text@,
                forall|k: int| j <= k < n ==> s[k] != ' ',
            decreases j,
        {
            j = j - 1;
        }
        if j == 0 {
            assert(!s.contains(' '));
            return (None, None, String::from_str(text));
        }
        proof {
            let k = s.index_of_last(' ')->0;
            assert(k == j - 1);
        }
        (trim_str(text.substring_char(0, j - 1)), trim_str(text.substring_char(j, n)))
    };
    proof {
        reveal_strlit(" ");
    }
    let full = String::from_str(given).concat(" ").concat(surname);
    (Some(String::from_str(given)), Some(String::from_str(surname)), full)
}

/// Builds the result from the full parser's answer on the trimmed, non-empty
/// text `s`: its fields when it parsed, the heuristic split of `s` otherwise.
pub fn assemble_parsed_name(s: &str, person: Option<Person>) -> (r: ParsedName)
    ensures
        r@ == match person {
            Some(p) => person_fields_model(p),
            None => fallback_model(s@),
        },
{
    match person {
        Some(p) => {
            let middle_names = match &p.middle_names {
                Some(ms) => Some(join_with_spaces(ms)),
                None => None,
            };
            ParsedName {
                first_initial: Some(p.first_initial),
                given_name: p.given_name,
                middle_initials: p.middle_initials,
                middle_names,
                surname: Some(p.surname),
                full: Some(p.full),
            }
        },
        None => {
            let (given_name, surname, full) = fallback_parse_name(s);
            ParsedName {
                first_initial: None,
                given_name,
                middle_initials: None,
                middle_names: None,
                surname,
                full: Some(full),
            }
        },
    }
}

/// Parses a free-text personal name. An absent or blank text gives every
/// field absent; otherwise the trimmed text goes to the full parser, and to
/// the heuristic split where that parser gives nothing.
pub fn parse_name(text: Option<&str>) -> (r: ParsedName)
    ensures
        r@ == parse_name_model(opt_str_view(text)),
        text is None || trim_seq(text->0@).len() == 0 ==> r@ == absent_model(),
        text matches Some(t) && trim_seq(t@).len() > 0 && person_parses(trim_seq(t@))
            ==> r.surname is Some && r.full is Some,
{
    let absent = ParsedName {
        first_initial: None,
        given_name: None,
        middle_initials: None,
        middle_names: None,
        surname: None,
        full: None,
    };
    match text {
        None => absent,
        Some(t) => {
            let s = trim_str(t);
            if s.is_empty() {
                return absent;
            }
            let person = parse_person(s);
            assemble_parsed_name(s, person)
        },
    }
}

} // verus!
