//! Markup stripping: tags removed by `strip_tags`, the rest trimmed, and
//! caller-chosen placeholder values treated as no data.

use vstd::prelude::*;

use crate::text::{lemma_trim_idempotent, lemma_trim_subrange, trim_seq, trim_str};

verus! {

/// The text that `strip_tags::strip_tags` leaves of `s`.
pub uninterp spec fn tags_stripped(s: Seq<char>) -> Seq<char>;

/// Relies on `strip_tags::strip_tags`. Its loop drops every NUL character,
/// so none is left; and it only treats `<` specially, so a text without `<`
/// comes back with its NUL characters removed and nothing else changed.
#[verifier::external_body]
fn strip_tags_text(s: &str) -> (r: String)
    ensures
        r@ == tags_stripped(s@),
        !r@.contains('\0'),
        !s@.contains('<') ==> r@ == s@.filter(|c: char| c != '\0'),
{
    strip_tags::strip_tags(s)
}

/// The placeholder values, if any were given.
pub open spec fn sentinels_view(null_if_equals: Option<&[String]>) -> Option<Seq<Seq<char>>> {
    match null_if_equals {
        Some(v) => Some(v.deep_view()),
        None => None,
    }
}

/// `t` is one of the placeholder values.
pub open spec fn is_sentinel(t: Seq<char>, sentinels: Option<Seq<Seq<char>>>) -> bool {
    match sentinels {
        Some(v) => v.contains(t),
        None => false,
    }
}

/// What is left of tag-free text once it is trimmed: `None` where that is
/// empty or one of the placeholder values.
pub open spec fn finish_model(stripped: Seq<char>, sentinels: Option<Seq<Seq<char>>>) -> Option<
    Seq<char>,
> {
    let t = trim_seq(stripped);
    if t.len() == 0 || is_sentinel(t, sentinels) {
        None
    } else {
        Some(t)
    }
}

/// Trims tag-free text, and gives `None` where the result is empty or equals
/// one of `null_if_equals`.
pub fn finish_stripped(stripped: &str, null_if_equals: Option<&[String]>) -> (r: Option<String>)
    ensures
        r.deep_view() == finish_model(stripped@, sentinels_view(null_if_equals)),
{
    let trimmed = trim_str(stripped);
    if trimmed.is_empty() {
        return None;
    }
    let t = String::from_str(trimmed);
    if let Some(values) = null_if_equals {
        let mut i: usize = 0;
        while i < values.len()
            invariant
                i <= values.len(),
                null_if_equals == Some(values),
                t@ == trim_seq(stripped@),
                forall|k: int| 0 <= k < i ==> values.deep_view()[k] != t@,
            decreases values.len() - i,
        {
            if t == values[i] {
                assert(values.deep_view()[i as int] == t@);
                assert(values.deep_view().contains(t@));
                return None;
            }
            i = i + 1;
        }
        assert(!values.deep_view().contains(t@));
    }
    Some(t)
}

/// Removes markup tags from `text` and trims the rest. `None` where `text` is
/// absent, where nothing is left, or where what is left equals one of
/// `null_if_equals`.
pub fn strip_markup(text: Option<&str>, null_if_equals: Option<&[String]>) -> (r: Option<String>)
    ensures
        r.deep_view() == match text {
            Some(t) => finish_model(tags_stripped(t@), sentinels_view(null_if_equals)),
            None => None,
        },
        text is None ==> r is None,
{
    let s = match text {
        Some(s) => s,
        None => return None,
    };
    let stripped = strip_tags_text(s);
    finish_stripped(stripped.as_str(), null_if_equals)
}

proof fn lemma_filter_no_nul(s: Seq<char>)
    requires
        !s.contains('\0'),
    ensures
        s.filter(|c: char| c != '\0') == s,
    decreases s.len(),
{
    reveal(Seq::filter);
    if s.len() > 0 {
        assert(!s.drop_last().contains('\0')) by {
            if s.drop_last().contains('\0') {
                let k = choose|k: int| 0 <= k < s.drop_last().len() && s.drop_last()[k] == '\0';
                assert(s[k] == '\0');
            }
        }
        lemma_filter_no_nul(s.drop_last());
        assert(s.last() != '\0');
        assert(s.drop_last().push(s.last()) =~= s);
    }
}

/// Stripping is idempotent: where the tag pass left text without NUL
/// characters and the result `t` holds no `<`, the tag pass on `t` (which then
/// only removes NUL characters) followed by the same trimming and placeholder
/// check gives `t` again.
pub proof fn lemma_restrip_unchanged(stripped: Seq<char>, sentinels: Option<Seq<Seq<char>>>)
    requires
        !stripped.contains('\0'),
        finish_model(stripped, sentinels) matches Some(t) && !t.contains('<'),
    ensures
        finish_model(finish_model(stripped, sentinels)->0.filter(|c: char| c != '\0'), sentinels)
            == finish_model(stripped, sentinels),
{
    let t = trim_seq(stripped);
    lemma_trim_idempotent(stripped);
    lemma_trim_subrange(stripped);
    assert(!t.contains('\0')) by {
        if t.contains('\0') {
            let k = choose|k: int| 0 <= k < t.len() && t[k] == '\0';
            let (a, b) = choose|a: int, b: int| 0 <= a <= b <= stripped.len() && t == stripped.subrange(a, b);
            assert(stripped[a + k] == '\0');
        }
    }
    lemma_filter_no_nul(t);
}

} // verus!
