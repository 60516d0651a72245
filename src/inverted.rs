//! Rebuilding plain text from an inverted index, a JSON object that maps each
//! word to the positions at which it occurs.
//!
//! Each position takes the greatest of the words that claim it; positions are
//! read in ascending order, unclaimed ones are skipped, and the words are
//! joined with single spaces.

use vstd::prelude::*;

use crate::text::{join_spaced, join_with_spaces, trim_seq, trim_str};

verus! {

/// Strict lexicographic order on words, character by character by code
/// point; a proper prefix comes first.
pub open spec fn word_lt(a: Seq<char>, b: Seq<char>) -> bool
    decreases a.len(),
{
    if a.len() == 0 {
        b.len() > 0
    } else if b.len() == 0 {
        false
    } else if a[0] != b[0] {
        (a[0] as int) < (b[0] as int)
    } else {
        word_lt(a.drop_first(), b.drop_first())
    }
}

/// No two words precede each other.
pub proof fn lemma_word_lt_asymmetric(a: Seq<char>, b: Seq<char>)
    requires
        word_lt(a, b),
    ensures
        !word_lt(b, a),
    decreases a.len(),
{
    if a.len() > 0 && b.len() > 0 && a[0] == b[0] {
        lemma_word_lt_asymmetric(a.drop_first(), b.drop_first());
    }
}

/// The order on words is transitive.
pub proof fn lemma_word_lt_transitive(a: Seq<char>, b: Seq<char>, c: Seq<char>)
    requires
        word_lt(a, b),
        word_lt(b, c),
    ensures
        word_lt(a, c),
    decreases a.len(),
{
    if a.len() > 0 && b.len() > 0 && c.len() > 0 && a[0] == b[0] && b[0] == c[0] {
        lemma_word_lt_transitive(a.drop_first(), b.drop_first(), c.drop_first());
    }
}

/// Of two different words, one precedes the other.
pub proof fn lemma_word_lt_total(a: Seq<char>, b: Seq<char>)
    requires
        a != b,
    ensures
        word_lt(a, b) || word_lt(b, a),
    decreases a.len(),
{
    if a.len() == 0 && b.len() == 0 {
        assert(a =~= b);
    }
    if a.len() > 0 && b.len() > 0 && a[0] == b[0] {
        if a.drop_first() == b.drop_first() {
            assert(a =~= seq![a[0]] + a.drop_first());
            assert(b =~= seq![b[0]] + b.drop_first());
        }
        lemma_word_lt_total(a.drop_first(), b.drop_first());
    }
}

/// A claim: a word and a position that it occupies.
pub type Claim = (Seq<char>, int);

/// The claims made by a list of (word, positions) entries.
pub open spec fn entry_claims(e: Seq<(Seq<char>, Seq<u32>)>) -> Set<Claim> {
    Set::new(
        |c: Claim|
            exists|a: int, b: int|
                0 <= a < e.len() && 0 <= b < e[a].1.len() && e[a].0 == c.0 && e[a].1[b] as int
                    == c.1,
    )
}

/// The claims made by a map from words to positions.
pub open spec fn map_claims(m: Map<Seq<char>, Seq<u32>>) -> Set<Claim> {
    Set::new(
        |c: Claim|
            m.contains_key(c.0) && exists|b: int| 0 <= b < m[c.0].len() && m[c.0][b] as int == c.1,
    )
}

/// `w` claims position `p` and is greater than every other word claiming it.
pub open spec fn is_top_claim(claims: Set<Claim>, w: Seq<char>, p: int) -> bool {
    &&& claims.contains((w, p))
    &&& forall|w2: Seq<char>| #[trigger] claims.contains((w2, p)) ==> w2 == w || word_lt(w2, w)
}

/// The word that position `p` resolves to: the greatest word claiming it.
pub open spec fn slot_word(claims: Set<Claim>, p: int) -> Option<Seq<char>> {
    if exists|w: Seq<char>| is_top_claim(claims, w, p) {
        Some(choose|w: Seq<char>| is_top_claim(claims, w, p))
    } else {
        None
    }
}

/// The resolved words of positions `0 .. n`, in order, gaps skipped.
pub open spec fn slot_words(claims: Set<Claim>, n: nat) -> Seq<Seq<char>>
    decreases n,
{
    if n == 0 {
        Seq::empty()
    } else {
        let prev = slot_words(claims, (n - 1) as nat);
        match slot_word(claims, n - 1) {
            Some(w) => prev.push(w),
            None => prev,
        }
    }
}

/// One past the greatest position that a `u32` can hold.
pub open spec fn position_limit() -> nat {
    0x1_0000_0000
}

/// The text rebuilt from a set of claims: resolved words joined by single
/// spaces and trimmed; `None` where that leaves nothing.
pub open spec fn reverted_text(claims: Set<Claim>) -> Option<Seq<char>> {
    let t = trim_seq(join_spaced(slot_words(claims, position_limit())));
    if t.len() == 0 {
        None
    } else {
        Some(t)
    }
}

/// The claims of entries `0 .. i`, and of the first `j` positions of entry `i`.
pub open spec fn claimed_upto(e: Seq<(Seq<char>, Seq<u32>)>, i: int, j: int, c: Claim) -> bool {
    exists|a: int, b: int|
        0 <= a < e.len() && 0 <= b < e[a].1.len() && (a < i || (a == i && b < j)) && e[a].0 == c.0
            && e[a].1[b] as int == c.1
}

proof fn lemma_claimed_step(e: Seq<(Seq<char>, Seq<u32>)>, i: int, j: int, c: Claim)
    requires
        0 <= i < e.len(),
        0 <= j < e[i].1.len(),
    ensures
        claimed_upto(e, i, j + 1, c) <==> (claimed_upto(e, i, j, c) || c == (
        e[i].0,
        e[i].1[j] as int,
        )),
{
    if claimed_upto(e, i, j + 1, c) && c != (e[i].0, e[i].1[j] as int) {
        let (a, b) = choose|a: int, b: int|
            0 <= a < e.len() && 0 <= b < e[a].1.len() && (a < i || (a == i && b < j + 1)) && e[a].0
                == c.0 && e[a].1[b] as int == c.1;
        assert(!(a == i && b == j));
        assert(claimed_upto(e, i, j, c));
    }
    if c == (e[i].0, e[i].1[j] as int) {
        assert(claimed_upto(e, i, j + 1, c));
    }
}

proof fn lemma_claimed_next_entry(e: Seq<(Seq<char>, Seq<u32>)>, i: int, c: Claim)
    requires
        0 <= i < e.len(),
    ensures
        claimed_upto(e, i, e[i].1.len() as int, c) <==> claimed_upto(e, i + 1, 0, c),
{
    if claimed_upto(e, i + 1, 0, c) {
        let (a, b) = choose|a: int, b: int|
            0 <= a < e.len() && 0 <= b < e[a].1.len() && (a < i + 1 || (a == i + 1 && b < 0))
                && e[a].0 == c.0 && e[a].1[b] as int == c.1;
        assert(claimed_upto(e, i, e[i].1.len() as int, c));
    }
}

proof fn lemma_claimed_all(e: Seq<(Seq<char>, Seq<u32>)>)
    ensures
        forall|c: Claim| claimed_upto(e, e.len() as int, 0, c) <==> #[trigger] entry_claims(e).contains(c),
{
    assert forall|c: Claim| claimed_upto(e, e.len() as int, 0, c) <==> #[trigger] entry_claims(
        e,
    ).contains(c) by {
        if entry_claims(e).contains(c) {
            let (a, b) = choose|a: int, b: int|
                0 <= a < e.len() && 0 <= b < e[a].1.len() && e[a].0 == c.0 && e[a].1[b] as int
                    == c.1;
            assert(claimed_upto(e, e.len() as int, 0, c));
        }
    }
}

proof fn lemma_top_unique(claims: Set<Claim>, w: Seq<char>, p: int)
    requires
        is_top_claim(claims, w, p),
    ensures
        slot_word(claims, p) == Some(w),
{
    let v = choose|v: Seq<char>| is_top_claim(claims, v, p);
    assert(is_top_claim(claims, v, p));
    if v != w {
        assert(claims.contains((v, p)));
        assert(claims.contains((w, p)));
        assert(word_lt(w, v));
        lemma_word_lt_asymmetric(w, v);
    }
}

proof fn lemma_unclaimed_tail(claims: Set<Claim>, k: nat, n: nat)
    requires
        k <= n,
        forall|w: Seq<char>, p: int| p >= k ==> !claims.contains((w, p)),
    ensures
        slot_words(claims, n) == slot_words(claims, k),
    decreases n - k,
{
    if n > k {
        lemma_unclaimed_tail(claims, k, (n - 1) as nat);
        let q: int = n - 1;
        assert(!(exists|w: Seq<char>| is_top_claim(claims, w, q)));
    }
}

/// Relies on `<str as PartialOrd>::gt`: strings compare lexicographically by
/// their UTF-8 bytes, which orders them as their code points do.
#[verifier::external_body]
fn word_greater(a: &str, b: &str) -> (r: bool)
    ensures
        r == word_lt(b@, a@),
{
    a > b
}

/// The table of slots agrees with the claims seen so far: a filled slot holds
/// the greatest word claiming it, an empty one is unclaimed, and nothing past
/// the table is claimed.
pub open spec fn slots_hold(ws: Seq<Option<String>>, seen: Set<Claim>) -> bool {
    &&& ws.len() <= position_limit()
    &&& forall|p: int|
        0 <= p < ws.len() ==> match #[trigger] ws[p] {
            Some(w) => is_top_claim(seen, w@, p),
            None => forall|w: Seq<char>| !seen.contains((w, p)),
        }
    &&& forall|w: Seq<char>, p: int| p >= ws.len() ==> !#[trigger] seen.contains((w, p))
}

/// Rebuilds the text from (word, positions) entries, in whatever order they
/// come: each position takes the greatest word claiming it, unclaimed
/// positions are skipped, and the words are joined by single spaces and
/// trimmed. `None` where nothing is left.
pub fn revert_entries(entries: &Vec<(String, Vec<u32>)>) -> (r: Option<String>)
    ensures
        r.deep_view() == reverted_text(entry_claims(entries.deep_view())),
{
    let ghost e = entries.deep_view();
    let ghost mut seen: Set<Claim> = Set::empty();
    let mut words: Vec<Option<String>> = Vec::new();
    let mut i: usize = 0;
    while i < entries.len()
        invariant
            e == entries.deep_view(),
            i <= entries.len(),
            forall|c: Claim| seen.contains(c) <==> claimed_upto(e, i as int, 0, c),
            slots_hold(words@, seen),
        decreases entries.len() - i,
    {
        let word = &entries[i].0;
        let positions = &entries[i].1;
        assert(e[i as int] == (word@, positions@));
        let mut j: usize = 0;
        while j < positions.len()
            invariant
                e == entries.deep_view(),
                i < entries.len(),
                e[i as int] == (word@, positions@),
                j <= positions.len(),
                forall|c: Claim| seen.contains(c) <==> claimed_upto(e, i as int, j as int, c),
                slots_hold(words@, seen),
            decreases positions.len() - j,
        {
            let idx = positions[j] as usize;
            let ghost claim: Claim = (word@, idx as int);
            proof {
                assert forall|c: Claim| seen.insert(claim).contains(c) <==> claimed_upto(
                    e,
                    i as int,
                    j + 1,
                    c,
                ) by {
                    lemma_claimed_step(e, i as int, j as int, c);
                }
            }
            while words.len() <= idx
                invariant
                    slots_hold(words@, seen),
                    idx < position_limit(),
                decreases idx + 1 - words.len(),
            {
                words.push(None);
            }
            let replace = match &words[idx] {
                None => true,
                Some(cur) => word_greater(word.as_str(), cur.as_str()),
            };
            let ghost old_words = words@;
            let ghost seen2 = seen.insert(claim);
            if replace {
                words.set(idx, Some(word.clone()));
                proof {
                    assert forall|w2: Seq<char>| #[trigger] seen2.contains((w2, idx as int)) implies w2
                        == word@ || word_lt(w2, word@) by {
                        if w2 != word@ {
                            if let Some(cur) = old_words[idx as int] {
                                assert(seen.contains((w2, idx as int)));
                                if w2 != cur@ {
                                    lemma_word_lt_transitive(w2, cur@, word@);
                                }
                            }
                        }
                    }
                }
            } else {
                proof {
                    let cur = old_words[idx as int]->0;
                    if word@ != cur@ {
                        lemma_word_lt_total(word@, cur@);
                    }
                }
            }
            proof {
                assert forall|p: int| 0 <= p < words@.len() implies match #[trigger] words@[p] {
                    Some(w) => is_top_claim(seen2, w@, p),
                    None => forall|w: Seq<char>| !seen2.contains((w, p)),
                } by {
                    if p != idx as int {
                        assert(words@[p] == old_words[p]);
                        match words@[p] {
                            Some(w) => {
                                assert forall|w2: Seq<char>| #[trigger] seen2.contains((w2, p)) implies w2
                                    == w@ || word_lt(w2, w@) by {
                                    assert(seen.contains((w2, p)));
                                }
                            },
                            None => {},
                        }
                    }
                }
                seen = seen2;
            }
            j = j + 1;
        }
        proof {
            assert forall|c: Claim| seen.contains(c) <==> claimed_upto(e, i + 1, 0, c) by {
                lemma_claimed_next_entry(e, i as int, c);
            }
        }
        i = i + 1;
    }
    let ghost claims = entry_claims(e);
    proof {
        lemma_claimed_all(e);
        assert(seen =~= claims);
    }
    let mut present: Vec<String> = Vec::new();
    let mut k: usize = 0;
    while k < words.len()
        invariant
            k <= words.len(),
            slots_hold(words@, claims),
            present.deep_view() == slot_words(claims, k as nat),
        decreases words.len() - k,
    {
        let ghost before = present.deep_view();
        match &words[k] {
            Some(w) => {
                proof {
                    lemma_top_unique(claims, w@, k as int);
                }
                present.push(w.clone());
                assert(present.deep_view() =~= before.push(w@));
            },
            None => {
                let ghost q = k as int;
                assert(!(exists|w: Seq<char>| is_top_claim(claims, w, q)));
            },
        }
        k = k + 1;
    }
    proof {
        lemma_unclaimed_tail(claims, words.len() as nat, position_limit());
    }
    let joined = join_with_spaces(&present);
    let t = trim_str(joined.as_str());
    if t.is_empty() {
        None
    } else {
        Some(String::from_str(t))
    }
}

/// The word-to-positions map that `serde_json::from_slice` decodes from the
/// bytes, or `None` where they are not such a JSON object.
pub uninterp spec fn decoded_index(b: Seq<u8>) -> Option<Map<Seq<char>, Seq<u32>>>;

/// The entries list exactly the keys of `m`, each with its positions.
pub open spec fn entries_list_map(e: Seq<(Seq<char>, Seq<u32>)>, m: Map<Seq<char>, Seq<u32>>) -> bool {
    &&& forall|a: int| 0 <= a < e.len() ==> m.contains_key(#[trigger] e[a].0) && m[e[a].0] == e[a].1
    &&& forall|k: Seq<char>| #[trigger] m.contains_key(k) ==> exists|a: int| 0 <= a < e.len() && e[a].0 == k
}

/// Relies on `serde_json::from_slice` into a `HashMap<String, Vec<u32>>`,
/// whose entries come out in the map's own (unspecified) order.
#[verifier::external_body]
fn decode_index(b: &[u8]) -> (r: Option<Vec<(String, Vec<u32>)>>)
    ensures
        r is Some <==> decoded_index(b@) is Some,
        r matches Some(v) ==> entries_list_map(v.deep_view(), decoded_index(b@)->0),
{
    serde_json::from_slice::<std::collections::HashMap<String, Vec<u32>>>(b).ok().map(
        |m| m.into_iter().collect(),
    )
}

proof fn lemma_entries_claims(e: Seq<(Seq<char>, Seq<u32>)>, m: Map<Seq<char>, Seq<u32>>)
    requires
        entries_list_map(e, m),
    ensures
        entry_claims(e) == map_claims(m),
{
    assert forall|c: Claim| entry_claims(e).contains(c) <==> map_claims(m).contains(c) by {
        if entry_claims(e).contains(c) {
            let (a, b) = choose|a: int, b: int|
                0 <= a < e.len() && 0 <= b < e[a].1.len() && e[a].0 == c.0 && e[a].1[b] as int
                    == c.1;
            assert(m.contains_key(e[a].0));
        }
        if map_claims(m).contains(c) {
            let b = choose|b: int| 0 <= b < m[c.0].len() && m[c.0][b] as int == c.1;
            assert(m.contains_key(c.0));
            let a = choose|a: int| 0 <= a < e.len() && e[a].0 == c.0;
            assert(e[a].1[b] as int == c.1);
        }
    }
    assert(entry_claims(e) =~= map_claims(m));
}

/// What `revert_inverted_index` returns for optional bytes.
pub open spec fn revert_model(text: Option<Seq<u8>>) -> Option<Seq<char>> {
    match text {
        None => None,
        Some(b) => if b.len() == 0 {
            None
        } else {
            match decoded_index(b) {
                None => None,
                Some(m) => reverted_text(map_claims(m)),
            }
        },
    }
}

/// Rebuilds text from a JSON-encoded inverted index. Absent or empty input,
/// and bytes that are not a JSON object of word to position list, give `None`.
pub fn revert_inverted_index(text: Option<&[u8]>) -> (r: Option<String>)
    ensures
        r.deep_view() == revert_model(
            match text {
                Some(b) => Some(b@),
                None => None,
            },
        ),
        text is None ==> r is None,
        text matches Some(b) && b@.len() == 0 ==> r is None,
        text matches Some(b) && decoded_index(b@) is None ==> r is None,
{
    let bytes = match text {
        Some(b) => b,
        None => return None,
    };
    if bytes.len() == 0 {
        return None;
    }
    match decode_index(bytes) {
        None => None,
        Some(entries) => {
            proof {
                lemma_entries_claims(entries.deep_view(), decoded_index(bytes@)->0);
            }
            revert_entries(&entries)
        },
    }
}

/// The rebuilt text does not depend on the order in which the entries are
/// listed: any two lists holding the same entries give the same text.
pub proof fn lemma_revert_order_free(e1: Seq<(Seq<char>, Seq<u32>)>, e2: Seq<(Seq<char>, Seq<u32>)>)
    requires
        forall|x: (Seq<char>, Seq<u32>)| e1.contains(x) <==> e2.contains(x),
    ensures
        reverted_text(entry_claims(e1)) == reverted_text(entry_claims(e2)),
{
    assert forall|c: Claim| entry_claims(e1).contains(c) implies entry_claims(e2).contains(c) by {
        let (a, b) = choose|a: int, b: int|
            0 <= a < e1.len() && 0 <= b < e1[a].1.len() && e1[a].0 == c.0 && e1[a].1[b] as int
                == c.1;
        assert(e1.contains(e1[a]));
        let a2 = choose|a2: int| 0 <= a2 < e2.len() && e2[a2] == e1[a];
        assert(e2[a2].1[b] as int == c.1);
    }
    assert forall|c: Claim| entry_claims(e2).contains(c) implies entry_claims(e1).contains(c) by {
        let (a, b) = choose|a: int, b: int|
            0 <= a < e2.len() && 0 <= b < e2[a].1.len() && e2[a].0 == c.0 && e2[a].1[b] as int
                == c.1;
        assert(e2.contains(e2[a]));
        let a1 = choose|a1: int| 0 <= a1 < e1.len() && e1[a1] == e2[a];
        assert(e1[a1].1[b] as int == c.1);
    }
    assert(entry_claims(e1) =~= entry_claims(e2));
}

} // verus!
