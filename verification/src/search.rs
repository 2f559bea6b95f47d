//! Free-text search over the collection: a note matches when the
//! case-folded query is a substring of its case-folded title, content, or
//! any of its case-folded tags. Results keep the collection's order.

use vstd::prelude::*;
use crate::ext::folded;
use crate::note::NoteView;

verus! {

/// `needle` occurs as a contiguous substring of `hay`.
pub open spec fn seq_contains(hay: Seq<char>, needle: Seq<char>) -> bool {
    exists|k: int|
        0 <= k && k + needle.len() <= hay.len() && #[trigger] hay.subrange(
            k,
            k + needle.len() as int,
        ) == needle
}

/// The note matches the query once both sides are case-folded.
pub open spec fn note_matches(n: NoteView, q: Seq<char>) -> bool {
    ||| seq_contains(folded(n.title), folded(q))
    ||| seq_contains(folded(n.content), folded(q))
    ||| exists|t: int| 0 <= t < n.tags.len() && seq_contains(folded(#[trigger] n.tags[t]), folded(q))
}

/// The matching notes, in collection order.
pub open spec fn spec_search(s: Seq<NoteView>, q: Seq<char>) -> Seq<NoteView>
    decreases s.len(),
{
    if s.len() == 0 {
        Seq::empty()
    } else {
        let rest = spec_search(s.skip(1), q);
        if note_matches(s[0], q) {
            seq![s[0]] + rest
        } else {
            rest
        }
    }
}

proof fn lemma_spec_search_append(a: Seq<NoteView>, b: Seq<NoteView>, q: Seq<char>)
    ensures
        spec_search(a + b, q) == spec_search(a, q) + spec_search(b, q),
    decreases a.len(),
{
    if a.len() == 0 {
        assert(a + b =~= b);
        assert(spec_search(a, q) + spec_search(b, q) =~= spec_search(b, q));
    } else {
        assert((a + b).skip(1) =~= a.skip(1) + b);
        lemma_spec_search_append(a.skip(1), b, q);
        assert(spec_search(a + b, q) =~= spec_search(a, q) + spec_search(b, q));
    }
}

pub(crate) proof fn lemma_spec_search_take_step(s: Seq<NoteView>, q: Seq<char>, i: int)
    requires
        0 <= i < s.len(),
    ensures
        spec_search(s.take(i + 1), q) == spec_search(s.take(i), q) + (if note_matches(s[i], q) {
            seq![s[i]]
        } else {
            Seq::<NoteView>::empty()
        }),
{
    let single = seq![s[i]];
    assert(s.take(i + 1) =~= s.take(i) + single);
    lemma_spec_search_append(s.take(i), single, q);
    assert(spec_search(single, q) == (if note_matches(s[i], q) {
        seq![s[i]]
    } else {
        Seq::<NoteView>::empty()
    })) by {
        reveal_with_fuel(spec_search, 2);
        assert(single.skip(1) =~= Seq::<NoteView>::empty());
        if note_matches(s[i], q) {
            assert(seq![s[i]] + Seq::<NoteView>::empty() =~= seq![s[i]]);
        }
    }
}

/// The results of a search depend on the query only through its case-folded
/// form: two queries that fold to the same characters give identical
/// results on every collection.
pub proof fn lemma_search_case_insensitive(s: Seq<NoteView>, q1: Seq<char>, q2: Seq<char>)
    requires
        folded(q1) == folded(q2),
    ensures
        spec_search(s, q1) == spec_search(s, q2),
    decreases s.len(),
{
    if s.len() > 0 {
        lemma_search_case_insensitive(s.skip(1), q1, q2);
    }
}

/// Search is read-only and deterministic: any two searches of the same
/// collection with the same query return the same results.
pub proof fn lemma_search_idempotent(
    s: Seq<NoteView>,
    q: Seq<char>,
    r1: Seq<NoteView>,
    r2: Seq<NoteView>,
)
    requires
        r1 == spec_search(s, q),
        r2 == spec_search(s, q),
    ensures
        r1 == r2,
{
}

/// Whether `needle@` occurs at position `k` of `hay@`.
fn window_matches(hay: &Vec<char>, needle: &Vec<char>, k: usize) -> (b: bool)
    requires
        k + needle@.len() <= hay@.len(),
    ensures
        b == (hay@.subrange(k as int, k + needle@.len() as int) == needle@),
{
    let nl = needle.len();
    let hl = hay.len();
    let mut j: usize = 0;
    while j < nl
        invariant
            nl == needle@.len(),
            hl == hay@.len(),
            k + needle@.len() <= hay@.len(),
            j <= nl,
            forall|m: int| 0 <= m < j ==> hay@[k + m] == needle@[m],
        decreases nl - j,
    {
        if hay[k + j] != needle[j] {
            proof {
                assert(hay@.subrange(k as int, k + needle@.len() as int)[j as int]
                    != needle@[j as int]);
                assert(hay@.subrange(k as int, k + needle@.len() as int) != needle@);
            }
            return false;
        }
        j = j + 1;
    }
    proof {
        assert(hay@.subrange(k as int, k + needle@.len() as int) =~= needle@);
    }
    true
}

/// Whether `needle@` occurs as a substring of `hay@`.
pub(crate) fn seq_contains_exec(hay: &Vec<char>, needle: &Vec<char>) -> (b: bool)
    ensures
        b == seq_contains(hay@, needle@),
{
    let nl = needle.len();
    let hl = hay.len();
    if nl > hl {
        return false;
    }
    if nl == 0 {
        proof {
            assert(hay@.subrange(0, 0 + needle@.len() as int) =~= needle@);
        }
        return true;
    }
    let mut k: usize = 0;
    while k <= hl - nl
        invariant
            nl == needle@.len(),
            hl == hay@.len(),
            0 < nl <= hl,
            k <= hl - nl + 1,
            forall|m: int|
                0 <= m < k ==> #[trigger] hay@.subrange(m, m + needle@.len() as int) != needle@,
        decreases hl - nl + 1 - k,
    {
        if window_matches(hay, needle, k) {
            proof {
                assert(hay@.subrange(k as int, k + needle@.len() as int) == needle@);
            }
            return true;
        }
        k = k + 1;
    }
    proof {
        assert(!seq_contains(hay@, needle@)) by {
            assert(forall|m: int|
                0 <= m && m + needle@.len() <= hay@.len() ==> #[trigger] hay@.subrange(
                    m,
                    m + needle@.len() as int,
                ) != needle@);
        }
    }
    false
}

} // verus!
