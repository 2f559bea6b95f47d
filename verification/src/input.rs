//! Parsing of console input: the tag entry, one comma-separated line.
//! Each comma-separated piece is trimmed of surrounding whitespace and
//! empty pieces are dropped; the order of the remaining tags is kept.

use vstd::prelude::*;
use crate::codec::str_to_chars;
use crate::ext::{char_is_whitespace, is_whitespace, string_from_chars};

verus! {

/// The position of the first comma, or -1 if there is none.
pub open spec fn first_comma(s: Seq<char>) -> int
    decreases s.len(),
{
    if s.len() == 0 {
        -1
    } else if s[0] == ',' {
        0
    } else {
        let r = first_comma(s.skip(1));
        if r < 0 {
            -1
        } else {
            r + 1
        }
    }
}

proof fn lemma_first_comma(s: Seq<char>)
    ensures
        first_comma(s) >= -1,
        first_comma(s) == -1 ==> (forall|k: int| 0 <= k < s.len() ==> s[k] != ','),
        first_comma(s) >= 0 ==> first_comma(s) < s.len() && s[first_comma(s)] == ',' && (forall|
            k: int,
        | 0 <= k < first_comma(s) ==> s[k] != ','),
    decreases s.len(),
{
    if s.len() == 0 {
    } else if s[0] == ',' {
    } else {
        lemma_first_comma(s.skip(1));
        let t = s.skip(1);
        let r = first_comma(t);
        assert(forall|m: int| 0 <= m < t.len() ==> t[m] == s[m + 1]);
        if r < 0 {
            assert(forall|k: int| 1 <= k < s.len() ==> s[k] == t[k - 1]);
        } else {
            assert(s[r + 1] == t[r]);
            assert(forall|k: int| 1 <= k < r + 1 ==> s[k] == t[k - 1]);
        }
    }
}

/// The sequence without its leading whitespace.
pub open spec fn drop_leading(s: Seq<char>) -> Seq<char>
    decreases s.len(),
{
    if s.len() > 0 && is_whitespace(s[0]) {
        drop_leading(s.skip(1))
    } else {
        s
    }
}

/// The sequence without its trailing whitespace.
pub open spec fn drop_trailing(s: Seq<char>) -> Seq<char>
    decreases s.len(),
{
    if s.len() > 0 && is_whitespace(s[s.len() - 1]) {
        drop_trailing(s.take(s.len() - 1))
    } else {
        s
    }
}

/// The sequence without surrounding whitespace.
pub open spec fn trimmed(s: Seq<char>) -> Seq<char> {
    drop_trailing(drop_leading(s))
}

/// The comma-separated pieces of the line, untrimmed, empty pieces
/// included.
pub open spec fn split_commas(s: Seq<char>) -> Seq<Seq<char>>
    decreases s.len(),
{
    let i = first_comma(s);
    if 0 <= i < s.len() {
        seq![s.take(i)] + split_commas(s.skip(i + 1))
    } else {
        seq![s]
    }
}

/// Each piece trimmed, empty pieces dropped, order kept.
pub open spec fn cleaned(ps: Seq<Seq<char>>) -> Seq<Seq<char>>
    decreases ps.len(),
{
    if ps.len() == 0 {
        Seq::empty()
    } else {
        let t = trimmed(ps[0]);
        (if t.len() > 0 {
            seq![t]
        } else {
            Seq::<Seq<char>>::empty()
        }) + cleaned(ps.skip(1))
    }
}

/// The tags entered as one comma-separated line.
pub open spec fn tags_of_line(s: Seq<char>) -> Seq<Seq<char>> {
    cleaned(split_commas(s))
}

proof fn lemma_drop_leading_at(s: Seq<char>, k: int)
    requires
        0 <= k <= s.len(),
        forall|m: int| 0 <= m < k ==> is_whitespace(s[m]),
        k == s.len() || !is_whitespace(s[k]),
    ensures
        drop_leading(s) == s.skip(k),
    decreases k,
{
    if k == 0 {
        assert(s.skip(0) =~= s);
    } else {
        assert(is_whitespace(s[0]));
        let t = s.skip(1);
        assert(forall|m: int| 0 <= m < t.len() ==> t[m] == s[m + 1]);
        lemma_drop_leading_at(t, k - 1);
        assert(t.skip(k - 1) =~= s.skip(k));
    }
}

proof fn lemma_drop_trailing_at(s: Seq<char>, k: int)
    requires
        0 <= k <= s.len(),
        forall|m: int| k <= m < s.len() ==> is_whitespace(s[m]),
        k == 0 || !is_whitespace(s[k - 1]),
    ensures
        drop_trailing(s) == s.take(k),
    decreases s.len() - k,
{
    if k == s.len() {
        assert(s.take(k) =~= s);
    } else {
        assert(is_whitespace(s[s.len() - 1]));
        let t = s.take(s.len() - 1);
        assert(forall|m: int| 0 <= m < t.len() ==> t[m] == s[m]);
        lemma_drop_trailing_at(t, k);
        assert(t.take(k) =~= s.take(k));
    }
}

/// The copy of `v[a..b]` without surrounding whitespace.
fn trim_chars(v: &Vec<char>, a: usize, b: usize) -> (r: Vec<char>)
    requires
        a <= b <= v@.len(),
    ensures
        r@ == trimmed(v@.subrange(a as int, b as int)),
{
    let ghost s = v@.subrange(a as int, b as int);
    let mut lo = a;
    while lo < b && char_is_whitespace(v[lo])
        invariant
            a <= lo <= b <= v@.len(),
            s == v@.subrange(a as int, b as int),
            forall|m: int| 0 <= m < lo - a ==> is_whitespace(s[m]),
        decreases b - lo,
    {
        lo = lo + 1;
    }
    proof {
        lemma_drop_leading_at(s, lo - a);
    }
    let ghost d = s.skip(lo - a);
    assert(d == drop_leading(s));
    let mut hi = b;
    while hi > lo && char_is_whitespace(v[hi - 1])
        invariant
            a <= lo <= hi <= b <= v@.len(),
            s == v@.subrange(a as int, b as int),
            d == s.skip(lo - a),
            forall|m: int| hi - lo <= m < d.len() ==> is_whitespace(d[m]),
        decreases hi - lo,
    {
        proof {
            assert(d[hi - 1 - lo] == s[hi - 1 - a]);
            assert(s[hi - 1 - a] == v@[hi - 1]);
        }
        hi = hi - 1;
    }
    proof {
        if hi > lo {
            assert(d[hi - 1 - lo] == v@[hi - 1]);
        }
        lemma_drop_trailing_at(d, hi - lo);
    }
    let mut r: Vec<char> = Vec::new();
    let mut m = lo;
    while m < hi
        invariant
            a <= lo <= m <= hi <= b <= v@.len(),
            r@.len() == m - lo,
            forall|i: int| 0 <= i < r@.len() ==> r@[i] == v@[lo + i],
        decreases hi - m,
    {
        r.push(v[m]);
        m = m + 1;
    }
    proof {
        assert(r@ =~= d.take(hi - lo));
    }
    r
}

/// Append the tags of the line from position `i` on.
fn append_tags(v: &Vec<char>, i: usize, out: &mut Vec<String>)
    requires
        i <= v@.len(),
    ensures
        final(out).deep_view() == old(out).deep_view() + cleaned(split_commas(v@.skip(i as int))),
    decreases v@.len() - i,
{
    let ghost s = v@.skip(i as int);
    let mut j = i;
    while j < v.len() && v[j] != ','
        invariant
            i <= j <= v@.len(),
            forall|m: int| i <= m < j ==> v@[m] != ',',
        decreases v@.len() - j,
    {
        j = j + 1;
    }
    proof {
        lemma_first_comma(s);
        assert(forall|m: int| 0 <= m < s.len() ==> s[m] == v@[i + m]);
        let f = first_comma(s);
        if j < v.len() {
            assert(s[j - i] == ',');
            if f < j - i {
                assert(s[f] != ',');
            }
            if f > j - i || f < 0 {
                assert(s[j - i] != ',');
            }
            assert(f == j - i);
        } else {
            if f >= 0 {
                assert(s[f] != ',');
            }
            assert(f == -1);
        }
    }
    if j < v.len() {
        let ghost f = first_comma(s);
        proof {
            assert(s.take(f) =~= v@.subrange(i as int, j as int));
            assert(s.skip(f + 1) =~= v@.skip(j + 1 as int));
            assert(split_commas(s) == seq![s.take(f)] + split_commas(s.skip(f + 1)));
        }
        let ghost pieces = split_commas(s);
        proof {
            assert(pieces.len() >= 1);
            assert(pieces[0] == s.take(f));
            assert(pieces.skip(1) =~= split_commas(s.skip(f + 1)));
        }
        let t = trim_chars(v, i, j);
        let ghost base = out.deep_view();
        if t.len() > 0 {
            let tag = string_from_chars(&t);
            out.push(tag);
            proof {
                assert(out.deep_view() =~= base + seq![t@]);
            }
        }
        append_tags(v, j + 1, out);
        proof {
            if t@.len() > 0 {
                assert(final(out).deep_view() =~= base + cleaned(pieces));
            } else {
                assert(final(out).deep_view() =~= base + cleaned(pieces));
            }
        }
    } else {
        proof {
            assert(split_commas(s) == seq![s]);
            assert(s =~= v@.subrange(i as int, v@.len() as int));
        }
        let t = trim_chars(v, i, v.len());
        let ghost base = out.deep_view();
        if t.len() > 0 {
            let tag = string_from_chars(&t);
            out.push(tag);
            proof {
                assert(out.deep_view() =~= base + seq![t@]);
            }
        }
        proof {
            let pieces = seq![s];
            assert(pieces.skip(1) =~= Seq::<Seq<char>>::empty());
            assert(cleaned(pieces.skip(1)) == Seq::<Seq<char>>::empty());
            if t@.len() > 0 {
                assert(seq![trimmed(s)] + Seq::<Seq<char>>::empty() =~= seq![trimmed(s)]);
                assert(final(out).deep_view() =~= base + cleaned(pieces));
            } else {
                assert(Seq::<Seq<char>>::empty() + Seq::<Seq<char>>::empty()
                    =~= Seq::<Seq<char>>::empty());
                assert(final(out).deep_view() =~= base + cleaned(pieces));
            }
        }
    }
}

/// The tags entered as one comma-separated line: each comma-separated
/// piece trimmed of surrounding whitespace, empty pieces dropped, order
/// kept.
pub fn parse_tags_line(line: &str) -> (r: Vec<String>)
    ensures
        r.deep_view() == tags_of_line(line@),
{
    let v = str_to_chars(line);
    let mut out: Vec<String> = Vec::new();
    proof {
        assert(out.deep_view() =~= Seq::<Seq<char>>::empty());
    }
    append_tags(&v, 0, &mut out);
    proof {
        assert(v@.skip(0) =~= line@);
        assert(Seq::<Seq<char>>::empty() + tags_of_line(line@) =~= tags_of_line(line@));
    }
    out
}

} // verus!
