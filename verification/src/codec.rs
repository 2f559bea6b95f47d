//! The persisted document: a JSON array of note objects with the fields
//! `id`, `title`, `content`, `created_at`, `updated_at` and `tags`, in that
//! order. The encoder renders the collection into exactly this form; the
//! parser accepts exactly this form and rejects everything else, which the
//! store then treats as a corrupt (hence empty) document.

use vstd::prelude::*;
use vstd::string::StrSliceExecFns;
use crate::ext::string_from_chars;
use crate::note::{Note, NoteView, views_of};

verus! {

// ---------------------------------------------------------------------------
// The document grammar, as spec functions on sequences of characters.
// ---------------------------------------------------------------------------

/// How one character is written inside a JSON string literal.
pub open spec fn escape_char(c: char) -> Seq<char> {
    if c == '"' {
        seq!['\\', '"']
    } else if c == '\\' {
        seq!['\\', '\\']
    } else if c == '\n' {
        seq!['\\', 'n']
    } else if c == '\t' {
        seq!['\\', 't']
    } else if c == '\r' {
        seq!['\\', 'r']
    } else {
        seq![c]
    }
}

/// The character named by an escape code, if the code is one the
/// encoder emits.
pub open spec fn unescape_char(c: char) -> Option<char> {
    if c == '"' {
        Some('"')
    } else if c == '\\' {
        Some('\\')
    } else if c == 'n' {
        Some('\n')
    } else if c == 't' {
        Some('\t')
    } else if c == 'r' {
        Some('\r')
    } else {
        None
    }
}

/// The body of a JSON string literal: every character escaped as needed.
pub open spec fn escape_seq(s: Seq<char>) -> Seq<char>
    decreases s.len(),
{
    if s.len() == 0 {
        Seq::empty()
    } else {
        escape_char(s[0]) + escape_seq(s.skip(1))
    }
}

/// A whole JSON string literal, quotes included.
pub open spec fn json_string(s: Seq<char>) -> Seq<char> {
    seq!['"'] + escape_seq(s) + seq!['"']
}

/// A comma-separated list of JSON string literals (no brackets).
pub open spec fn json_string_list(ss: Seq<Seq<char>>) -> Seq<char>
    decreases ss.len(),
{
    if ss.len() == 0 {
        Seq::empty()
    } else if ss.len() == 1 {
        json_string(ss[0])
    } else {
        json_string(ss[0]) + seq![','] + json_string_list(ss.skip(1))
    }
}

/// The tag array of one note.
pub open spec fn json_tags(ss: Seq<Seq<char>>) -> Seq<char> {
    seq!['['] + json_string_list(ss) + seq![']']
}

pub open spec fn key_id() -> Seq<char> {
    seq!['i', 'd']
}

pub open spec fn key_title() -> Seq<char> {
    seq!['t', 'i', 't', 'l', 'e']
}

pub open spec fn key_content() -> Seq<char> {
    seq!['c', 'o', 'n', 't', 'e', 'n', 't']
}

pub open spec fn key_created_at() -> Seq<char> {
    seq!['c', 'r', 'e', 'a', 't', 'e', 'd', '_', 'a', 't']
}

pub open spec fn key_updated_at() -> Seq<char> {
    seq!['u', 'p', 'd', 'a', 't', 'e', 'd', '_', 'a', 't']
}

pub open spec fn key_tags() -> Seq<char> {
    seq!['t', 'a', 'g', 's']
}

/// A quoted object key followed by the separating colon.
pub open spec fn quoted_key(key: Seq<char>) -> Seq<char> {
    seq!['"'] + key + seq!['"', ':']
}

/// One object member: quoted key, colon, value.
pub open spec fn json_member(key: Seq<char>, val: Seq<char>) -> Seq<char> {
    quoted_key(key) + val
}

/// One note as a JSON object, members in the fixed field order.
pub open spec fn json_note(n: NoteView) -> Seq<char> {
    seq!['{'] + json_member(key_id(), json_string(n.id)) + seq![','] + json_member(
        key_title(),
        json_string(n.title),
    ) + seq![','] + json_member(key_content(), json_string(n.content)) + seq![','] + json_member(
        key_created_at(),
        json_string(n.created_at),
    ) + seq![','] + json_member(key_updated_at(), json_string(n.updated_at)) + seq![',']
        + json_member(key_tags(), json_tags(n.tags)) + seq!['}']
}

/// A comma-separated list of note objects (no brackets).
pub open spec fn json_note_list(ns: Seq<NoteView>) -> Seq<char>
    decreases ns.len(),
{
    if ns.len() == 0 {
        Seq::empty()
    } else if ns.len() == 1 {
        json_note(ns[0])
    } else {
        json_note(ns[0]) + seq![','] + json_note_list(ns.skip(1))
    }
}

/// The whole persisted document: the collection as a JSON array.
pub open spec fn json_notes(ns: Seq<NoteView>) -> Seq<char> {
    seq!['['] + json_note_list(ns) + seq![']']
}

// ---------------------------------------------------------------------------
// The parser, as spec functions. Each function takes the remaining input
// and returns the parsed value together with the input left over, or
// nothing if the input does not start with the expected form.
// ---------------------------------------------------------------------------

/// Parse the body of a string literal after its opening quote, up to and
/// including the closing quote.
pub open spec fn parse_quoted(s: Seq<char>) -> Option<(Seq<char>, Seq<char>)>
    decreases s.len(),
{
    if s.len() == 0 {
        None
    } else if s[0] == '"' {
        Some((Seq::empty(), s.skip(1)))
    } else if s[0] == '\\' {
        if s.len() < 2 {
            None
        } else {
            match unescape_char(s[1]) {
                Some(c) => match parse_quoted(s.skip(2)) {
                    Some(p) => Some((seq![c] + p.0, p.1)),
                    None => None,
                },
                None => None,
            }
        }
    } else {
        match parse_quoted(s.skip(1)) {
            Some(p) => Some((seq![s[0]] + p.0, p.1)),
            None => None,
        }
    }
}

/// Parse a whole string literal, quotes included.
pub open spec fn parse_string(s: Seq<char>) -> Option<(Seq<char>, Seq<char>)> {
    if s.len() >= 1 && s[0] == '"' {
        parse_quoted(s.skip(1))
    } else {
        None
    }
}

/// Consume an exact sequence of characters.
pub open spec fn parse_exact(s: Seq<char>, lit: Seq<char>) -> Option<Seq<char>> {
    if lit.len() <= s.len() && s.take(lit.len() as int) == lit {
        Some(s.skip(lit.len() as int))
    } else {
        None
    }
}

/// Consume a quoted key, a colon, and a string value.
pub open spec fn parse_member(s: Seq<char>, key: Seq<char>) -> Option<(Seq<char>, Seq<char>)> {
    match parse_exact(s, quoted_key(key)) {
        Some(r) => parse_string(r),
        None => None,
    }
}

/// Parse the members of a non-empty string array after its opening
/// bracket, up to and including the closing bracket.
pub open spec fn parse_string_items(s: Seq<char>) -> Option<(Seq<Seq<char>>, Seq<char>)>
    decreases s.len(),
{
    match parse_string(s) {
        Some(p) => {
            let r = p.1;
            if r.len() >= 1 && r[0] == ',' {
                if r.skip(1).len() < s.len() {
                    match parse_string_items(r.skip(1)) {
                        Some(q) => Some((seq![p.0] + q.0, q.1)),
                        None => None,
                    }
                } else {
                    None
                }
            } else if r.len() >= 1 && r[0] == ']' {
                Some((seq![p.0], r.skip(1)))
            } else {
                None
            }
        },
        None => None,
    }
}

/// Parse a whole string array, brackets included.
pub open spec fn parse_tags(s: Seq<char>) -> Option<(Seq<Seq<char>>, Seq<char>)> {
    if s.len() >= 2 && s[0] == '[' && s[1] == ']' {
        Some((Seq::empty(), s.skip(2)))
    } else if s.len() >= 1 && s[0] == '[' {
        parse_string_items(s.skip(1))
    } else {
        None
    }
}

/// Parse one note object, braces included, members in the fixed order.
pub open spec fn parse_note(s: Seq<char>) -> Option<(NoteView, Seq<char>)> {
    if s.len() >= 1 && s[0] == '{' {
        match parse_member(s.skip(1), key_id()) {
            Some(p1) => match parse_exact(p1.1, seq![',']) {
                Some(r1) => match parse_member(r1, key_title()) {
                    Some(p2) => match parse_exact(p2.1, seq![',']) {
                        Some(r2) => match parse_member(r2, key_content()) {
                            Some(p3) => match parse_exact(p3.1, seq![',']) {
                                Some(r3) => match parse_member(r3, key_created_at()) {
                                    Some(p4) => match parse_exact(p4.1, seq![',']) {
                                        Some(r4) => match parse_member(r4, key_updated_at()) {
                                            Some(p5) => match parse_exact(p5.1, seq![',']) {
                                                Some(r5) => match parse_exact(
                                                    r5,
                                                    quoted_key(key_tags()),
                                                ) {
                                                    Some(r6) => match parse_tags(r6) {
                                                        Some(p6) => match parse_exact(
                                                            p6.1,
                                                            seq!['}'],
                                                        ) {
                                                            Some(r7) => Some(
                                                                (
                                                                    NoteView {
                                                                        id: p1.0,
                                                                        title: p2.0,
                                                                        content: p3.0,
                                                                        created_at: p4.0,
                                                                        updated_at: p5.0,
                                                                        tags: p6.0,
                                                                    },
                                                                    r7,
                                                                ),
                                                            ),
                                                            None => None,
                                                        },
                                                        None => None,
                                                    },
                                                    None => None,
                                                },
                                                None => None,
                                            },
                                            None => None,
                                        },
                                        None => None,
                                    },
                                    None => None,
                                },
                                None => None,
                            },
                            None => None,
                        },
                        None => None,
                    },
                    None => None,
                },
                None => None,
            },
            None => None,
        }
    } else {
        None
    }
}

/// Parse the members of a non-empty note array after its opening bracket,
/// up to and including the closing bracket.
pub open spec fn parse_note_items(s: Seq<char>) -> Option<(Seq<NoteView>, Seq<char>)>
    decreases s.len(),
{
    match parse_note(s) {
        Some(p) => {
            let r = p.1;
            if r.len() >= 1 && r[0] == ',' {
                if r.skip(1).len() < s.len() {
                    match parse_note_items(r.skip(1)) {
                        Some(q) => Some((seq![p.0] + q.0, q.1)),
                        None => None,
                    }
                } else {
                    None
                }
            } else if r.len() >= 1 && r[0] == ']' {
                Some((seq![p.0], r.skip(1)))
            } else {
                None
            }
        },
        None => None,
    }
}

/// Parse the whole persisted document. The document must be consumed
/// entirely; anything else is rejected.
pub open spec fn parse_notes(s: Seq<char>) -> Option<Seq<NoteView>> {
    if s.len() == 2 && s[0] == '[' && s[1] == ']' {
        Some(Seq::empty())
    } else if s.len() >= 1 && s[0] == '[' {
        match parse_note_items(s.skip(1)) {
            Some(p) => if p.1.len() == 0 {
                Some(p.0)
            } else {
                None
            },
            None => None,
        }
    } else {
        None
    }
}

// ---------------------------------------------------------------------------
// The parser consumes at least one character of its input.
// ---------------------------------------------------------------------------

proof fn lemma_parse_quoted_shrinks(s: Seq<char>)
    ensures
        (match parse_quoted(s) {
            Some(p) => p.1.len() < s.len(),
            None => true,
        }),
    decreases s.len(),
{
    if s.len() == 0 {
    } else if s[0] == '"' {
    } else if s[0] == '\\' {
        if s.len() >= 2 {
            lemma_parse_quoted_shrinks(s.skip(2));
        }
    } else {
        lemma_parse_quoted_shrinks(s.skip(1));
    }
}

proof fn lemma_parse_string_shrinks(s: Seq<char>)
    ensures
        (match parse_string(s) {
            Some(p) => p.1.len() < s.len(),
            None => true,
        }),
{
    if s.len() >= 1 && s[0] == '"' {
        lemma_parse_quoted_shrinks(s.skip(1));
    }
}

proof fn lemma_parse_member_shrinks(s: Seq<char>, key: Seq<char>)
    ensures
        (match parse_member(s, key) {
            Some(p) => p.1.len() < s.len(),
            None => true,
        }),
{
    match parse_exact(s, quoted_key(key)) {
        Some(r) => {
            lemma_parse_string_shrinks(r);
        },
        None => {},
    }
}

proof fn lemma_parse_string_items_shrinks(s: Seq<char>)
    ensures
        (match parse_string_items(s) {
            Some(p) => p.1.len() < s.len(),
            None => true,
        }),
    decreases s.len(),
{
    match parse_string(s) {
        Some(p) => {
            lemma_parse_string_shrinks(s);
            let r = p.1;
            if r.len() >= 1 && r[0] == ',' && r.skip(1).len() < s.len() {
                lemma_parse_string_items_shrinks(r.skip(1));
            }
        },
        None => {},
    }
}

proof fn lemma_parse_tags_shrinks(s: Seq<char>)
    ensures
        (match parse_tags(s) {
            Some(p) => p.1.len() < s.len(),
            None => true,
        }),
{
    if s.len() >= 2 && s[0] == '[' && s[1] == ']' {
    } else if s.len() >= 1 && s[0] == '[' {
        lemma_parse_string_items_shrinks(s.skip(1));
    }
}

proof fn lemma_parse_note_shrinks(s: Seq<char>)
    ensures
        (match parse_note(s) {
            Some(p) => p.1.len() < s.len(),
            None => true,
        }),
{
    if s.len() >= 1 && s[0] == '{' {
        lemma_parse_member_shrinks(s.skip(1), key_id());
        match parse_member(s.skip(1), key_id()) {
            Some(p1) => {
                match parse_exact(p1.1, seq![',']) {
                    Some(r1) => {
                        lemma_parse_member_shrinks(r1, key_title());
                        match parse_member(r1, key_title()) {
                            Some(p2) => {
                                match parse_exact(p2.1, seq![',']) {
                                    Some(r2) => {
                                        lemma_parse_member_shrinks(r2, key_content());
                                        match parse_member(r2, key_content()) {
                                            Some(p3) => {
                                                match parse_exact(p3.1, seq![',']) {
                                                    Some(r3) => {
                                                        lemma_parse_member_shrinks(
                                                            r3,
                                                            key_created_at(),
                                                        );
                                                        match parse_member(r3, key_created_at()) {
                                                            Some(p4) => {
                                                                match parse_exact(
                                                                    p4.1,
                                                                    seq![','],
                                                                ) {
                                                                    Some(r4) => {
                                                                        lemma_parse_member_shrinks(
                                                                            r4,
                                                                            key_updated_at(),
                                                                        );
                                                                        match parse_member(
                                                                            r4,
                                                                            key_updated_at(),
                                                                        ) {
                                                                            Some(p5) => {
                                                                                match parse_exact(
                                                                                    p5.1,
                                                                                    seq![','],
                                                                                ) {
                                                                                    Some(r5) => {
                                                                                        match parse_exact(
                                                                                            r5,
                                                                                            quoted_key(
                                                                                                key_tags(),
                                                                                            ),
                                                                                        ) {
                                                                                            Some(
                                                                                                r6,
                                                                                            ) => {
                                                                                                lemma_parse_tags_shrinks(
                                                                                                    r6,
                                                                                                );
                                                                                            },
                                                                                            None
                                                                                                => {
                                                                                            },
                                                                                        }
                                                                                    },
                                                                                    None => {},
                                                                                }
                                                                            },
                                                                            None => {},
                                                                        }
                                                                    },
                                                                    None => {},
                                                                }
                                                            },
                                                            None => {},
                                                        }
                                                    },
                                                    None => {},
                                                }
                                            },
                                            None => {},
                                        }
                                    },
                                    None => {},
                                }
                            },
                            None => {},
                        }
                    },
                    None => {},
                }
            },
            None => {},
        }
    }
}

// ---------------------------------------------------------------------------
// The parser inverts the encoder.
// ---------------------------------------------------------------------------

proof fn lemma_parse_quoted_round(t: Seq<char>, rest: Seq<char>)
    ensures
        parse_quoted(escape_seq(t) + seq!['"'] + rest) == Some((t, rest)),
    decreases t.len(),
{
    let s = escape_seq(t) + seq!['"'] + rest;
    if t.len() == 0 {
        assert(t =~= Seq::<char>::empty());
        assert(s =~= seq!['"'] + rest);
        assert(s[0] == '"');
        assert(s.skip(1) =~= rest);
    } else {
        let c = t[0];
        let tt = t.skip(1);
        lemma_parse_quoted_round(tt, rest);
        assert(escape_seq(t) == escape_char(c) + escape_seq(tt));
        assert(seq![c] + tt =~= t);
        if c == '"' || c == '\\' || c == '\n' || c == '\t' || c == '\r' {
            let e: char = escape_char(c)[1];
            assert(escape_char(c).len() == 2);
            assert(escape_char(c)[0] == '\\');
            assert(s.len() >= 2);
            assert(s[0] == '\\');
            assert(s[1] == e);
            assert(unescape_char(e) == Some(c));
            assert(s.skip(2) =~= escape_seq(tt) + seq!['"'] + rest);
            assert(parse_quoted(s) == Some((t, rest)));
        } else {
            assert(escape_char(c).len() == 1);
            assert(s[0] == c);
            assert(s.skip(1) =~= escape_seq(tt) + seq!['"'] + rest);
            assert(parse_quoted(s) == Some((t, rest)));
        }
    }
}

proof fn lemma_parse_string_round(t: Seq<char>, rest: Seq<char>)
    ensures
        parse_string(json_string(t) + rest) == Some((t, rest)),
{
    let s = json_string(t) + rest;
    assert(s[0] == '"');
    assert(s.skip(1) =~= escape_seq(t) + seq!['"'] + rest);
    lemma_parse_quoted_round(t, rest);
}

proof fn lemma_parse_exact_round(lit: Seq<char>, rest: Seq<char>)
    ensures
        parse_exact(lit + rest, lit) == Some(rest),
{
    let s = lit + rest;
    assert(s.take(lit.len() as int) =~= lit);
    assert(s.skip(lit.len() as int) =~= rest);
}

proof fn lemma_parse_member_round(key: Seq<char>, v: Seq<char>, rest: Seq<char>)
    ensures
        parse_member(json_member(key, json_string(v)) + rest, key) == Some((v, rest)),
{
    let s = json_member(key, json_string(v)) + rest;
    assert(s =~= quoted_key(key) + (json_string(v) + rest));
    lemma_parse_exact_round(quoted_key(key), json_string(v) + rest);
    lemma_parse_string_round(v, rest);
}

proof fn lemma_parse_string_items_round(ss: Seq<Seq<char>>, rest: Seq<char>)
    requires
        ss.len() >= 1,
    ensures
        parse_string_items(json_string_list(ss) + seq![']'] + rest) == Some((ss, rest)),
    decreases ss.len(),
{
    let s = json_string_list(ss) + seq![']'] + rest;
    if ss.len() == 1 {
        let tail = seq![']'] + rest;
        assert(s =~= json_string(ss[0]) + tail);
        lemma_parse_string_round(ss[0], tail);
        assert(tail[0] == ']');
        assert(tail.skip(1) =~= rest);
        assert(seq![ss[0]] =~= ss);
    } else {
        let tail2 = json_string_list(ss.skip(1)) + seq![']'] + rest;
        let tail = seq![','] + tail2;
        assert(s =~= json_string(ss[0]) + tail);
        lemma_parse_string_round(ss[0], tail);
        assert(tail[0] == ',');
        assert(tail.skip(1) =~= tail2);
        assert(json_string(ss[0]).len() >= 2);
        assert(tail2.len() < s.len());
        lemma_parse_string_items_round(ss.skip(1), rest);
        assert(seq![ss[0]] + ss.skip(1) =~= ss);
    }
}

proof fn lemma_parse_tags_round(ss: Seq<Seq<char>>, rest: Seq<char>)
    ensures
        parse_tags(json_tags(ss) + rest) == Some((ss, rest)),
{
    let s = json_tags(ss) + rest;
    if ss.len() == 0 {
        assert(ss =~= Seq::<Seq<char>>::empty());
        assert(s =~= seq!['[', ']'] + rest);
        assert(s.len() >= 2 && s[0] == '[' && s[1] == ']');
        assert(s.skip(2) =~= rest);
    } else {
        assert(s[0] == '[');
        assert(json_string_list(ss)[0] == '"') by {
            if ss.len() == 1 {
                assert(json_string_list(ss) == json_string(ss[0]));
            }
            assert(json_string(ss[0])[0] == '"');
        }
        assert(s[1] == '"');
        assert(!(s.len() >= 2 && s[0] == '[' && s[1] == ']'));
        assert(s.skip(1) =~= json_string_list(ss) + seq![']'] + rest);
        lemma_parse_string_items_round(ss, rest);
    }
}

#[verifier::rlimit(100)]
proof fn lemma_parse_note_round(n: NoteView, rest: Seq<char>)
    ensures
        parse_note(json_note(n) + rest) == Some((n, rest)),
{
    let s = json_note(n) + rest;
    let m1 = json_member(key_id(), json_string(n.id));
    let m2 = json_member(key_title(), json_string(n.title));
    let m3 = json_member(key_content(), json_string(n.content));
    let m4 = json_member(key_created_at(), json_string(n.created_at));
    let m5 = json_member(key_updated_at(), json_string(n.updated_at));
    let m6 = json_member(key_tags(), json_tags(n.tags));
    let a6 = m6 + (seq!['}'] + rest);
    let a5 = m5 + (seq![','] + a6);
    let a4 = m4 + (seq![','] + a5);
    let a3 = m3 + (seq![','] + a4);
    let a2 = m2 + (seq![','] + a3);
    let a1 = m1 + (seq![','] + a2);
    assert(s[0] == '{');
    assert(s.skip(1) =~= a1);
    lemma_parse_member_round(key_id(), n.id, seq![','] + a2);
    lemma_parse_exact_round(seq![','], a2);
    lemma_parse_member_round(key_title(), n.title, seq![','] + a3);
    lemma_parse_exact_round(seq![','], a3);
    lemma_parse_member_round(key_content(), n.content, seq![','] + a4);
    lemma_parse_exact_round(seq![','], a4);
    lemma_parse_member_round(key_created_at(), n.created_at, seq![','] + a5);
    lemma_parse_exact_round(seq![','], a5);
    lemma_parse_member_round(key_updated_at(), n.updated_at, seq![','] + a6);
    lemma_parse_exact_round(seq![','], a6);
    assert(a6 =~= quoted_key(key_tags()) + (json_tags(n.tags) + (seq!['}'] + rest)));
    lemma_parse_exact_round(quoted_key(key_tags()), json_tags(n.tags) + (seq!['}'] + rest));
    lemma_parse_tags_round(n.tags, seq!['}'] + rest);
    lemma_parse_exact_round(seq!['}'], rest);
    assert((NoteView {
        id: n.id,
        title: n.title,
        content: n.content,
        created_at: n.created_at,
        updated_at: n.updated_at,
        tags: n.tags,
    }) =~= n);
}

proof fn lemma_parse_note_items_round(ns: Seq<NoteView>, rest: Seq<char>)
    requires
        ns.len() >= 1,
    ensures
        parse_note_items(json_note_list(ns) + seq![']'] + rest) == Some((ns, rest)),
    decreases ns.len(),
{
    let s = json_note_list(ns) + seq![']'] + rest;
    if ns.len() == 1 {
        let tail = seq![']'] + rest;
        assert(s =~= json_note(ns[0]) + tail);
        lemma_parse_note_round(ns[0], tail);
        assert(tail[0] == ']');
        assert(tail.skip(1) =~= rest);
        assert(seq![ns[0]] =~= ns);
    } else {
        let tail2 = json_note_list(ns.skip(1)) + seq![']'] + rest;
        let tail = seq![','] + tail2;
        assert(s =~= json_note(ns[0]) + tail);
        lemma_parse_note_round(ns[0], tail);
        assert(tail[0] == ',');
        assert(tail.skip(1) =~= tail2);
        assert(tail2.len() < s.len());
        lemma_parse_note_items_round(ns.skip(1), rest);
        assert(seq![ns[0]] + ns.skip(1) =~= ns);
    }
}

/// The round trip through the persisted document: parsing the rendered
/// form of any collection yields exactly that collection, every field of
/// every note included, in the same order.
pub proof fn lemma_json_round_trip(ns: Seq<NoteView>)
    ensures
        parse_notes(json_notes(ns)) == Some(ns),
{
    let s = json_notes(ns);
    if ns.len() == 0 {
        assert(ns =~= Seq::<NoteView>::empty());
        assert(s =~= seq!['[', ']']);
        assert(s.len() == 2 && s[0] == '[' && s[1] == ']');
    } else {
        assert(json_note(ns[0]).len() >= 1);
        assert(json_note_list(ns).len() >= 1) by {
            if ns.len() == 1 {
                assert(json_note_list(ns) == json_note(ns[0]));
            }
        }
        assert(s.len() >= 3);
        assert(s[0] == '[');
        assert(s.skip(1) =~= json_note_list(ns) + seq![']'] + Seq::<char>::empty());
        lemma_parse_note_items_round(ns, Seq::<char>::empty());
    }
}

// ---------------------------------------------------------------------------
// Lemmas about the encoding.
// ---------------------------------------------------------------------------

proof fn lemma_escape_append(a: Seq<char>, b: Seq<char>)
    ensures
        escape_seq(a + b) == escape_seq(a) + escape_seq(b),
    decreases a.len(),
{
    if a.len() == 0 {
        assert(a + b =~= b);
        assert(escape_seq(a) + escape_seq(b) =~= escape_seq(b));
    } else {
        assert((a + b).skip(1) =~= a.skip(1) + b);
        lemma_escape_append(a.skip(1), b);
        assert(escape_seq(a + b) =~= escape_seq(a) + escape_seq(b));
    }
}

proof fn lemma_escape_take_step(s: Seq<char>, i: int)
    requires
        0 <= i < s.len(),
    ensures
        escape_seq(s.take(i + 1)) == escape_seq(s.take(i)) + escape_char(s[i]),
{
    let single = seq![s[i]];
    assert(s.take(i + 1) =~= s.take(i) + single);
    lemma_escape_append(s.take(i), single);
    assert(escape_seq(single) =~= escape_char(s[i])) by {
        reveal_with_fuel(escape_seq, 2);
        assert(single.skip(1) =~= Seq::<char>::empty());
    }
}

proof fn lemma_string_list_snoc(ss: Seq<Seq<char>>, x: Seq<char>)
    ensures
        json_string_list(ss.push(x)) == if ss.len() == 0 {
            json_string(x)
        } else {
            json_string_list(ss) + seq![','] + json_string_list(seq![x])
        },
    decreases ss.len(),
{
    let p = ss.push(x);
    if ss.len() == 0 {
        assert(p.len() == 1);
        assert(p[0] == x);
    } else if ss.len() == 1 {
        assert(p.len() == 2);
        assert(p.skip(1) =~= seq![x]);
        assert(json_string_list(ss) =~= json_string(ss[0]));
        assert(json_string_list(p) =~= json_string_list(ss) + seq![','] + json_string_list(
            seq![x],
        ));
    } else {
        assert(p.skip(1) =~= ss.skip(1).push(x));
        lemma_string_list_snoc(ss.skip(1), x);
        assert(json_string_list(p) =~= json_string_list(ss) + seq![','] + json_string_list(
            seq![x],
        ));
    }
}

proof fn lemma_note_list_snoc(ns: Seq<NoteView>, x: NoteView)
    ensures
        json_note_list(ns.push(x)) == if ns.len() == 0 {
            json_note(x)
        } else {
            json_note_list(ns) + seq![','] + json_note_list(seq![x])
        },
    decreases ns.len(),
{
    let p = ns.push(x);
    if ns.len() == 0 {
        assert(p.len() == 1);
        assert(p[0] == x);
    } else if ns.len() == 1 {
        assert(p.len() == 2);
        assert(p.skip(1) =~= seq![x]);
        assert(json_note_list(ns) =~= json_note(ns[0]));
        assert(json_note_list(p) =~= json_note_list(ns) + seq![','] + json_note_list(seq![x]));
    } else {
        assert(p.skip(1) =~= ns.skip(1).push(x));
        lemma_note_list_snoc(ns.skip(1), x);
        assert(json_note_list(p) =~= json_note_list(ns) + seq![','] + json_note_list(seq![x]));
    }
}

// ---------------------------------------------------------------------------
// The executable encoder.
// ---------------------------------------------------------------------------

/// The characters of a string slice, in order.
pub(crate) fn str_to_chars(s: &str) -> (r: Vec<char>)
    ensures
        r@ == s@,
{
    let n = s.unicode_len();
    let mut r: Vec<char> = Vec::new();
    let mut i: usize = 0;
    while i < n
        invariant
            n == s@.len(),
            i <= n,
            r@ == s@.take(i as int),
        decreases n - i,
    {
        r.push(s.get_char(i));
        i = i + 1;
        proof {
            assert(r@ =~= s@.take(i as int));
        }
    }
    proof {
        assert(s@.take(n as int) =~= s@);
    }
    r
}

/// Append one JSON string literal for `s` to `out`.
fn render_string_into(out: &mut Vec<char>, s: &String)
    ensures
        final(out)@ == old(out)@ + json_string(s@),
{
    let ghost base = out@;
    out.push('"');
    let cs = str_to_chars(s.as_str());
    let mut i: usize = 0;
    while i < cs.len()
        invariant
            cs@ == s@,
            i <= cs.len(),
            out@ == base + seq!['"'] + escape_seq(s@.take(i as int)),
        decreases cs.len() - i,
    {
        let c = cs[i];
        let ghost before = out@;
        if c == '"' {
            out.push('\\');
            out.push('"');
        } else if c == '\\' {
            out.push('\\');
            out.push('\\');
        } else if c == '\n' {
            out.push('\\');
            out.push('n');
        } else if c == '\t' {
            out.push('\\');
            out.push('t');
        } else if c == '\r' {
            out.push('\\');
            out.push('r');
        } else {
            out.push(c);
        }
        proof {
            assert(out@ =~= before + escape_char(s@[i as int]));
            lemma_escape_take_step(s@, i as int);
            assert(out@ =~= base + seq!['"'] + escape_seq(s@.take(i + 1 as int)));
        }
        i = i + 1;
    }
    out.push('"');
    proof {
        assert(s@.take(cs@.len() as int) =~= s@);
        assert(out@ =~= base + json_string(s@));
    }
}

/// Append the JSON array of tag strings to `out`.
fn render_tags_into(out: &mut Vec<char>, tags: &Vec<String>)
    ensures
        final(out)@ == old(out)@ + json_tags(tags.deep_view()),
{
    let ghost base = out@;
    let ghost tv = tags.deep_view();
    out.push('[');
    let mut i: usize = 0;
    while i < tags.len()
        invariant
            i <= tags.len(),
            tv == tags.deep_view(),
            tv.len() == tags@.len(),
            forall|k: int| 0 <= k < tv.len() ==> tv[k] == tags@[k]@,
            out@ == base + seq!['['] + json_string_list(tv.take(i as int)),
        decreases tags.len() - i,
    {
        if i > 0 {
            out.push(',');
        }
        render_string_into(out, &tags[i]);
        proof {
            assert(tv.take(i + 1 as int) =~= tv.take(i as int).push(tv[i as int]));
            lemma_string_list_snoc(tv.take(i as int), tv[i as int]);
            assert(json_string_list(seq![tv[i as int]]) == json_string(tv[i as int]));
            assert(out@ =~= base + seq!['['] + json_string_list(tv.take(i + 1 as int)));
        }
        i = i + 1;
    }
    out.push(']');
    proof {
        assert(tv.take(tags@.len() as int) =~= tv);
        assert(out@ =~= base + json_tags(tv));
    }
}

/// Append one object member whose value is a JSON string literal.
fn render_member_into(out: &mut Vec<char>, key_lit: &Vec<char>, s: &String, Ghost(key): Ghost<
    Seq<char>,
>)
    requires
        key_lit@ == quoted_key(key),
    ensures
        final(out)@ == old(out)@ + json_member(key, json_string(s@)),
{
    let ghost base = out@;
    let mut k = key_lit.clone();
    proof {
        assert(k@ =~= key_lit@);
    }
    out.append(&mut k);
    render_string_into(out, s);
    proof {
        assert(out@ =~= base + json_member(key, json_string(s@)));
    }
}

/// Append one note object to `out`.
#[verifier::rlimit(100)]
fn render_note_into(out: &mut Vec<char>, n: &Note)
    ensures
        final(out)@ == old(out)@ + json_note(n@),
{
    let ghost base = out@;
    out.push('{');
    let kid: Vec<char> = vec!['"', 'i', 'd', '"', ':'];
    proof {
        assert(kid@ =~= quoted_key(key_id()));
    }
    render_member_into(out, &kid, &n.id, Ghost(key_id()));
    out.push(',');
    let ktitle: Vec<char> = vec!['"', 't', 'i', 't', 'l', 'e', '"', ':'];
    proof {
        assert(ktitle@ =~= quoted_key(key_title()));
    }
    render_member_into(out, &ktitle, &n.title, Ghost(key_title()));
    out.push(',');
    let kcontent: Vec<char> = vec!['"', 'c', 'o', 'n', 't', 'e', 'n', 't', '"', ':'];
    proof {
        assert(kcontent@ =~= quoted_key(key_content()));
    }
    render_member_into(out, &kcontent, &n.content, Ghost(key_content()));
    out.push(',');
    let kcreated: Vec<char> = vec![
        '"',
        'c',
        'r',
        'e',
        'a',
        't',
        'e',
        'd',
        '_',
        'a',
        't',
        '"',
        ':',
    ];
    proof {
        assert(kcreated@ =~= quoted_key(key_created_at()));
    }
    render_member_into(out, &kcreated, &n.created_at, Ghost(key_created_at()));
    out.push(',');
    let kupdated: Vec<char> = vec![
        '"',
        'u',
        'p',
        'd',
        'a',
        't',
        'e',
        'd',
        '_',
        'a',
        't',
        '"',
        ':',
    ];
    proof {
        assert(kupdated@ =~= quoted_key(key_updated_at()));
    }
    render_member_into(out, &kupdated, &n.updated_at, Ghost(key_updated_at()));
    out.push(',');
    let mut ktags: Vec<char> = vec!['"', 't', 'a', 'g', 's', '"', ':'];
    proof {
        assert(ktags@ =~= quoted_key(key_tags()));
    }
    out.append(&mut ktags);
    render_tags_into(out, &n.tags);
    out.push('}');
    proof {
        assert(out@ =~= base + json_note(n@));
    }
}

// ---------------------------------------------------------------------------
// The executable parser. Each function mirrors its spec counterpart on the
// input from position `i` on and returns the next position.
// ---------------------------------------------------------------------------

fn unescape_exec(c: char) -> (r: Option<char>)
    ensures
        r == unescape_char(c),
{
    if c == '"' {
        Some('"')
    } else if c == '\\' {
        Some('\\')
    } else if c == 'n' {
        Some('\n')
    } else if c == 't' {
        Some('\t')
    } else if c == 'r' {
        Some('\r')
    } else {
        None
    }
}

fn parse_quoted_exec(v: &Vec<char>, i: usize) -> (r: Option<(Vec<char>, usize)>)
    requires
        i <= v@.len(),
    ensures
        (match r {
            Some(p) => p.1 <= v@.len() && parse_quoted(v@.skip(i as int)) == Some(
                (p.0@, v@.skip(p.1 as int)),
            ),
            None => parse_quoted(v@.skip(i as int)) is None,
        }),
    decreases v@.len() - i,
{
    let ghost s = v@.skip(i as int);
    if i == v.len() {
        return None;
    }
    let c = v[i];
    assert(s[0] == c);
    if c == '"' {
        proof {
            assert(s.skip(1) =~= v@.skip(i + 1));
        }
        let t: Vec<char> = Vec::new();
        assert(t@ =~= Seq::<char>::empty());
        return Some((t, i + 1));
    }
    if c == '\\' {
        if i + 1 == v.len() {
            assert(s.len() < 2);
            return None;
        }
        let e = v[i + 1];
        assert(s[1] == e);
        match unescape_exec(e) {
            Some(c2) => {
                proof {
                    assert(s.skip(2) =~= v@.skip(i + 2));
                }
                match parse_quoted_exec(v, i + 2) {
                    Some((t, j)) => {
                        let ghost t0 = t@;
                        let mut t = t;
                        t.insert(0, c2);
                        proof {
                            assert(t@ =~= seq![c2] + t0);
                        }
                        Some((t, j))
                    },
                    None => None,
                }
            },
            None => None,
        }
    } else {
        proof {
            assert(s.skip(1) =~= v@.skip(i + 1));
        }
        match parse_quoted_exec(v, i + 1) {
            Some((t, j)) => {
                let ghost t0 = t@;
                let mut t = t;
                t.insert(0, c);
                proof {
                    assert(t@ =~= seq![c] + t0);
                }
                Some((t, j))
            },
            None => None,
        }
    }
}

fn parse_string_exec(v: &Vec<char>, i: usize) -> (r: Option<(Vec<char>, usize)>)
    requires
        i <= v@.len(),
    ensures
        (match r {
            Some(p) => p.1 <= v@.len() && parse_string(v@.skip(i as int)) == Some(
                (p.0@, v@.skip(p.1 as int)),
            ),
            None => parse_string(v@.skip(i as int)) is None,
        }),
{
    let ghost s = v@.skip(i as int);
    if i < v.len() && v[i] == '"' {
        assert(s[0] == '"');
        proof {
            assert(s.skip(1) =~= v@.skip(i + 1));
        }
        parse_quoted_exec(v, i + 1)
    } else {
        None
    }
}

fn expect_lit(v: &Vec<char>, i: usize, lit: &Vec<char>) -> (r: Option<usize>)
    requires
        i <= v@.len(),
    ensures
        (match r {
            Some(j) => i <= j <= v@.len() && parse_exact(v@.skip(i as int), lit@) == Some(
                v@.skip(j as int),
            ),
            None => parse_exact(v@.skip(i as int), lit@) is None,
        }),
{
    let ghost s = v@.skip(i as int);
    let n = v.len();
    if n - i < lit.len() {
        assert(s.len() < lit@.len());
        return None;
    }
    let mut k: usize = 0;
    while k < lit.len()
        invariant
            i <= v@.len(),
            n == v@.len(),
            v@.len() - i >= lit@.len(),
            k <= lit@.len(),
            s == v@.skip(i as int),
            forall|m: int| 0 <= m < k ==> s[m] == lit@[m],
        decreases lit@.len() - k,
    {
        if v[i + k] != lit[k] {
            proof {
                assert(s[k as int] == v@[i + k as int]);
                assert(s.take(lit@.len() as int)[k as int] != lit@[k as int]);
                assert(s.take(lit@.len() as int) != lit@);
            }
            return None;
        }
        assert(s[k as int] == lit@[k as int]);
        k = k + 1;
    }
    proof {
        assert(s.take(lit@.len() as int) =~= lit@);
        assert(s.skip(lit@.len() as int) =~= v@.skip(i + lit@.len() as int));
    }
    Some(i + lit.len())
}

fn parse_member_exec(v: &Vec<char>, i: usize, key_lit: &Vec<char>, Ghost(key): Ghost<Seq<char>>) -> (r:
    Option<(Vec<char>, usize)>)
    requires
        i <= v@.len(),
        key_lit@ == quoted_key(key),
    ensures
        (match r {
            Some(p) => p.1 <= v@.len() && parse_member(v@.skip(i as int), key) == Some(
                (p.0@, v@.skip(p.1 as int)),
            ),
            None => parse_member(v@.skip(i as int), key) is None,
        }),
{
    match expect_lit(v, i, key_lit) {
        Some(j) => parse_string_exec(v, j),
        None => None,
    }
}

fn parse_string_items_exec(v: &Vec<char>, i: usize) -> (r: Option<(Vec<String>, usize)>)
    requires
        i <= v@.len(),
    ensures
        (match r {
            Some(p) => p.1 <= v@.len() && parse_string_items(v@.skip(i as int)) == Some(
                (p.0.deep_view(), v@.skip(p.1 as int)),
            ),
            None => parse_string_items(v@.skip(i as int)) is None,
        }),
    decreases v@.len() - i,
{
    let ghost s = v@.skip(i as int);
    match parse_string_exec(v, i) {
        Some((t, j)) => {
            proof {
                lemma_parse_string_shrinks(s);
            }
            assert(i < j);
            if j < v.len() && v[j] == ',' {
                assert(v@.skip(j as int)[0] == ',');
                proof {
                    assert(v@.skip(j as int).skip(1) =~= v@.skip(j + 1));
                }
                match parse_string_items_exec(v, j + 1) {
                    Some((vs, k)) => {
                        let ghost vs0 = vs.deep_view();
                        let t_s = string_from_chars(&t);
                        let mut vs = vs;
                        vs.insert(0, t_s);
                        proof {
                            assert(vs.deep_view() =~= seq![t@] + vs0);
                        }
                        Some((vs, k))
                    },
                    None => None,
                }
            } else if j < v.len() && v[j] == ']' {
                assert(v@.skip(j as int)[0] == ']');
                let t_s = string_from_chars(&t);
                let mut vs: Vec<String> = Vec::new();
                vs.push(t_s);
                proof {
                    assert(v@.skip(j as int).skip(1) =~= v@.skip(j + 1));
                    assert(vs.deep_view() =~= seq![t@]);
                }
                Some((vs, j + 1))
            } else {
                proof {
                    if j < v.len() {
                        assert(v@.skip(j as int)[0] == v@[j as int]);
                    } else {
                        assert(v@.skip(j as int).len() == 0);
                    }
                }
                None
            }
        },
        None => None,
    }
}

fn parse_tags_exec(v: &Vec<char>, i: usize) -> (r: Option<(Vec<String>, usize)>)
    requires
        i <= v@.len(),
    ensures
        (match r {
            Some(p) => p.1 <= v@.len() && parse_tags(v@.skip(i as int)) == Some(
                (p.0.deep_view(), v@.skip(p.1 as int)),
            ),
            None => parse_tags(v@.skip(i as int)) is None,
        }),
{
    let ghost s = v@.skip(i as int);
    if i < v.len() && v[i] == '[' {
        assert(s[0] == '[');
        if i + 1 < v.len() && v[i + 1] == ']' {
            assert(s.len() >= 2 && s[1] == ']');
            proof {
                assert(s.skip(2) =~= v@.skip(i + 2));
            }
            let vs: Vec<String> = Vec::new();
            assert(vs.deep_view() =~= Seq::<Seq<char>>::empty());
            Some((vs, i + 2))
        } else {
            proof {
                if s.len() >= 2 {
                    assert(s[1] == v@[i + 1]);
                }
                assert(s.skip(1) =~= v@.skip(i + 1));
            }
            parse_string_items_exec(v, i + 1)
        }
    } else {
        proof {
            if s.len() >= 1 {
                assert(s[0] == v@[i as int]);
            }
        }
        None
    }
}

#[verifier::rlimit(100)]
fn parse_note_exec(v: &Vec<char>, i: usize) -> (r: Option<(Note, usize)>)
    requires
        i <= v@.len(),
    ensures
        (match r {
            Some(p) => p.1 <= v@.len() && parse_note(v@.skip(i as int)) == Some(
                (p.0@, v@.skip(p.1 as int)),
            ),
            None => parse_note(v@.skip(i as int)) is None,
        }),
{
    let ghost s = v@.skip(i as int);
    if !(i < v.len() && v[i] == '{') {
        proof {
            if s.len() >= 1 {
                assert(s[0] == v@[i as int]);
            }
        }
        return None;
    }
    assert(s[0] == '{');
    proof {
        assert(s.skip(1) =~= v@.skip(i + 1));
    }
    let kid: Vec<char> = vec!['"', 'i', 'd', '"', ':'];
    proof {
        assert(kid@ =~= quoted_key(key_id()));
    }
    let comma: Vec<char> = vec![','];
    proof {
        assert(comma@ =~= seq![',']);
    }
    let p1 = parse_member_exec(v, i + 1, &kid, Ghost(key_id()));
    if p1.is_none() {
        return None;
    }
    let (id_c, j1) = p1.unwrap();
    let r1 = expect_lit(v, j1, &comma);
    if r1.is_none() {
        return None;
    }
    let j1b = r1.unwrap();
    let ktitle: Vec<char> = vec!['"', 't', 'i', 't', 'l', 'e', '"', ':'];
    proof {
        assert(ktitle@ =~= quoted_key(key_title()));
    }
    let p2 = parse_member_exec(v, j1b, &ktitle, Ghost(key_title()));
    if p2.is_none() {
        return None;
    }
    let (title_c, j2) = p2.unwrap();
    let r2 = expect_lit(v, j2, &comma);
    if r2.is_none() {
        return None;
    }
    let j2b = r2.unwrap();
    let kcontent: Vec<char> = vec!['"', 'c', 'o', 'n', 't', 'e', 'n', 't', '"', ':'];
    proof {
        assert(kcontent@ =~= quoted_key(key_content()));
    }
    let p3 = parse_member_exec(v, j2b, &kcontent, Ghost(key_content()));
    if p3.is_none() {
        return None;
    }
    let (content_c, j3) = p3.unwrap();
    let r3 = expect_lit(v, j3, &comma);
    if r3.is_none() {
        return None;
    }
    let j3b = r3.unwrap();
    let kcreated: Vec<char> = vec![
        '"',
        'c',
        'r',
        'e',
        'a',
        't',
        'e',
        'd',
        '_',
        'a',
        't',
        '"',
        ':',
    ];
    proof {
        assert(kcreated@ =~= quoted_key(key_created_at()));
    }
    let p4 = parse_member_exec(v, j3b, &kcreated, Ghost(key_created_at()));
    if p4.is_none() {
        return None;
    }
    let (created_c, j4) = p4.unwrap();
    let r4 = expect_lit(v, j4, &comma);
    if r4.is_none() {
        return None;
    }
    let j4b = r4.unwrap();
    let kupdated: Vec<char> = vec![
        '"',
        'u',
        'p',
        'd',
        'a',
        't',
        'e',
        'd',
        '_',
        'a',
        't',
        '"',
        ':',
    ];
    proof {
        assert(kupdated@ =~= quoted_key(key_updated_at()));
    }
    let p5 = parse_member_exec(v, j4b, &kupdated, Ghost(key_updated_at()));
    if p5.is_none() {
        return None;
    }
    let (updated_c, j5) = p5.unwrap();
    let r5 = expect_lit(v, j5, &comma);
    if r5.is_none() {
        return None;
    }
    let j5b = r5.unwrap();
    let ktags: Vec<char> = vec!['"', 't', 'a', 'g', 's', '"', ':'];
    proof {
        assert(ktags@ =~= quoted_key(key_tags()));
    }
    let r6 = expect_lit(v, j5b, &ktags);
    if r6.is_none() {
        return None;
    }
    let j6 = r6.unwrap();
    let p6 = parse_tags_exec(v, j6);
    if p6.is_none() {
        return None;
    }
    let (tags_v, j7) = p6.unwrap();
    let brace: Vec<char> = vec!['}'];
    proof {
        assert(brace@ =~= seq!['}']);
    }
    let r7 = expect_lit(v, j7, &brace);
    if r7.is_none() {
        return None;
    }
    let j8 = r7.unwrap();
    let note = Note {
        id: string_from_chars(&id_c),
        title: string_from_chars(&title_c),
        content: string_from_chars(&content_c),
        created_at: string_from_chars(&created_c),
        updated_at: string_from_chars(&updated_c),
        tags: tags_v,
    };
    proof {
        assert(note@ =~= (NoteView {
            id: id_c@,
            title: title_c@,
            content: content_c@,
            created_at: created_c@,
            updated_at: updated_c@,
            tags: note.tags.deep_view(),
        }));
    }
    Some((note, j8))
}

fn parse_note_items_exec(v: &Vec<char>, i: usize) -> (r: Option<(Vec<Note>, usize)>)
    requires
        i <= v@.len(),
    ensures
        (match r {
            Some(p) => p.1 <= v@.len() && parse_note_items(v@.skip(i as int)) == Some(
                (views_of(p.0@), v@.skip(p.1 as int)),
            ),
            None => parse_note_items(v@.skip(i as int)) is None,
        }),
    decreases v@.len() - i,
{
    let ghost s = v@.skip(i as int);
    match parse_note_exec(v, i) {
        Some((n, j)) => {
            proof {
                lemma_parse_note_shrinks(s);
            }
            assert(i < j);
            if j < v.len() && v[j] == ',' {
                assert(v@.skip(j as int)[0] == ',');
                proof {
                    assert(v@.skip(j as int).skip(1) =~= v@.skip(j + 1));
                }
                match parse_note_items_exec(v, j + 1) {
                    Some((ns, k)) => {
                        let ghost ns0 = views_of(ns@);
                        let mut ns = ns;
                        ns.insert(0, n);
                        proof {
                            assert(views_of(ns@) =~= seq![ns@[0]@] + ns0);
                        }
                        Some((ns, k))
                    },
                    None => None,
                }
            } else if j < v.len() && v[j] == ']' {
                assert(v@.skip(j as int)[0] == ']');
                let mut ns: Vec<Note> = Vec::new();
                ns.push(n);
                proof {
                    assert(v@.skip(j as int).skip(1) =~= v@.skip(j + 1));
                    assert(views_of(ns@) =~= seq![ns@[0]@]);
                }
                Some((ns, j + 1))
            } else {
                proof {
                    if j < v.len() {
                        assert(v@.skip(j as int)[0] == v@[j as int]);
                    } else {
                        assert(v@.skip(j as int).len() == 0);
                    }
                }
                None
            }
        },
        None => None,
    }
}

/// Parse a whole document held as a vector of characters.
pub(crate) fn parse_notes_vec(v: &Vec<char>) -> (r: Option<Vec<Note>>)
    ensures
        (match r {
            Some(notes) => parse_notes(v@) == Some(views_of(notes@)),
            None => parse_notes(v@) is None,
        }),
{
    if v.len() == 2 && v[0] == '[' && v[1] == ']' {
        let ns: Vec<Note> = Vec::new();
        proof {
            assert(views_of(ns@) =~= Seq::<NoteView>::empty());
        }
        return Some(ns);
    }
    if v.len() >= 1 && v[0] == '[' {
        proof {
            assert(v@.skip(1) == v@.skip(1 as int));
        }
        match parse_note_items_exec(v, 1) {
            Some((ns, j)) => {
                if j == v.len() {
                    assert(v@.skip(j as int).len() == 0);
                    Some(ns)
                } else {
                    assert(v@.skip(j as int).len() != 0);
                    None
                }
            },
            None => None,
        }
    } else {
        None
    }
}

/// Render the whole collection as the persisted JSON document.
pub(crate) fn render_notes(notes: &Vec<Note>) -> (r: Vec<char>)
    ensures
        r@ == json_notes(views_of(notes@)),
{
    let ghost vs = views_of(notes@);
    let mut out: Vec<char> = Vec::new();
    out.push('[');
    let mut i: usize = 0;
    while i < notes.len()
        invariant
            i <= notes.len(),
            vs == views_of(notes@),
            vs.len() == notes@.len(),
            forall|k: int| 0 <= k < vs.len() ==> vs[k] == notes@[k]@,
            out@ == seq!['['] + json_note_list(vs.take(i as int)),
        decreases notes.len() - i,
    {
        if i > 0 {
            out.push(',');
        }
        render_note_into(&mut out, &notes[i]);
        proof {
            assert(vs.take(i + 1 as int) =~= vs.take(i as int).push(vs[i as int]));
            lemma_note_list_snoc(vs.take(i as int), vs[i as int]);
            assert(json_note_list(seq![vs[i as int]]) == json_note(vs[i as int]));
            assert(out@ =~= seq!['['] + json_note_list(vs.take(i + 1 as int)));
        }
        i = i + 1;
    }
    out.push(']');
    proof {
        assert(vs.take(notes@.len() as int) =~= vs);
        assert(out@ =~= json_notes(vs));
    }
    out
}

} // verus!
