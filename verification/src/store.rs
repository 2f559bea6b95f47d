//! The note store: the sole authority over the in-memory collection.
//! The collection is an ordered sequence of notes, order of insertion;
//! identifiers are unique across the collection at all times. Rendering
//! and parsing of the persisted document live in `codec`; writing and
//! reading the file itself is the caller's concern.

use vstd::prelude::*;
use vstd::pervasive::VecAdditionalExecFns;
use vstd::seq_lib::*;
use crate::codec::{json_notes, parse_notes, parse_notes_vec, render_notes, str_to_chars};
use crate::ext::{fold_case, folded, now_rfc3339, random_id_string, string_from_chars};
use crate::note::{views_of, Note, NoteView};
use crate::search::{note_matches, seq_contains, seq_contains_exec, spec_search,
    lemma_spec_search_take_step};

verus! {

broadcast use vstd::set::group_set_axioms;

/// The error of an operation that addresses a note by position.
#[derive(Debug, Clone, Copy, PartialEq, Eq)]
pub enum StoreError {
    IndexOutOfRange,
}

/// No two notes of the collection share an identifier.
pub open spec fn ids_unique(s: Seq<NoteView>) -> bool {
    forall|i: int, j: int| 0 <= i < j < s.len() ==> s[i].id != s[j].id
}

/// Some note of the collection has this identifier.
pub open spec fn contains_id(s: Seq<NoteView>, id: Seq<char>) -> bool {
    exists|k: int| 0 <= k < s.len() && (#[trigger] s[k]).id == id
}

/// The position of the first note with this identifier, or -1 if there
/// is none.
pub open spec fn first_index_of(s: Seq<NoteView>, id: Seq<char>) -> int
    decreases s.len(),
{
    if s.len() == 0 {
        -1
    } else if s[0].id == id {
        0
    } else {
        let r = first_index_of(s.skip(1), id);
        if r < 0 {
            -1
        } else {
            r + 1
        }
    }
}

/// What `first_index_of` returns: -1 exactly when the identifier is
/// absent, else the position of its first occurrence.
pub proof fn lemma_first_index_of(s: Seq<NoteView>, id: Seq<char>)
    ensures
        first_index_of(s, id) >= -1,
        first_index_of(s, id) == -1 <==> !contains_id(s, id),
        first_index_of(s, id) >= 0 ==> first_index_of(s, id) < s.len() && s[first_index_of(
            s,
            id,
        )].id == id && (forall|m: int| 0 <= m < first_index_of(s, id) ==> s[m].id != id),
    decreases s.len(),
{
    if s.len() == 0 {
        assert(!contains_id(s, id));
    } else if s[0].id == id {
        assert(contains_id(s, id));
    } else {
        lemma_first_index_of(s.skip(1), id);
        let t = s.skip(1);
        let r = first_index_of(t, id);
        assert(forall|m: int| 0 <= m < t.len() ==> t[m] == s[m + 1]);
        if r < 0 {
            assert(forall|k: int| 0 <= k < s.len() ==> (#[trigger] s[k]).id != id) by {
                assert(forall|k: int| 1 <= k < s.len() ==> s[k] == t[k - 1]);
            }
            assert(!contains_id(s, id));
        } else {
            assert(s[r + 1] == t[r]);
            assert(contains_id(s, id));
            assert(forall|m: int| 0 <= m < r + 1 ==> (#[trigger] s[m]).id != id) by {
                assert(forall|m: int| 1 <= m < r + 1 ==> s[m] == t[m - 1]);
            }
        }
    }
}

proof fn lemma_views_of_push(s: Seq<Note>, n: Note)
    ensures
        views_of(s.push(n)) == views_of(s).push(n@),
{
    assert(views_of(s.push(n)) =~= views_of(s).push(n@));
}

proof fn lemma_views_of_remove(s: Seq<Note>, k: int)
    requires
        0 <= k < s.len(),
    ensures
        views_of(s.remove(k)) == views_of(s).remove(k),
{
    s.remove_ensures(k);
    views_of(s).remove_ensures(k);
    assert(views_of(s.remove(k)) =~= views_of(s).remove(k));
}

proof fn lemma_views_of_update(s: Seq<Note>, k: int, n: Note)
    requires
        0 <= k < s.len(),
    ensures
        views_of(s.update(k, n)) == views_of(s).update(k, n@),
{
    assert(views_of(s.update(k, n)) =~= views_of(s).update(k, n@));
}

proof fn lemma_push_unique(s: Seq<NoteView>, n: NoteView)
    requires
        ids_unique(s),
        !contains_id(s, n.id),
    ensures
        ids_unique(s.push(n)),
{
    let p = s.push(n);
    assert forall|i: int, j: int| 0 <= i < j < p.len() implies p[i].id != p[j].id by {
        if j == s.len() {
            assert(p[i] == s[i]);
            if s[i].id == n.id {
                assert(contains_id(s, n.id));
            }
        } else {
            assert(p[i] == s[i]);
            assert(p[j] == s[j]);
        }
    }
}

proof fn lemma_remove_unique(s: Seq<NoteView>, k: int)
    requires
        ids_unique(s),
        0 <= k < s.len(),
    ensures
        ids_unique(s.remove(k)),
        !contains_id(s.remove(k), s[k].id),
    decreases s.len(),
{
    let p = s.remove(k);
    s.remove_ensures(k);
    assert forall|i: int, j: int| 0 <= i < j < p.len() implies p[i].id != p[j].id by {
        let i0: int = if i < k {
            i
        } else {
            i + 1
        };
        let j0: int = if j < k {
            j
        } else {
            j + 1
        };
        assert(p[i] == s[i0]);
        assert(p[j] == s[j0]);
    }
    assert forall|m: int| 0 <= m < p.len() implies (#[trigger] p[m]).id != s[k].id by {
        let m0: int = if m < k {
            m
        } else {
            m + 1
        };
        assert(p[m] == s[m0]);
    }
}

proof fn lemma_update_unique(s: Seq<NoteView>, k: int, n: NoteView)
    requires
        ids_unique(s),
        0 <= k < s.len(),
        n.id == s[k].id,
    ensures
        ids_unique(s.update(k, n)),
{
    let p = s.update(k, n);
    assert forall|i: int, j: int| 0 <= i < j < p.len() implies p[i].id != p[j].id by {
        if i != k {
            assert(p[i] == s[i]);
        }
        if j != k {
            assert(p[j] == s[j]);
        }
    }
}

/// A note just created is found again by its identifier: in the collection
/// with the fresh note appended, the first occurrence of its identifier is
/// the appended note itself.
pub proof fn lemma_get_after_create(s: Seq<NoteView>, n: NoteView)
    requires
        !contains_id(s, n.id),
    ensures
        first_index_of(s.push(n), n.id) == s.len(),
        s.push(n)[first_index_of(s.push(n), n.id)] == n,
{
    let p = s.push(n);
    lemma_first_index_of(p, n.id);
    assert(p[s.len() as int] == n);
    assert(contains_id(p, n.id));
    let f = first_index_of(p, n.id);
    assert(f >= 0);
    if f < s.len() {
        assert(p[f] == s[f]);
        assert(contains_id(s, n.id));
    }
}

/// An identifier that no note of the collection carries is not found: a
/// lookup of it reports nothing. Together with the contract of
/// `delete_note`, which leaves no note with the deleted identifier behind,
/// this says that a lookup after a successful delete fails.
pub proof fn lemma_absent_id_not_found(s: Seq<NoteView>, id: Seq<char>)
    requires
        !contains_id(s, id),
    ensures
        first_index_of(s, id) == -1,
{
    lemma_first_index_of(s, id);
}

/// The distinct tags of one tag list.
pub open spec fn tags_as_set(ts: Seq<Seq<char>>) -> Set<Seq<char>>
    decreases ts.len(),
{
    if ts.len() == 0 {
        Set::empty()
    } else {
        tags_as_set(ts.skip(1)).insert(ts[0])
    }
}

/// The distinct tags over all notes of the collection.
pub open spec fn tag_set(s: Seq<NoteView>) -> Set<Seq<char>>
    decreases s.len(),
{
    if s.len() == 0 {
        Set::empty()
    } else {
        tag_set(s.skip(1)).union(tags_as_set(s[0].tags))
    }
}

proof fn lemma_tags_as_set_contains(ts: Seq<Seq<char>>, t: Seq<char>)
    ensures
        tags_as_set(ts).contains(t) <==> (exists|k: int| 0 <= k < ts.len() && ts[k] == t),
    decreases ts.len(),
{
    if ts.len() > 0 {
        lemma_tags_as_set_contains(ts.skip(1), t);
        if exists|k: int| 0 <= k < ts.len() && ts[k] == t {
            let k = choose|k: int| 0 <= k < ts.len() && ts[k] == t;
            if k >= 1 {
                assert(ts.skip(1)[k - 1] == t);
            }
        }
        if exists|k: int| 0 <= k < ts.skip(1).len() && ts.skip(1)[k] == t {
            let k = choose|k: int| 0 <= k < ts.skip(1).len() && ts.skip(1)[k] == t;
            assert(ts[k + 1] == t);
        }
    }
}

proof fn lemma_tags_as_set_finite(ts: Seq<Seq<char>>)
    ensures
        tags_as_set(ts).finite(),
    decreases ts.len(),
{
    if ts.len() > 0 {
        lemma_tags_as_set_finite(ts.skip(1));
    }
}

proof fn lemma_tag_set_finite(s: Seq<NoteView>)
    ensures
        tag_set(s).finite(),
    decreases s.len(),
{
    if s.len() > 0 {
        lemma_tag_set_finite(s.skip(1));
        lemma_tags_as_set_finite(s[0].tags);
    }
}

proof fn lemma_tags_as_set_snoc(ts: Seq<Seq<char>>, x: Seq<char>)
    ensures
        tags_as_set(ts.push(x)) == tags_as_set(ts).insert(x),
    decreases ts.len(),
{
    let p = ts.push(x);
    if ts.len() == 0 {
        assert(p.skip(1) =~= Seq::<Seq<char>>::empty());
        assert(tags_as_set(p) =~= tags_as_set(ts).insert(x)) by {
            reveal_with_fuel(tags_as_set, 2);
        }
    } else {
        assert(p.skip(1) =~= ts.skip(1).push(x));
        lemma_tags_as_set_snoc(ts.skip(1), x);
        assert(p[0] == ts[0]);
        assert(tags_as_set(p) == tags_as_set(p.skip(1)).insert(p[0]));
        assert(tags_as_set(p.skip(1)) == tags_as_set(ts.skip(1)).insert(x));
        assert(tags_as_set(ts) == tags_as_set(ts.skip(1)).insert(ts[0]));
        assert(tags_as_set(p) =~= tags_as_set(ts).insert(x));
    }
}

proof fn lemma_tag_set_snoc(s: Seq<NoteView>, n: NoteView)
    ensures
        tag_set(s.push(n)) == tag_set(s).union(tags_as_set(n.tags)),
    decreases s.len(),
{
    let p = s.push(n);
    if s.len() == 0 {
        assert(p.skip(1) =~= Seq::<NoteView>::empty());
        assert(tag_set(p) =~= tag_set(s).union(tags_as_set(n.tags))) by {
            reveal_with_fuel(tag_set, 2);
        }
    } else {
        assert(p.skip(1) =~= s.skip(1).push(n));
        lemma_tag_set_snoc(s.skip(1), n);
        assert(p[0] == s[0]);
        assert(tag_set(p) == tag_set(p.skip(1)).union(tags_as_set(p[0].tags)));
        assert(tag_set(p.skip(1)) == tag_set(s.skip(1)).union(tags_as_set(n.tags)));
        assert(tag_set(s) == tag_set(s.skip(1)).union(tags_as_set(s[0].tags)));
        assert(tag_set(p) =~= tag_set(s).union(tags_as_set(n.tags)));
    }
}

proof fn lemma_distinct_tags_card(ts: Seq<Seq<char>>)
    requires
        forall|a: int, b: int| 0 <= a < b < ts.len() ==> ts[a] != ts[b],
    ensures
        tags_as_set(ts).len() == ts.len(),
    decreases ts.len(),
{
    if ts.len() > 0 {
        let t = ts.skip(1);
        assert(forall|m: int| 0 <= m < t.len() ==> t[m] == ts[m + 1]);
        lemma_distinct_tags_card(t);
        lemma_tags_as_set_finite(t);
        lemma_tags_as_set_contains(t, ts[0]);
        if exists|k: int| 0 <= k < t.len() && t[k] == ts[0] {
            let k = choose|k: int| 0 <= k < t.len() && t[k] == ts[0];
            assert(ts[k + 1] == ts[0]);
        }
        assert(!tags_as_set(t).contains(ts[0]));
    }
}

/// The note store: the ordered collection of notes and the path of the
/// file the collection is persisted in.
pub struct NotesManager {
    notes: Vec<Note>,
    storage_path: String,
}

impl Clone for NotesManager {
    /// A deep copy: the same collection, in order, and the same path.
    fn clone(&self) -> (r: Self)
        ensures
            r@ == self@,
            r.path_spec() == self.path_spec(),
    {
        proof {
            use_type_invariant(&*self);
        }
        NotesManager { notes: self.list_notes(), storage_path: self.storage_path.clone() }
    }
}

impl View for NotesManager {
    type V = Seq<NoteView>;

    closed spec fn view(&self) -> Seq<NoteView> {
        views_of(self.notes@)
    }
}

impl NotesManager {
    /// The configured storage path.
    pub closed spec fn path_spec(&self) -> Seq<char> {
        self.storage_path@
    }

    #[verifier::type_invariant]
    closed spec fn wf(self) -> bool {
        ids_unique(views_of(self.notes@))
    }

    /// An empty store for the given path.
    pub fn new(storage_path: &str) -> (r: NotesManager)
        ensures
            r@ == Seq::<NoteView>::empty(),
            r.path_spec() == storage_path@,
    {
        let r = NotesManager { notes: Vec::new(), storage_path: storage_path.to_owned() };
        proof {
            assert(views_of(r.notes@) =~= Seq::<NoteView>::empty());
        }
        r
    }

    /// A store loaded from the text of the persisted document. A document
    /// that does not parse, or whose notes do not carry unique
    /// identifiers, counts as corrupt and yields the empty collection.
    pub fn from_json(storage_path: &str, text: &str) -> (r: NotesManager)
        ensures
            r.path_spec() == storage_path@,
            (match parse_notes(text@) {
                Some(ns) => r@ == if ids_unique(ns) {
                    ns
                } else {
                    Seq::<NoteView>::empty()
                },
                None => r@ == Seq::<NoteView>::empty(),
            }),
    {
        let cs = str_to_chars(text);
        match parse_notes_vec(&cs) {
            Some(notes) => {
                if ids_all_unique(&notes) {
                    NotesManager { notes, storage_path: storage_path.to_owned() }
                } else {
                    Self::new(storage_path)
                }
            },
            None => Self::new(storage_path),
        }
    }

    /// A store loaded from what was read at the given path: no file at
    /// all (a first run) yields the empty collection, and so does a
    /// corrupt document.
    pub fn load_notes(storage_path: &str, contents: Option<&str>) -> (r: NotesManager)
        ensures
            r.path_spec() == storage_path@,
            (match contents {
                None => r@ == Seq::<NoteView>::empty(),
                Some(text) => (match parse_notes(text@) {
                    Some(ns) => r@ == if ids_unique(ns) {
                        ns
                    } else {
                        Seq::<NoteView>::empty()
                    },
                    None => r@ == Seq::<NoteView>::empty(),
                }),
            }),
    {
        match contents {
            None => Self::new(storage_path),
            Some(text) => Self::from_json(storage_path, text),
        }
    }

    /// The persisted form of the collection, ready to be written to the
    /// storage path.
    pub fn to_json(&self) -> (r: String)
        ensures
            r@ == json_notes(self@),
    {
        let cs = render_notes(&self.notes);
        string_from_chars(&cs)
    }

    /// The configured storage path.
    pub fn storage_path(&self) -> (r: &str)
        ensures
            r@ == self.path_spec(),
    {
        self.storage_path.as_str()
    }

    /// How many notes the collection holds.
    pub fn notes_count(&self) -> (r: usize)
        ensures
            r == self@.len(),
    {
        self.notes.len()
    }

    /// The position of the first note with this identifier.
    fn index_of_id(&self, id: &str) -> (r: Option<usize>)
        ensures
            (match r {
                Some(k) => k < self@.len() && first_index_of(self@, id@) == k as int,
                None => first_index_of(self@, id@) == -1 && !contains_id(self@, id@),
            }),
    {
        let key = id.to_owned();
        let mut k: usize = 0;
        while k < self.notes.len()
            invariant
                self@.len() == self.notes@.len(),
                self@ == views_of(self.notes@),
                key@ == id@,
                k <= self.notes@.len(),
                forall|m: int| 0 <= m < k ==> (#[trigger] self@[m]).id != id@,
            decreases self.notes@.len() - k,
        {
            if self.notes[k].id.eq(&key) {
                proof {
                    assert(self@[k as int].id == id@);
                    assert(contains_id(self@, id@));
                    lemma_first_index_of(self@, id@);
                    let f = first_index_of(self@, id@);
                    if f < k {
                        assert(self@[f].id != id@);
                    }
                    if f > k {
                        assert(self@[k as int].id != id@);
                    }
                }
                return Some(k);
            }
            proof {
                assert(self@[k as int].id != id@);
            }
            k = k + 1;
        }
        proof {
            assert(!contains_id(self@, id@));
            lemma_first_index_of(self@, id@);
        }
        None
    }

    /// An identifier carried by no note of the collection: a freshly
    /// drawn random identifier, retried on the vanishingly unlikely
    /// collision; if randomness keeps colliding, an identifier longer
    /// than every identifier in the collection.
    fn fresh_id(&self) -> (r: String)
        ensures
            !contains_id(self@, r@),
    {
        let mut attempts: usize = 0;
        while attempts < 16
            invariant
                attempts <= 16,
            decreases 16 - attempts,
        {
            let candidate = random_id_string();
            match self.index_of_id(candidate.as_str()) {
                None => {
                    return candidate;
                },
                Some(_) => {},
            }
            attempts = attempts + 1;
        }
        self.oversized_fresh_id()
    }

    /// An identifier strictly longer than every identifier in the
    /// collection, hence carried by no note.
    fn oversized_fresh_id(&self) -> (r: String)
        ensures
            !contains_id(self@, r@),
    {
        let mut fresh: Vec<char> = Vec::new();
        fresh.push('x');
        let mut i: usize = 0;
        while i < self.notes.len()
            invariant
                self@ == views_of(self.notes@),
                self@.len() == self.notes@.len(),
                i <= self.notes@.len(),
                fresh@.len() >= 1,
                forall|m: int| 0 <= m < i ==> (#[trigger] self@[m]).id.len() < fresh@.len(),
            decreases self.notes@.len() - i,
        {
            let idc = str_to_chars(self.notes[i].id.as_str());
            while fresh.len() <= idc.len()
                invariant
                    self@ == views_of(self.notes@),
                    self@.len() == self.notes@.len(),
                    i < self.notes@.len(),
                    idc@ == self@[i as int].id,
                    forall|m: int| 0 <= m < i ==> (#[trigger] self@[m]).id.len() < fresh@.len(),
                decreases idc@.len() + 1 - fresh@.len(),
            {
                fresh.push('x');
            }
            i = i + 1;
        }
        let r = string_from_chars(&fresh);
        proof {
            assert forall|k: int| 0 <= k < self@.len() implies (#[trigger] self@[k]).id != r@ by {
                assert(self@[k].id.len() < r@.len());
            }
        }
        r
    }

    /// Create a note and append it to the collection. The note carries a
    /// freshly drawn identifier that no other note of the collection has,
    /// and its two timestamps are equal.
    pub fn add_note(&mut self, title: String, content: String, tags: Vec<String>) -> (r: Note)
        ensures
            final(self)@ == old(self)@.push(r@),
            final(self).path_spec() == old(self).path_spec(),
            r@.title == title@,
            r@.content == content@,
            r@.tags == tags.deep_view(),
            r@.created_at == r@.updated_at,
            !contains_id(old(self)@, r@.id),
    {
        proof {
            use_type_invariant(&*self);
        }
        let id = self.fresh_id();
        let now = now_rfc3339();
        let note = Note {
            id,
            title,
            content,
            created_at: now.clone(),
            updated_at: now,
            tags,
        };
        let out = note.clone();
        let mut notes: Vec<Note> = Vec::new();
        proof {
            assert(views_of(notes@) =~= Seq::<NoteView>::empty());
        }
        core::mem::swap(&mut notes, &mut self.notes);
        proof {
            lemma_views_of_push(notes@, note);
            lemma_push_unique(views_of(notes@), note@);
        }
        notes.push(note);
        self.notes = notes;
        out
    }

    /// A defensive copy of the whole collection, in order.
    pub fn list_notes(&self) -> (r: Vec<Note>)
        ensures
            views_of(r@) == self@,
    {
        let mut r: Vec<Note> = Vec::new();
        let mut i: usize = 0;
        while i < self.notes.len()
            invariant
                self@ == views_of(self.notes@),
                self@.len() == self.notes@.len(),
                i <= self.notes@.len(),
                r@.len() == i,
                forall|m: int| 0 <= m < i ==> (#[trigger] r@[m])@ == self@[m],
            decreases self.notes@.len() - i,
        {
            r.push(self.notes[i].clone());
            i = i + 1;
        }
        proof {
            assert(views_of(r@) =~= self@);
        }
        r
    }

    /// The note with this identifier, if the collection has one.
    pub fn get_note(&self, id: &str) -> (r: Option<Note>)
        ensures
            (match r {
                Some(n) => first_index_of(self@, id@) >= 0 && n@ == self@[first_index_of(
                    self@,
                    id@,
                )],
                None => !contains_id(self@, id@),
            }),
    {
        match self.index_of_id(id) {
            Some(k) => Some(self.notes[k].clone()),
            None => None,
        }
    }

    /// The note at this position of the collection, if the position is in
    /// range.
    pub fn get_note_by_index(&self, index: usize) -> (r: Option<Note>)
        ensures
            (match r {
                Some(n) => index < self@.len() && n@ == self@[index as int],
                None => index >= self@.len(),
            }),
    {
        if index < self.notes.len() {
            Some(self.notes[index].clone())
        } else {
            None
        }
    }

    /// The notes matching the query, in collection order.
    pub fn search_notes(&self, query: &str) -> (r: Vec<Note>)
        ensures
            views_of(r@) == spec_search(self@, query@),
    {
        let fq_s = fold_case(query);
        let fq = str_to_chars(fq_s.as_str());
        let mut out: Vec<Note> = Vec::new();
        let mut i: usize = 0;
        while i < self.notes.len()
            invariant
                self@ == views_of(self.notes@),
                self@.len() == self.notes@.len(),
                fq@ == folded(query@),
                i <= self.notes@.len(),
                views_of(out@) == spec_search(self@.take(i as int), query@),
            decreases self.notes@.len() - i,
        {
            let ghost pre = out@;
            if note_matches_exec(&self.notes[i], &fq, Ghost(query@)) {
                out.push(self.notes[i].clone());
                proof {
                    assert(views_of(out@) =~= views_of(pre).push(self@[i as int]));
                }
            }
            proof {
                lemma_spec_search_take_step(self@, query@, i as int);
                if note_matches(self@[i as int], query@) {
                    assert(views_of(out@) =~= spec_search(self@.take(i as int), query@) + seq![
                        self@[i as int],
                    ]);
                } else {
                    assert(views_of(out@) =~= spec_search(self@.take(i as int), query@)
                        + Seq::<NoteView>::empty());
                }
            }
            i = i + 1;
        }
        proof {
            assert(self@.take(self@.len() as int) =~= self@);
        }
        out
    }

    /// How many distinct tags the notes of the collection carry, over
    /// all notes together, compared by exact characters.
    pub fn total_unique_tags(&self) -> (r: usize)
        ensures
            r == tag_set(self@).len(),
    {
        let mut seen: Vec<String> = Vec::new();
        proof {
            assert(seen.deep_view() =~= Seq::<Seq<char>>::empty());
            assert(self@.take(0) =~= Seq::<NoteView>::empty());
        }
        let mut i: usize = 0;
        while i < self.notes.len()
            invariant
                self@ == views_of(self.notes@),
                self@.len() == self.notes@.len(),
                i <= self.notes@.len(),
                forall|a: int, b: int|
                    0 <= a < b < seen@.len() ==> (#[trigger] seen@[a])@ != (#[trigger] seen@[b])@,
                tags_as_set(seen.deep_view()) == tag_set(self@.take(i as int)),
            decreases self.notes@.len() - i,
        {
            let ghost cur = self@[i as int].tags;
            let tags_len = self.notes[i].tags.len();
            proof {
                assert(cur.take(0) =~= Seq::<Seq<char>>::empty());
                assert(tag_set(self@.take(i as int)).union(Set::empty()) =~= tag_set(
                    self@.take(i as int),
                ));
            }
            let mut j: usize = 0;
            while j < tags_len
                invariant
                    self@ == views_of(self.notes@),
                    self@.len() == self.notes@.len(),
                    i < self.notes@.len(),
                    cur == self@[i as int].tags,
                    tags_len == cur.len(),
                    j <= tags_len,
                    forall|a: int, b: int|
                        0 <= a < b < seen@.len() ==> (#[trigger] seen@[a])@ != (
                        #[trigger] seen@[b])@,
                    tags_as_set(seen.deep_view()) == tag_set(self@.take(i as int)).union(
                        tags_as_set(cur.take(j as int)),
                    ),
                decreases tags_len - j,
            {
                let tag = &self.notes[i].tags[j];
                proof {
                    assert(cur[j as int] == self.notes@[i as int].tags@[j as int]@);
                }
                let ghost before = seen.deep_view();
                proof {
                    assert(cur.take(j + 1 as int) =~= cur.take(j as int).push(cur[j as int]));
                    lemma_tags_as_set_snoc(cur.take(j as int), cur[j as int]);
                    lemma_tags_as_set_contains(before, tag@);
                }
                if !contains_string(&seen, tag) {
                    seen.push(tag.clone());
                    proof {
                        assert(seen.deep_view() =~= before.push(tag@));
                        lemma_tags_as_set_snoc(before, tag@);
                        let a = tag_set(self@.take(i as int));
                        let b = tags_as_set(cur.take(j as int));
                        assert(!a.union(b).contains(tag@));
                        assert(a.union(b).insert(tag@) =~= a.union(b.insert(tag@)));
                        assert(tags_as_set(seen.deep_view()) == tag_set(
                            self@.take(i as int),
                        ).union(tags_as_set(cur.take(j + 1 as int))));
                    }
                } else {
                    proof {
                        let a = tag_set(self@.take(i as int));
                        let b = tags_as_set(cur.take(j as int));
                        assert(tags_as_set(before).contains(tag@)) by {
                            let k = choose|k: int|
                                0 <= k < seen@.len() && (#[trigger] seen@[k])@ == tag@;
                            assert(before[k] == tag@);
                        }
                        assert(a.union(b).contains(tag@));
                        assert(a.union(b.insert(tag@)) =~= a.union(b));
                        assert(tags_as_set(seen.deep_view()) == tag_set(
                            self@.take(i as int),
                        ).union(tags_as_set(cur.take(j + 1 as int))));
                    }
                }
                j = j + 1;
            }
            proof {
                assert(cur.take(tags_len as int) =~= cur);
                lemma_tag_set_snoc(self@.take(i as int), self@[i as int]);
                assert(self@.take(i + 1 as int) =~= self@.take(i as int).push(self@[i as int]));
            }
            i = i + 1;
        }
        proof {
            assert(self@.take(self@.len() as int) =~= self@);
            assert(forall|a: int, b: int|
                0 <= a < b < seen.deep_view().len() ==> seen.deep_view()[a]
                    != seen.deep_view()[b]);
            lemma_distinct_tags_card(seen.deep_view());
        }
        seen.len()
    }

    /// Remove the note with this identifier. Returns whether a note was
    /// removed; afterwards no note of the collection carries the
    /// identifier.
    pub fn delete_note(&mut self, id: &str) -> (r: bool)
        ensures
            final(self).path_spec() == old(self).path_spec(),
            r == contains_id(old(self)@, id@),
            !r ==> final(self)@ == old(self)@,
            r ==> first_index_of(old(self)@, id@) >= 0 && final(self)@ == old(self)@.remove(
                first_index_of(old(self)@, id@),
            ) && final(self)@.len() == old(self)@.len() - 1,
            !contains_id(final(self)@, id@),
    {
        proof {
            use_type_invariant(&*self);
        }
        match self.index_of_id(id) {
            Some(k) => {
                let mut notes: Vec<Note> = Vec::new();
                proof {
                    assert(views_of(notes@) =~= Seq::<NoteView>::empty());
                }
                core::mem::swap(&mut notes, &mut self.notes);
                proof {
                    lemma_first_index_of(views_of(notes@), id@);
                    lemma_views_of_remove(notes@, k as int);
                    lemma_remove_unique(views_of(notes@), k as int);
                    assert(views_of(notes@)[k as int].id == id@);
                }
                notes.remove(k);
                self.notes = notes;
                true
            },
            None => false,
        }
    }

    /// Update the note with this identifier: each provided field replaces
    /// the current value, absent fields are untouched, the update
    /// timestamp is refreshed, and the identifier and creation timestamp
    /// are unchanged. Returns the updated note, or nothing if the
    /// identifier is absent.
    pub fn update_note(
        &mut self,
        id: &str,
        title: Option<String>,
        content: Option<String>,
        tags: Option<Vec<String>>,
    ) -> (r: Option<Note>)
        ensures
            final(self).path_spec() == old(self).path_spec(),
            (match r {
                Some(n) => first_index_of(old(self)@, id@) >= 0 && final(self)@ == old(
                    self,
                )@.update(first_index_of(old(self)@, id@), n@) && final(self)@.len() == old(
                    self,
                )@.len() && n@.id == old(self)@[first_index_of(old(self)@, id@)].id
                    && n@.created_at == old(self)@[first_index_of(old(self)@, id@)].created_at
                    && n@.title == (match title {
                    Some(t) => t@,
                    None => old(self)@[first_index_of(old(self)@, id@)].title,
                }) && n@.content == (match content {
                    Some(c) => c@,
                    None => old(self)@[first_index_of(old(self)@, id@)].content,
                }) && n@.tags == (match tags {
                    Some(ts) => ts.deep_view(),
                    None => old(self)@[first_index_of(old(self)@, id@)].tags,
                }),
                None => !contains_id(old(self)@, id@) && final(self)@ == old(self)@,
            }),
    {
        proof {
            use_type_invariant(&*self);
        }
        match self.index_of_id(id) {
            Some(k) => {
                let mut note = self.notes[k].clone();
                note.update(title, content, tags);
                let out = note.clone();
                let mut notes: Vec<Note> = Vec::new();
                proof {
                    assert(views_of(notes@) =~= Seq::<NoteView>::empty());
                }
                core::mem::swap(&mut notes, &mut self.notes);
                proof {
                    lemma_views_of_update(notes@, k as int, note);
                    lemma_update_unique(views_of(notes@), k as int, note@);
                }
                notes.set(k, note);
                self.notes = notes;
                Some(out)
            },
            None => None,
        }
    }

    /// Remove the note at this position. Fails, changing nothing, when
    /// the position is out of range.
    pub fn delete_note_by_index(&mut self, index: usize) -> (r: Result<(), StoreError>)
        ensures
            final(self).path_spec() == old(self).path_spec(),
            index < old(self)@.len() ==> r is Ok && final(self)@ == old(self)@.remove(index as int),
            index >= old(self)@.len() ==> r == Result::<(), StoreError>::Err(
                StoreError::IndexOutOfRange,
            ) && final(self)@ == old(self)@,
    {
        proof {
            use_type_invariant(&*self);
        }
        if index < self.notes.len() {
            let mut notes: Vec<Note> = Vec::new();
            proof {
                assert(views_of(notes@) =~= Seq::<NoteView>::empty());
            }
            core::mem::swap(&mut notes, &mut self.notes);
            proof {
                lemma_views_of_remove(notes@, index as int);
                lemma_remove_unique(views_of(notes@), index as int);
            }
            notes.remove(index);
            self.notes = notes;
            Ok(())
        } else {
            Err(StoreError::IndexOutOfRange)
        }
    }
}

/// Whether some string of the vector has the same characters as `t`.
fn contains_string(seen: &Vec<String>, t: &String) -> (b: bool)
    ensures
        b == (exists|k: int| 0 <= k < seen@.len() && (#[trigger] seen@[k])@ == t@),
{
    let mut k: usize = 0;
    while k < seen.len()
        invariant
            k <= seen@.len(),
            forall|m: int| 0 <= m < k ==> (#[trigger] seen@[m])@ != t@,
        decreases seen@.len() - k,
    {
        if seen[k].eq(t) {
            return true;
        }
        k = k + 1;
    }
    false
}

/// Whether all notes of the vector carry pairwise distinct identifiers.
fn ids_all_unique(notes: &Vec<Note>) -> (b: bool)
    ensures
        b == ids_unique(views_of(notes@)),
{
    let ghost vs = views_of(notes@);
    let mut i: usize = 0;
    while i < notes.len()
        invariant
            vs == views_of(notes@),
            vs.len() == notes@.len(),
            i <= notes@.len(),
            forall|a: int, b: int| 0 <= a < b < i ==> vs[a].id != vs[b].id,
        decreases notes@.len() - i,
    {
        let mut j: usize = 0;
        while j < i
            invariant
                vs == views_of(notes@),
                vs.len() == notes@.len(),
                j <= i < notes@.len(),
                forall|a: int, b: int| 0 <= a < b < i ==> vs[a].id != vs[b].id,
                forall|a: int| 0 <= a < j ==> vs[a].id != vs[i as int].id,
            decreases i - j,
        {
            if notes[j].id.eq(&notes[i].id) {
                proof {
                    assert(vs[j as int].id == vs[i as int].id);
                }
                return false;
            }
            proof {
                assert(vs[j as int].id != vs[i as int].id);
            }
            j = j + 1;
        }
        i = i + 1;
    }
    true
}

/// Whether the note matches the case-folded query.
fn note_matches_exec(n: &Note, fq: &Vec<char>, Ghost(q): Ghost<Seq<char>>) -> (b: bool)
    requires
        fq@ == folded(q),
    ensures
        b == note_matches(n@, q),
{
    let ft = fold_case(n.title.as_str());
    let ftc = str_to_chars(ft.as_str());
    if seq_contains_exec(&ftc, fq) {
        return true;
    }
    let fc = fold_case(n.content.as_str());
    let fcc = str_to_chars(fc.as_str());
    if seq_contains_exec(&fcc, fq) {
        return true;
    }
    let mut t: usize = 0;
    while t < n.tags.len()
        invariant
            fq@ == folded(q),
            n@.tags.len() == n.tags@.len(),
            t <= n.tags@.len(),
            forall|m: int| 0 <= m < t ==> !seq_contains(folded(#[trigger] n@.tags[m]), folded(q)),
        decreases n.tags@.len() - t,
    {
        let ftag = fold_case(n.tags[t].as_str());
        let ftagc = str_to_chars(ftag.as_str());
        if seq_contains_exec(&ftagc, fq) {
            proof {
                assert(n@.tags[t as int] == n.tags@[t as int]@);
                assert(seq_contains(folded(n@.tags[t as int]), folded(q)));
            }
            return true;
        }
        proof {
            assert(n@.tags[t as int] == n.tags@[t as int]@);
        }
        t = t + 1;
    }
    proof {
        assert(!note_matches(n@, q));
    }
    false
}

} // verus!
