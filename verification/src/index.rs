//! The index: all notes of the vault keyed by identity, with the parsing
//! engine, coordinating buffer updates, reparsing and link extraction on
//! every mutation.
//!
//! Invariant: each stored note's derived state is consistent with its
//! current buffer — a held tree was parsed from exactly the current text,
//! and the link set is the one that text resolves to. A note degrading out
//! of the parsed state has its links cleared rather than kept stale.

use crate::document::{
    apply_edits, lemma_apply_edits_concat, offset_at, spec_apply_edits, spec_offset_at, Edit,
};
use crate::engine::{
    is_org_parser, make_org_parser, parse_org, tree_span, tree_text, MAX_PARSE_BYTES,
};
use crate::identity::{
    bytes_eq, spec_filename, spec_from_path, spec_from_uri, NoteID, NoteKind,
};
use crate::links::{extract_links, hover_at, links_of, spec_hover_at, spec_target_at};
use vstd::pervasive::VecAdditionalExecFns;
use vstd::prelude::*;

verus! {

/// The set of identities a sequence of links holds.
pub open spec fn outlinks_set(s: Seq<NoteID>) -> Set<(Seq<u8>, NoteKind)> {
    Set::new(|v: (Seq<u8>, NoteKind)| exists|m: int| 0 <= m < s.len() && (#[trigger] s[m])@ == v)
}

/// One note: its identity, live text buffer (absent until loaded or
/// opened), buffer version, last parsed tree (absent until first parse),
/// and the identities its links resolve to.
pub struct Note {
    pub id: NoteID,
    pub document: Option<Vec<u8>>,
    pub version: i32,
    pub tree: Option<tree_sitter::Tree>,
    pub outlinks: Vec<NoteID>,
}

/// The specification view of a note: buffer, version, whether a parsed
/// tree is held, and the outgoing-link set.
#[verifier::ext_equal]
pub ghost struct NoteV {
    pub text: Option<Seq<u8>>,
    pub version: int,
    pub has_tree: bool,
    pub links: Set<(Seq<u8>, NoteKind)>,
}

impl View for Note {
    type V = NoteV;

    open spec fn view(&self) -> NoteV {
        NoteV {
            text: match self.document {
                Some(d) => Some(d@),
                None => None,
            },
            version: self.version as int,
            has_tree: self.tree is Some,
            links: outlinks_set(self.outlinks@),
        }
    }
}

/// Consistency of a note's derived state with its current buffer: a held
/// tree was parsed from exactly the current text and the link set is the
/// one that text resolves to; without a tree there are no links.
pub open spec fn note_wf(n: Note) -> bool {
    &&& (n.tree matches Some(t) ==> n.document matches Some(d) && tree_text(t) == d@
        && outlinks_set(n.outlinks@) == links_of(d@))
    &&& (n.tree is None ==> n.outlinks@.len() == 0)
    &&& (n.document is None ==> n.tree is None)
}

impl Note {
    /// A fresh, unloaded note.
    pub fn new(id: NoteID) -> (r: Note)
        ensures
            r.id@ == id@,
            r@ == (NoteV {
                text: None,
                version: 0,
                has_tree: false,
                links: Set::<(Seq<u8>, NoteKind)>::empty(),
            }),
            note_wf(r),
    {
        let r = Note { id, document: None, version: 0, tree: None, outlinks: Vec::new() };
        proof {
            assert(outlinks_set(r.outlinks@) =~= Set::<(Seq<u8>, NoteKind)>::empty());
        }
        r
    }

    /// A note seeded from a scanned file: the identity its path resolves
    /// to, with the file's content as the buffer and no tree yet. None
    /// when the path yields no identity.
    pub fn of_file(path: &[u8], content: Vec<u8>) -> (r: Option<Note>)
        ensures
            match r {
                Some(n) => spec_from_path(path@) == Some(n.id@) && note_wf(n) && n@ == (NoteV {
                    text: Some(content@),
                    version: 0,
                    has_tree: false,
                    links: Set::<(Seq<u8>, NoteKind)>::empty(),
                }),
                None => spec_from_path(path@) is None,
            },
    {
        match NoteID::from_path(path) {
            Some(id) => {
                let n = Note {
                    id,
                    document: Some(content),
                    version: 0,
                    tree: None,
                    outlinks: Vec::new(),
                };
                proof {
                    assert(outlinks_set(n.outlinks@) =~= Set::<(Seq<u8>, NoteKind)>::empty());
                }
                Some(n)
            },
            None => None,
        }
    }

    /// The current tree and buffer together, when both are present.
    pub fn get_tree_and_doc(&self) -> (r: Option<(&tree_sitter::Tree, &Vec<u8>)>)
        ensures
            match r {
                Some(p) => self.tree == Some(*p.0) && self.document == Some(*p.1),
                None => self.tree is None || self.document is None,
            },
    {
        match (&self.tree, &self.document) {
            (Some(t), Some(d)) => Some((t, d)),
            _ => None,
        }
    }

    /// Rebuild the outgoing-link set wholesale from the current buffer;
    /// without a tree and buffer the set is cleared.
    pub fn update_links(&mut self)
        ensures
            final(self).id == old(self).id,
            final(self).document == old(self).document,
            final(self).tree == old(self).tree,
            final(self).version == old(self).version,
            (old(self).tree is Some && old(self).document is Some) ==> outlinks_set(
                final(self).outlinks@,
            ) == links_of(old(self).document->0@),
            !(old(self).tree is Some && old(self).document is Some)
                ==> final(self).outlinks@.len() == 0,
    {
        let links: Vec<NoteID> = match (&self.tree, &self.document) {
            (Some(_), Some(d)) => {
                let r = extract_links(d);
                proof {
                    assert forall|v: (Seq<u8>, NoteKind)|
                        outlinks_set(r@).contains(v) == links_of(d@).contains(v) by {
                        if outlinks_set(r@).contains(v) {
                            let m = choose|m: int| 0 <= m < r@.len() && (#[trigger] r@[m])@ == v;
                            assert(links_of(d@).contains(r@[m]@));
                        }
                        if links_of(d@).contains(v) {
                            let m = choose|m: int| 0 <= m < r@.len() && (#[trigger] r@[m])@ == v;
                            assert(outlinks_set(r@).contains(v));
                        }
                    }
                    assert(outlinks_set(r@) =~= links_of(d@));
                }
                r
            },
            _ => Vec::new(),
        };
        self.outlinks = links;
    }
}

/// The map view of a stored sequence of notes; a later entry with the same
/// identity wins.
pub open spec fn view_of_notes(s: Seq<Note>) -> Map<(Seq<u8>, NoteKind), NoteV>
    decreases s.len(),
{
    if s.len() == 0 {
        Map::empty()
    } else {
        view_of_notes(s.drop_last()).insert(s.last().id@, s.last()@)
    }
}

/// With unique identities, each stored note is the value of its key, and
/// every key comes from some stored note.
pub proof fn lemma_view_of_notes(s: Seq<Note>)
    requires
        forall|a: int, b: int|
            0 <= a < b < s.len() ==> (#[trigger] s[a]).id@ != (#[trigger] s[b]).id@,
    ensures
        forall|i: int|
            0 <= i < s.len() ==> view_of_notes(s).contains_key((#[trigger] s[i]).id@)
                && view_of_notes(s)[s[i].id@] == s[i]@,
        forall|k: (Seq<u8>, NoteKind)|
            #[trigger] view_of_notes(s).contains_key(k) ==> exists|i: int|
                0 <= i < s.len() && (#[trigger] s[i]).id@ == k,
    decreases s.len(),
{
    if s.len() > 0 {
        let s0 = s.drop_last();
        assert(forall|i: int| 0 <= i < s0.len() ==> s0[i] == s[i]);
        lemma_view_of_notes(s0);
        assert forall|i: int|
            0 <= i < s.len() implies view_of_notes(s).contains_key((#[trigger] s[i]).id@)
            && view_of_notes(s)[s[i].id@] == s[i]@ by {
            if i < s.len() - 1 {
                assert(s[i].id@ != s.last().id@);
                assert(view_of_notes(s0).contains_key(s[i].id@));
            }
        }
        assert forall|k: (Seq<u8>, NoteKind)|
            #[trigger] view_of_notes(s).contains_key(k) implies exists|i: int|
            0 <= i < s.len() && (#[trigger] s[i]).id@ == k by {
            if k == s.last().id@ {
                assert(s[s.len() - 1].id@ == k);
            } else {
                assert(view_of_notes(s0).contains_key(k));
                let i = choose|i: int| 0 <= i < s0.len() && (#[trigger] s0[i]).id@ == k;
                assert(s[i].id@ == k);
            }
        }
    }
}

/// Replacing the note at `i` by one with the same identity updates the map
/// view at that key.
proof fn lemma_view_update(s: Seq<Note>, i: int, n: Note)
    requires
        0 <= i < s.len(),
        s[i].id@ == n.id@,
        forall|a: int, b: int|
            0 <= a < b < s.len() ==> (#[trigger] s[a]).id@ != (#[trigger] s[b]).id@,
    ensures
        view_of_notes(s.update(i, n)) == view_of_notes(s).insert(n.id@, n@),
    decreases s.len(),
{
    let s2 = s.update(i, n);
    if i == s.len() - 1 {
        assert(s2.drop_last() =~= s.drop_last());
        assert(s2.last() == n);
        assert(view_of_notes(s.drop_last()).insert(s.last().id@, s.last()@).insert(n.id@, n@)
            =~= view_of_notes(s.drop_last()).insert(n.id@, n@));
    } else {
        let s0 = s.drop_last();
        assert(forall|a: int| 0 <= a < s0.len() ==> s0[a] == s[a]);
        assert(s2.drop_last() =~= s0.update(i, n));
        assert(s2.last() == s.last());
        lemma_view_update(s0, i, n);
        assert(s.last().id@ != n.id@);
        assert(view_of_notes(s0).insert(n.id@, n@).insert(s.last().id@, s.last()@)
            =~= view_of_notes(s0).insert(s.last().id@, s.last()@).insert(n.id@, n@));
    }
}

/// Appending a note with a fresh identity inserts its key into the map
/// view.
proof fn lemma_view_push(s: Seq<Note>, n: Note)
    ensures
        view_of_notes(s.push(n)) == view_of_notes(s).insert(n.id@, n@),
{
    assert(s.push(n).drop_last() =~= s);
    assert(s.push(n).last() == n);
}

/// The index of the note with identity `id`, if stored.
fn find_note(notes: &Vec<Note>, id: &NoteID) -> (r: Option<usize>)
    ensures
        match r {
            Some(i) => i < notes@.len() && notes@[i as int].id@ == id@,
            None => forall|i: int| 0 <= i < notes@.len() ==> (#[trigger] notes@[i]).id@ != id@,
        },
{
    let mut i: usize = 0;
    while i < notes.len()
        invariant
            i <= notes@.len(),
            forall|q: int| 0 <= q < i ==> (#[trigger] notes@[q]).id@ != id@,
        decreases notes@.len() - i,
    {
        if bytes_eq(notes[i].id.name.as_slice(), id.name.as_slice()) && notes[i].id.kind
            == id.kind {
            return Some(i);
        }
        i += 1;
    }
    None
}

/// Insert a note, replacing any stored note of the same identity.
fn put_note(notes: &mut Vec<Note>, note: Note)
    requires
        forall|a: int, b: int|
            0 <= a < b < old(notes)@.len() ==> (#[trigger] old(notes)@[a]).id@ != (
            #[trigger] old(notes)@[b]).id@,
        forall|i: int| 0 <= i < old(notes)@.len() ==> note_wf(#[trigger] old(notes)@[i]),
        note_wf(note),
    ensures
        forall|a: int, b: int|
            0 <= a < b < final(notes)@.len() ==> (#[trigger] final(notes)@[a]).id@ != (
            #[trigger] final(notes)@[b]).id@,
        forall|i: int| 0 <= i < final(notes)@.len() ==> note_wf(#[trigger] final(notes)@[i]),
        view_of_notes(final(notes)@) == view_of_notes(old(notes)@).insert(note.id@, note@),
{
    let ghost s = notes@;
    match find_note(notes, &note.id) {
        Some(i) => {
            proof {
                lemma_view_update(s, i as int, note);
            }
            notes.set(i, note);
            proof {
                assert forall|a: int, b: int|
                    0 <= a < b < notes@.len() implies (#[trigger] notes@[a]).id@ != (
                #[trigger] notes@[b]).id@ by {
                    assert(notes@[a].id@ == s[a].id@);
                    assert(notes@[b].id@ == s[b].id@);
                }
            }
        },
        None => {
            proof {
                lemma_view_push(s, note);
            }
            notes.push(note);
            proof {
                assert forall|a: int, b: int|
                    0 <= a < b < notes@.len() implies (#[trigger] notes@[a]).id@ != (
                #[trigger] notes@[b]).id@ by {
                    assert(notes@[a] == s[a]);
                    if b < notes@.len() - 1 {
                        assert(notes@[b] == s[b]);
                    }
                }
            }
        },
    }
}

/// Reparse a note's buffer and rebuild its links: the sole path that
/// updates derived state, keeping tree and links in step with the buffer
/// visible at write completion.
fn reindex_note(parser: &mut tree_sitter::Parser, note: &mut Note)
    requires
        is_org_parser(*old(parser)),
        old(note).document is Some,
        old(note).document->0@.len() < MAX_PARSE_BYTES,
    ensures
        is_org_parser(*final(parser)),
        note_wf(*final(note)),
        final(note).id == old(note).id,
        final(note)@ == (NoteV {
            text: Some(old(note).document->0@),
            version: old(note).version as int,
            has_tree: true,
            links: links_of(old(note).document->0@),
        }),
{
    let t = match &note.document {
        Some(d) => parse_org(parser, d),
        None => {
            proof {
                assert(false);
            }
            vstd::pervasive::unreached()
        },
    };
    note.tree = Some(t);
    note.update_links();
    proof {
        assert(note@ =~= (NoteV {
            text: Some(old(note).document->0@),
            version: old(note).version as int,
            has_tree: true,
            links: links_of(old(note).document->0@),
        }));
    }
}

/// The index map after seeding from `files` in order: each pair whose
/// path resolves to an identity and whose content fits the parser's size
/// limit is inserted with its content, parsed; later entries with the
/// same identity win.
pub open spec fn spec_scan(
    m: Map<(Seq<u8>, NoteKind), NoteV>,
    files: Seq<(Vec<u8>, Vec<u8>)>,
) -> Map<(Seq<u8>, NoteKind), NoteV>
    decreases files.len(),
{
    if files.len() == 0 {
        m
    } else {
        let m2 = if spec_from_path(files[0].0@) is Some && files[0].1@.len() < MAX_PARSE_BYTES {
            m.insert(
                spec_from_path(files[0].0@)->0,
                NoteV {
                    text: Some(files[0].1@),
                    version: 0,
                    has_tree: true,
                    links: links_of(files[0].1@),
                },
            )
        } else {
            m
        };
        spec_scan(m2, files.drop_first())
    }
}

/// With unique identities, the map view has exactly one key per stored
/// note.
proof fn lemma_view_count(s: Seq<Note>)
    requires
        forall|a: int, b: int|
            0 <= a < b < s.len() ==> (#[trigger] s[a]).id@ != (#[trigger] s[b]).id@,
    ensures
        view_of_notes(s).dom().finite(),
        view_of_notes(s).dom().len() == s.len(),
    decreases s.len(),
{
    if s.len() == 0 {
        assert(view_of_notes(s).dom() =~= Set::<(Seq<u8>, NoteKind)>::empty());
    } else {
        let s0 = s.drop_last();
        assert(forall|i: int| 0 <= i < s0.len() ==> s0[i] == s[i]);
        lemma_view_count(s0);
        lemma_view_of_notes(s0);
        if view_of_notes(s0).contains_key(s.last().id@) {
            let i = choose|i: int|
                0 <= i < s0.len() && (#[trigger] s0[i]).id@ == s.last().id@;
            assert(s[i].id@ == s[s.len() - 1].id@);
            assert(false);
        }
        assert(view_of_notes(s).dom() =~= view_of_notes(s0).dom().insert(s.last().id@));
    }
}

/// The index: the vault root path, the parsing engine, and every note of
/// the vault keyed by identity.
pub struct Index {
    root: Vec<u8>,
    parser: tree_sitter::Parser,
    notes: Vec<Note>,
}

impl View for Index {
    type V = Map<(Seq<u8>, NoteKind), NoteV>;

    closed spec fn view(&self) -> Map<(Seq<u8>, NoteKind), NoteV> {
        view_of_notes(self.notes@)
    }
}

impl Index {
    /// The vault root path.
    pub closed spec fn root_path(self) -> Seq<u8> {
        self.root@
    }

    /// Well-formedness: the engine carries the org grammar, stored
    /// identities are unique, and every stored note's derived state is
    /// consistent with its buffer. Established by the constructor and
    /// preserved by every operation.
    pub closed spec fn wf(self) -> bool {
        &&& is_org_parser(self.parser)
        &&& forall|i: int| 0 <= i < self.notes@.len() ==> note_wf(#[trigger] self.notes@[i])
        &&& forall|a: int, b: int|
            0 <= a < b < self.notes@.len() ==> (#[trigger] self.notes@[a]).id@ != (
            #[trigger] self.notes@[b]).id@
    }

    /// A fresh index over the vault root: the org grammar is loaded and
    /// the note map starts empty. None when the grammar fails to load —
    /// fatal to the whole service, which must not start.
    pub fn new(root: Vec<u8>) -> (r: Option<Index>)
        ensures
            match r {
                Some(ix) => ix.wf() && ix@ == Map::<(Seq<u8>, NoteKind), NoteV>::empty()
                    && ix.root_path() == root@,
                None => true,
            },
    {
        match make_org_parser() {
            Some(p) => Some(Index { root, parser: p, notes: Vec::new() }),
            None => None,
        }
    }

    /// The vault root path.
    pub fn root(&self) -> (r: &Vec<u8>)
        ensures
            r@ == self.root_path(),
    {
        &self.root
    }

    /// The number of notes stored.
    pub fn note_count(&self) -> (r: usize)
        requires
            self.wf(),
        ensures
            r == self@.dom().len(),
    {
        proof {
            lemma_view_count(self.notes@);
        }
        self.notes.len()
    }

    /// The stored note a URI resolves to, if any.
    pub fn note_at_uri(&self, uri: &[u8]) -> (r: Option<&Note>)
        requires
            self.wf(),
        ensures
            match r {
                Some(n) => spec_from_uri(uri@) == Some(n.id@) && self@.contains_key(n.id@)
                    && self@[n.id@] == n@,
                None => spec_from_uri(uri@) matches Some(id) ==> !self@.contains_key(id),
            },
    {
        proof {
            lemma_view_of_notes(self.notes@);
        }
        let id = match NoteID::from_uri(uri) {
            Some(id) => id,
            None => {
                return None;
            },
        };
        match find_note(&self.notes, &id) {
            Some(i) => Some(&self.notes[i]),
            None => {
                proof {
                    if self@.contains_key(id@) {
                        let j = choose|j: int|
                            0 <= j < self.notes@.len() && (#[trigger] self.notes@[j]).id@ == id@;
                    }
                }
                None
            },
        }
    }

    /// Seed the index from scanned files: each (path, content) pair whose
    /// path resolves to an identity is loaded, parsed and linked; other
    /// files, and files too large for the parser, are skipped silently. A
    /// later file with the same identity wins.
    pub fn scan(&mut self, files: Vec<(Vec<u8>, Vec<u8>)>)
        requires
            old(self).wf(),
        ensures
            final(self).wf(),
            final(self).root_path() == old(self).root_path(),
            final(self)@ == spec_scan(old(self)@, files@),
    {
        let mut fs = files;
        proof {
            assert(fs@ =~= files@);
        }
        while fs.len() > 0
            invariant
                self.wf(),
                spec_scan(old(self)@, files@) == spec_scan(self@, fs@),
                self.root_path() == old(self).root_path(),
            decreases fs@.len(),
        {
            let ghost fs0 = fs@;
            let ghost m0 = self@;
            let pc = fs.remove(0);
            let path = pc.0;
            let content = pc.1;
            proof {
                assert(fs0.drop_first() =~= fs@);
                assert(fs0[0].0 == path && fs0[0].1 == content);
            }
            if (content.len() as u64) < MAX_PARSE_BYTES {
                match Note::of_file(path.as_slice(), content) {
                    Some(mut note) => {
                        reindex_note(&mut self.parser, &mut note);
                        put_note(&mut self.notes, note);
                    },
                    None => {
                    },
                }
            }
        }
        proof {
            assert(fs@.len() == 0);
        }
    }

    /// Open a note: unconditionally insert or replace its buffer with the
    /// full text handed in, then reparse and relink before returning.
    /// False when the URI resolves to no identity or the text is too
    /// large for the parser, with the index unchanged.
    pub fn handle_open(&mut self, uri: &[u8], text: Vec<u8>, version: i32) -> (ok: bool)
        requires
            old(self).wf(),
        ensures
            final(self).wf(),
            final(self).root_path() == old(self).root_path(),
            ({
                let idopt = spec_from_uri(uri@);
                if idopt is Some && text@.len() < MAX_PARSE_BYTES {
                    ok && final(self)@ == old(self)@.insert(
                        idopt->0,
                        NoteV {
                            text: Some(text@),
                            version: version as int,
                            has_tree: true,
                            links: links_of(text@),
                        },
                    )
                } else {
                    !ok && final(self)@ == old(self)@
                }
            }),
    {
        let id = match NoteID::from_uri(uri) {
            Some(id) => id,
            None => {
                return false;
            },
        };
        if (text.len() as u64) >= MAX_PARSE_BYTES {
            return false;
        }
        let mut note = Note { id, document: Some(text), version, tree: None, outlinks: Vec::new() };
        reindex_note(&mut self.parser, &mut note);
        put_note(&mut self.notes, note);
        true
    }

    /// Apply a change event: the edits in order against the note's
    /// current buffer, then reparse and relink before returning — derived
    /// state is never stale behind a reported success. Fails as a no-op
    /// when the URI resolves to no identity, the identity is unknown, the
    /// note holds no buffer, the version is not newer than the stored
    /// one, or the edited text would be too large for the parser.
    pub fn handle_edit(&mut self, uri: &[u8], version: i32, changes: &Vec<Edit>) -> (ok: bool)
        requires
            old(self).wf(),
        ensures
            final(self).wf(),
            final(self).root_path() == old(self).root_path(),
            ({
                let idopt = spec_from_uri(uri@);
                if idopt is Some && old(self)@.contains_key(idopt->0) && old(self)@[idopt->0].text
                    is Some && old(self)@[idopt->0].version < version as int && spec_apply_edits(
                    old(self)@[idopt->0].text->0,
                    changes@,
                ).len() < MAX_PARSE_BYTES {
                    let newtext = spec_apply_edits(old(self)@[idopt->0].text->0, changes@);
                    ok && final(self)@ == old(self)@.insert(
                        idopt->0,
                        NoteV {
                            text: Some(newtext),
                            version: version as int,
                            has_tree: true,
                            links: links_of(newtext),
                        },
                    )
                } else {
                    !ok && final(self)@ == old(self)@
                }
            }),
    {
        proof {
            lemma_view_of_notes(self.notes@);
        }
        let id = match NoteID::from_uri(uri) {
            Some(id) => id,
            None => {
                return false;
            },
        };
        let i = match find_note(&self.notes, &id) {
            Some(i) => i,
            None => {
                proof {
                    if self@.contains_key(id@) {
                        let j = choose|j: int|
                            0 <= j < self.notes@.len() && (#[trigger] self.notes@[j]).id@ == id@;
                    }
                }
                return false;
            },
        };
        let editable = match &self.notes[i].document {
            Some(_) => self.notes[i].version < version,
            None => false,
        };
        if !editable {
            return false;
        }
        let newdoc = match &self.notes[i].document {
            Some(d) => apply_edits(d, changes),
            None => {
                proof {
                    assert(false);
                }
                vstd::pervasive::unreached()
            },
        };
        if (newdoc.len() as u64) >= MAX_PARSE_BYTES {
            return false;
        }
        let newid = self.notes[i].id.duplicate();
        let mut note = Note {
            id: newid,
            document: Some(newdoc),
            version,
            tree: None,
            outlinks: Vec::new(),
        };
        reindex_note(&mut self.parser, &mut note);
        put_note(&mut self.notes, note);
        true
    }

    /// The byte span of the syntax tree of the note at `uri`: present
    /// exactly when the note is stored and parsed, and then ending at the
    /// buffer length. The start may sit past leading blanks the lexer
    /// skipped, so only its order against the end is stated.
    pub fn tree_span_at_uri(&self, uri: &[u8]) -> (r: Option<(usize, usize)>)
        requires
            self.wf(),
        ensures
            ({
                let idopt = spec_from_uri(uri@);
                match r {
                    Some(sp) => idopt is Some && self@.contains_key(idopt->0)
                        && self@[idopt->0].has_tree && self@[idopt->0].text is Some
                        && sp.0 <= sp.1 && sp.1 == self@[idopt->0].text->0.len(),
                    None => !(idopt is Some && self@.contains_key(idopt->0)
                        && self@[idopt->0].has_tree),
                }
            }),
    {
        proof {
            lemma_view_of_notes(self.notes@);
        }
        let id = match NoteID::from_uri(uri) {
            Some(id) => id,
            None => {
                return None;
            },
        };
        match find_note(&self.notes, &id) {
            Some(i) => {
                match &self.notes[i].tree {
                    Some(t) => Some(tree_span(t)),
                    None => None,
                }
            },
            None => {
                proof {
                    if self@.contains_key(id@) {
                        let j = choose|j: int|
                            0 <= j < self.notes@.len() && (#[trigger] self.notes@[j]).id@ == id@;
                    }
                }
                None
            },
        }
    }

    /// Hover: the literal URI text of the link construct under the cursor
    /// position, or nothing when the cursor is outside any link construct
    /// or the note is unknown or unparsed.
    pub fn hover(&self, uri: &[u8], line: u32, character: u32) -> (r: Option<Vec<u8>>)
        requires
            self.wf(),
        ensures
            ({
                let idopt = spec_from_uri(uri@);
                if idopt is Some && self@.contains_key(idopt->0) && self@[idopt->0].has_tree
                    && self@[idopt->0].text is Some {
                    let t = self@[idopt->0].text->0;
                    let off = spec_offset_at(t, line as nat, character as nat);
                    match r {
                        Some(u) => spec_hover_at(t, off) == Some(u@),
                        None => spec_hover_at(t, off) is None,
                    }
                } else {
                    r is None
                }
            }),
    {
        proof {
            lemma_view_of_notes(self.notes@);
        }
        let id = match NoteID::from_uri(uri) {
            Some(id) => id,
            None => {
                return None;
            },
        };
        let i = match find_note(&self.notes, &id) {
            Some(i) => i,
            None => {
                proof {
                    if self@.contains_key(id@) {
                        let j = choose|j: int|
                            0 <= j < self.notes@.len() && (#[trigger] self.notes@[j]).id@ == id@;
                    }
                }
                return None;
            },
        };
        match (&self.notes[i].tree, &self.notes[i].document) {
            (Some(_), Some(d)) => {
                let off = offset_at(d, line, character);
                hover_at(d, off)
            },
            _ => None,
        }
    }

    /// Definition lookup: resolve the link under the cursor through the
    /// index and hand back the target note's file name relative to the
    /// vault root, or nothing when the cursor is on no link or the target
    /// is not in the vault.
    pub fn goto_definition(&self, uri: &[u8], line: u32, character: u32) -> (r: Option<Vec<u8>>)
        requires
            self.wf(),
        ensures
            ({
                let idopt = spec_from_uri(uri@);
                if idopt is Some && self@.contains_key(idopt->0) && self@[idopt->0].has_tree
                    && self@[idopt->0].text is Some {
                    let t = self@[idopt->0].text->0;
                    let off = spec_offset_at(t, line as nat, character as nat);
                    match spec_target_at(t, off) {
                        Some(tv) => if self@.contains_key(tv) {
                            r matches Some(f) && f@ == spec_filename(tv.0, tv.1)
                        } else {
                            r is None
                        },
                        None => r is None,
                    }
                } else {
                    r is None
                }
            }),
    {
        proof {
            lemma_view_of_notes(self.notes@);
        }
        let id = match NoteID::from_uri(uri) {
            Some(id) => id,
            None => {
                return None;
            },
        };
        let i = match find_note(&self.notes, &id) {
            Some(i) => i,
            None => {
                proof {
                    if self@.contains_key(id@) {
                        let j = choose|j: int|
                            0 <= j < self.notes@.len() && (#[trigger] self.notes@[j]).id@ == id@;
                    }
                }
                return None;
            },
        };
        let u = match (&self.notes[i].tree, &self.notes[i].document) {
            (Some(_), Some(d)) => {
                let off = offset_at(d, line, character);
                match hover_at(d, off) {
                    Some(u) => u,
                    None => {
                        return None;
                    },
                }
            },
            _ => {
                return None;
            },
        };
        let target = match NoteID::from_link(u.as_slice()) {
            Some(t) => t,
            None => {
                return None;
            },
        };
        match find_note(&self.notes, &target) {
            Some(_) => Some(target.to_filename()),
            None => {
                proof {
                    if self@.contains_key(target@) {
                        let j = choose|j: int|
                            0 <= j < self.notes@.len() && (#[trigger] self.notes@[j]).id@
                                == target@;
                    }
                }
                None
            },
        }
    }
}

/// Versioned change events compose: a successful change with edit batch
/// `a`, then one with batch `b` at a higher version, leave a note's entry
/// exactly as one change event carrying the concatenated batch would.
/// The two maps related here are the ones the change-event contract
/// yields for the two successive calls.
pub proof fn lemma_versioned_edits_compose(
    m: Map<(Seq<u8>, NoteKind), NoteV>,
    id: (Seq<u8>, NoteKind),
    t0: Seq<u8>,
    a: Seq<Edit>,
    b: Seq<Edit>,
    v1: int,
    v2: int,
)
    ensures
        m.insert(
            id,
            NoteV {
                text: Some(spec_apply_edits(t0, a)),
                version: v1,
                has_tree: true,
                links: links_of(spec_apply_edits(t0, a)),
            },
        ).insert(
            id,
            NoteV {
                text: Some(spec_apply_edits(spec_apply_edits(t0, a), b)),
                version: v2,
                has_tree: true,
                links: links_of(spec_apply_edits(spec_apply_edits(t0, a), b)),
            },
        ) == m.insert(
            id,
            NoteV {
                text: Some(spec_apply_edits(t0, a + b)),
                version: v2,
                has_tree: true,
                links: links_of(spec_apply_edits(t0, a + b)),
            },
        ),
{
    lemma_apply_edits_concat(t0, a, b);
    let v = NoteV {
        text: Some(spec_apply_edits(t0, a + b)),
        version: v2,
        has_tree: true,
        links: links_of(spec_apply_edits(t0, a + b)),
    };
    let w = NoteV {
        text: Some(spec_apply_edits(t0, a)),
        version: v1,
        has_tree: true,
        links: links_of(spec_apply_edits(t0, a)),
    };
    assert(m.insert(id, w).insert(id, v) =~= m.insert(id, v));
}

} // verus!
