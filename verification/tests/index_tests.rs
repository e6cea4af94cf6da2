use noteboks::document::{Edit, EditRange, Position, apply_edits, offset_at};
use noteboks::identity::NoteKind;
use noteboks::index::Index;
use noteboks::links::extract_links;

fn new_index() -> Index {
    Index::new(b"/vault".to_vec()).expect("org grammar loads")
}

fn range_edit(sl: u32, sc: u32, el: u32, ec: u32, text: &[u8]) -> Edit {
    Edit {
        range: Some(EditRange {
            start: Position { line: sl, character: sc },
            end: Position { line: el, character: ec },
        }),
        text: text.to_vec(),
    }
}

fn full_edit(text: &[u8]) -> Edit {
    Edit { range: None, text: text.to_vec() }
}

#[test]
fn open_then_change_updates_buffer_and_tree_span() {
    let mut ix = new_index();
    assert!(ix.handle_open(b"file:///vault/a.note", b"hello world".to_vec(), 1));
    let edits = vec![range_edit(0, 6, 0, 11, b"there")];
    assert!(ix.handle_edit(b"file:///vault/a.note", 2, &edits));
    let note = ix.note_at_uri(b"file:///vault/a.note").expect("note is stored");
    assert_eq!(note.document.as_ref().unwrap(), &b"hello there".to_vec());
    let span = ix.tree_span_at_uri(b"file:///vault/a.note").expect("note is parsed");
    assert_eq!(span, (0, b"hello there".len()));
}

#[test]
fn full_replacement_edit() {
    let mut ix = new_index();
    assert!(ix.handle_open(b"file:///vault/a.note", b"old text".to_vec(), 1));
    let edits = vec![full_edit(b"entirely new")];
    assert!(ix.handle_edit(b"file:///vault/a.note", 2, &edits));
    let note = ix.note_at_uri(b"file:///vault/a.note").unwrap();
    assert_eq!(note.document.as_ref().unwrap(), &b"entirely new".to_vec());
}

#[test]
fn multiline_edit_against_mutated_buffer() {
    let buf = b"ab\ncdef\ng".to_vec();
    // positions are line / UTF-16 column; the second edit's coordinates
    // are read against the buffer as mutated by the first
    let edits = vec![range_edit(1, 1, 1, 3, b"X"), range_edit(1, 0, 1, 2, b"Y")];
    let out = apply_edits(&buf, &edits);
    // "ab\ncdef\ng" -> "ab\ncXf\ng" -> "ab\nYf\ng"
    assert_eq!(out, b"ab\nYf\ng".to_vec());
}

#[test]
fn offset_clamps_to_line_end_and_buffer_end() {
    let buf = b"ab\ncd".to_vec();
    assert_eq!(offset_at(&buf, 0, 99), 2);
    assert_eq!(offset_at(&buf, 1, 0), 3);
    assert_eq!(offset_at(&buf, 9, 9), 5);
}

#[test]
fn offset_counts_utf16_units() {
    // 'é' is two UTF-8 bytes and one UTF-16 unit; '𝄞' is four UTF-8
    // bytes and two UTF-16 units
    let buf = "é𝄞x".as_bytes().to_vec();
    assert_eq!(offset_at(&buf, 0, 0), 0);
    assert_eq!(offset_at(&buf, 0, 1), 2);
    assert_eq!(offset_at(&buf, 0, 3), 6);
}

#[test]
fn edit_unknown_note_is_rejected() {
    let mut ix = new_index();
    let edits = vec![full_edit(b"x")];
    assert!(!ix.handle_edit(b"file:///vault/missing.note", 1, &edits));
    assert!(!ix.handle_edit(b"not-a-uri", 1, &edits));
}

#[test]
fn stale_version_is_rejected_index_unchanged() {
    let mut ix = new_index();
    assert!(ix.handle_open(b"file:///vault/a.note", b"v5 text".to_vec(), 5));
    let edits = vec![full_edit(b"overwritten")];
    assert!(!ix.handle_edit(b"file:///vault/a.note", 5, &edits));
    assert!(!ix.handle_edit(b"file:///vault/a.note", 4, &edits));
    let note = ix.note_at_uri(b"file:///vault/a.note").unwrap();
    assert_eq!(note.document.as_ref().unwrap(), &b"v5 text".to_vec());
    assert_eq!(note.version, 5);
}

#[test]
fn increasing_versions_match_one_batch() {
    let uri: &[u8] = b"file:///vault/a.note";
    let e1 = range_edit(0, 0, 0, 1, b"H");
    let e2 = range_edit(0, 5, 0, 6, b"!");
    let e3 = full_edit(b"done");

    // the edits in two versioned events against one note
    let mut ix = new_index();
    assert!(ix.handle_open(uri, b"hello world".to_vec(), 1));
    assert!(ix.handle_edit(uri, 2, &vec![e1, e2]));
    assert!(ix.handle_edit(uri, 3, &vec![e3]));
    let split = ix.note_at_uri(uri).unwrap().document.clone().unwrap();

    // the same edits in a single batch
    let e1b = range_edit(0, 0, 0, 1, b"H");
    let e2b = range_edit(0, 5, 0, 6, b"!");
    let e3b = full_edit(b"done");
    let mut iy = new_index();
    assert!(iy.handle_open(uri, b"hello world".to_vec(), 1));
    assert!(iy.handle_edit(uri, 2, &vec![e1b, e2b, e3b]));
    let whole = iy.note_at_uri(uri).unwrap().document.clone().unwrap();

    assert_eq!(split, whole);
}

#[test]
fn extract_links_finds_each_identity_once() {
    let doc = b"see [[A]] and [[B (list)]] and [[A]] again".to_vec();
    let links = extract_links(&doc);
    assert_eq!(links.len(), 2);
    assert_eq!(links[0].name, b"A".to_vec());
    assert_eq!(links[0].kind, NoteKind::Note);
    assert_eq!(links[1].name, b"B".to_vec());
    assert_eq!(links[1].kind, NoteKind::List);
}

#[test]
fn extract_links_empty_and_malformed() {
    assert_eq!(extract_links(&b"no links here".to_vec()).len(), 0);
    assert_eq!(extract_links(&b"".to_vec()).len(), 0);
    // an unresolvable link construct is dropped silently
    let links = extract_links(&b"[[)bad(]] then [[Ok]]".to_vec());
    assert_eq!(links.len(), 1);
    assert_eq!(links[0].name, b"Ok".to_vec());
}

#[test]
fn note_outlinks_follow_edits() {
    let uri: &[u8] = b"file:///vault/a.note";
    let mut ix = new_index();
    assert!(ix.handle_open(uri, b"go [[B]]".to_vec(), 1));
    {
        let note = ix.note_at_uri(uri).unwrap();
        assert_eq!(note.outlinks.len(), 1);
        assert_eq!(note.outlinks[0].name, b"B".to_vec());
    }
    assert!(ix.handle_edit(uri, 2, &vec![full_edit(b"no more links")]));
    assert_eq!(ix.note_at_uri(uri).unwrap().outlinks.len(), 0);
}

#[test]
fn scan_seeds_one_note_per_recognized_extension() {
    let mut ix = new_index();
    let files: Vec<(Vec<u8>, Vec<u8>)> = vec![
        (b"/vault/a.note".to_vec(), b"a body".to_vec()),
        (b"/vault/b.art".to_vec(), b"b body".to_vec()),
        (b"/vault/c.list".to_vec(), b"c body".to_vec()),
        (b"/vault/d.index".to_vec(), b"d body".to_vec()),
        (b"/vault/e.dump".to_vec(), b"e body".to_vec()),
        (b"/vault/skip.txt".to_vec(), b"ignored".to_vec()),
    ];
    ix.scan(files);
    assert_eq!(ix.note_count(), 5);
    let b = ix.note_at_uri(b"file:///vault/b.art").expect("article stored");
    assert_eq!(b.id.kind, NoteKind::Article);
    assert_eq!(b.document.as_ref().unwrap(), &b"b body".to_vec());
    assert_eq!(ix.note_at_uri(b"file:///vault/a.note").unwrap().id.kind, NoteKind::Note);
    assert_eq!(ix.note_at_uri(b"file:///vault/c.list").unwrap().id.kind, NoteKind::List);
    assert_eq!(ix.note_at_uri(b"file:///vault/d.index").unwrap().id.kind, NoteKind::Index);
    assert_eq!(ix.note_at_uri(b"file:///vault/e.dump").unwrap().id.kind, NoteKind::Dump);
}

#[test]
fn scan_collision_last_file_wins() {
    let mut ix = new_index();
    let files: Vec<(Vec<u8>, Vec<u8>)> = vec![
        (b"/vault/x/a.note".to_vec(), b"first".to_vec()),
        (b"/vault/y/a.note".to_vec(), b"second".to_vec()),
    ];
    ix.scan(files);
    assert_eq!(ix.note_count(), 1);
    let note = ix.note_at_uri(b"file:///vault/a.note").unwrap();
    assert_eq!(note.document.as_ref().unwrap(), &b"second".to_vec());
}

#[test]
fn hover_inside_uri_span_returns_literal_text() {
    let uri: &[u8] = b"file:///vault/a.note";
    let mut ix = new_index();
    assert!(ix.handle_open(uri, b"x\nsee [[Foo (list)]] end".to_vec(), 1));
    let hit = ix.hover(uri, 1, 7).expect("inside the uri span");
    assert_eq!(hit, b"Foo (list)".to_vec());
}

#[test]
fn hover_outside_any_link_returns_nothing() {
    let uri: &[u8] = b"file:///vault/a.note";
    let mut ix = new_index();
    assert!(ix.handle_open(uri, b"see [[Foo]] end".to_vec(), 1));
    assert!(ix.hover(uri, 0, 0).is_none());
    assert!(ix.hover(uri, 0, 12).is_none());
    assert!(ix.hover(b"file:///vault/other.note", 0, 0).is_none());
}

#[test]
fn goto_definition_resolves_through_the_index() {
    let mut ix = new_index();
    assert!(ix.handle_open(b"file:///vault/B.note", b"target".to_vec(), 1));
    assert!(ix.handle_open(b"file:///vault/a.note", b"go [[B]] now".to_vec(), 1));
    let f = ix.goto_definition(b"file:///vault/a.note", 0, 5).expect("target stored");
    assert_eq!(f, b"B.note".to_vec());
    // a link whose target is not in the vault resolves to nothing
    assert!(ix.handle_edit(b"file:///vault/a.note", 2, &vec![full_edit(b"go [[C]] now")]));
    assert!(ix.goto_definition(b"file:///vault/a.note", 0, 5).is_none());
}

#[test]
fn open_replaces_existing_buffer() {
    let uri: &[u8] = b"file:///vault/a.note";
    let mut ix = new_index();
    assert!(ix.handle_open(uri, b"first".to_vec(), 1));
    assert!(ix.handle_open(uri, b"second [[L]]".to_vec(), 1));
    assert_eq!(ix.note_count(), 1);
    let note = ix.note_at_uri(uri).unwrap();
    assert_eq!(note.document.as_ref().unwrap(), &b"second [[L]]".to_vec());
    assert_eq!(note.outlinks.len(), 1);
    assert!(!ix.handle_open(b"file:///vault/bad.txt", b"x".to_vec(), 1));
}

#[test]
fn tree_span_covers_edge_buffers() {
    let uri: &[u8] = b"file:///vault/a.note";
    let mut ix = new_index();
    assert!(ix.handle_open(uri, b"hi\n\n".to_vec(), 1));
    assert_eq!(ix.tree_span_at_uri(uri), Some((0, 4)));
    assert!(ix.handle_edit(uri, 2, &vec![full_edit(b"")]));
    assert_eq!(ix.tree_span_at_uri(uri), Some((0, 0)));
    assert!(ix.handle_edit(uri, 3, &vec![full_edit(b"* headline\nbody text")]));
    assert_eq!(ix.tree_span_at_uri(uri), Some((0, 20)));
    // leading blanks are lexer padding: the span still ends at the
    // buffer length, though it need not start at byte 0
    assert!(ix.handle_edit(uri, 4, &vec![full_edit(b"  padded start")]));
    let sp = ix.tree_span_at_uri(uri).expect("note is parsed");
    assert!(sp.0 <= sp.1);
    assert_eq!(sp.1, 14);
}

#[test]
fn escaped_uri_reaches_scanned_note() {
    let mut ix = new_index();
    ix.scan(vec![(b"/vault/My Note.note".to_vec(), b"body".to_vec())]);
    let note = ix
        .note_at_uri(b"file:///vault/My%20Note.note")
        .expect("the escaped URI names the scanned note");
    assert_eq!(note.id.name, b"My Note".to_vec());
    assert!(ix.handle_edit(b"file:///vault/My%20Note.note", 1, &vec![full_edit(b"changed")]));
    assert_eq!(
        ix.note_at_uri(b"file:///vault/My Note.note").unwrap().document.as_ref().unwrap(),
        &b"changed".to_vec()
    );
}
