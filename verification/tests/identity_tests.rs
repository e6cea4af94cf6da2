use noteboks::identity::{NoteID, NoteKind};

fn id_from_path(p: &[u8]) -> NoteID {
    NoteID::from_path(p).expect("path should resolve")
}

#[test]
fn path_identity_note_roundtrip() {
    let id = id_from_path(b"vault/name.note");
    assert_eq!(id.name, b"name".to_vec());
    assert_eq!(id.kind, NoteKind::Note);
    assert_eq!(id.to_filename(), b"name.note".to_vec());
}

#[test]
fn path_identity_art_roundtrip() {
    let id = id_from_path(b"vault/name.art");
    assert_eq!(id.name, b"name".to_vec());
    assert_eq!(id.kind, NoteKind::Article);
    assert_eq!(id.to_filename(), b"name.art".to_vec());
}

#[test]
fn path_identity_list_roundtrip() {
    let id = id_from_path(b"name.list");
    assert_eq!(id.name, b"name".to_vec());
    assert_eq!(id.kind, NoteKind::List);
    assert_eq!(id.to_filename(), b"name.list".to_vec());
}

#[test]
fn path_identity_index_roundtrip() {
    let id = id_from_path(b"a/b/name.index");
    assert_eq!(id.name, b"name".to_vec());
    assert_eq!(id.kind, NoteKind::Index);
    assert_eq!(id.to_filename(), b"name.index".to_vec());
}

#[test]
fn path_identity_dump_roundtrip() {
    let id = id_from_path(b"name.dump");
    assert_eq!(id.name, b"name".to_vec());
    assert_eq!(id.kind, NoteKind::Dump);
    assert_eq!(id.to_filename(), b"name.dump".to_vec());
}

#[test]
fn path_unrecognized_extension_fails() {
    assert!(NoteID::from_path(b"vault/name.txt").is_none());
    assert!(NoteID::from_path(b"vault/name").is_none());
    assert!(NoteID::from_path(b"vault/.note").is_none());
    assert!(NoteID::from_path(b"vault/").is_none());
}

#[test]
fn path_stem_keeps_inner_dots() {
    let id = id_from_path(b"a.b.note");
    assert_eq!(id.name, b"a.b".to_vec());
    assert_eq!(id.kind, NoteKind::Note);
}

#[test]
fn uri_resolves_file_scheme_only() {
    let id = NoteID::from_uri(b"file:///vault/Foo.note").expect("file URI resolves");
    assert_eq!(id.name, b"Foo".to_vec());
    assert_eq!(id.kind, NoteKind::Note);
    assert!(NoteID::from_uri(b"http://vault/Foo.note").is_none());
    assert!(NoteID::from_uri(b"file://host/Foo.note").is_none());
    assert!(NoteID::from_uri(b"file://").is_none());
    assert!(NoteID::from_uri(b"").is_none());
}

#[test]
fn link_text_plain_name_defaults_to_note() {
    let id = NoteID::from_link(b"Foo").expect("plain name resolves");
    assert_eq!(id.name, b"Foo".to_vec());
    assert_eq!(id.kind, NoteKind::Note);
}

#[test]
fn link_text_article_keyword() {
    let id = NoteID::from_link(b"Foo (article)").expect("keyword resolves");
    assert_eq!(id.name, b"Foo".to_vec());
    assert_eq!(id.kind, NoteKind::Article);
}

#[test]
fn link_text_unrecognized_keyword_falls_back_to_note() {
    let id = NoteID::from_link(b"Foo (bogus)").expect("permissive fallback");
    assert_eq!(id.name, b"Foo".to_vec());
    assert_eq!(id.kind, NoteKind::Note);
}

#[test]
fn link_text_empty_fails() {
    assert!(NoteID::from_link(b"").is_none());
    assert!(NoteID::from_link(b"   ").is_none());
}

#[test]
fn link_text_all_keywords() {
    assert_eq!(NoteID::from_link(b"X (note)").unwrap().kind, NoteKind::Note);
    assert_eq!(NoteID::from_link(b"X (list)").unwrap().kind, NoteKind::List);
    assert_eq!(NoteID::from_link(b"X (index)").unwrap().kind, NoteKind::Index);
    assert_eq!(NoteID::from_link(b"X (dump)").unwrap().kind, NoteKind::Dump);
}

#[test]
fn link_text_trims_and_allows_name_punctuation() {
    let id = NoteID::from_link(b"  My notes/2024-05? ").expect("name bytes resolve");
    assert_eq!(id.name, b"My notes/2024-05?".to_vec());
    assert_eq!(id.kind, NoteKind::Note);
}

#[test]
fn link_text_rejects_bad_shapes() {
    assert!(NoteID::from_link(b"Foo (list) x").is_none());
    assert!(NoteID::from_link(b"Foo ((list))").is_none());
    assert!(NoteID::from_link(b"Foo]").is_none());
    assert!(NoteID::from_link(b"(list)").is_none());
}

#[test]
fn kind_keyword_roundtrip() {
    assert_eq!(NoteKind::from_str(b"note"), Some(NoteKind::Note));
    assert_eq!(NoteKind::from_str(b"article"), Some(NoteKind::Article));
    assert_eq!(NoteKind::from_str(b"list"), Some(NoteKind::List));
    assert_eq!(NoteKind::from_str(b"index"), Some(NoteKind::Index));
    assert_eq!(NoteKind::from_str(b"dump"), Some(NoteKind::Dump));
    assert_eq!(NoteKind::from_str(b"art"), None);
    assert_eq!(NoteKind::Article.to_str(), b"article".to_vec());
    assert_eq!(NoteKind::Article.ext(), b"art".to_vec());
    assert_eq!(NoteKind::from_ext(b"art"), Some(NoteKind::Article));
    assert_eq!(NoteKind::from_ext(b"article"), None);
    assert_eq!(NoteKind::from_path(b"x.dump"), Some(NoteKind::Dump));
    assert_eq!(NoteKind::from_path(b"x.pdf"), None);
}

#[test]
fn uri_percent_escapes_decode() {
    let id = NoteID::from_uri(b"file:///vault/My%20Note.note").expect("escaped URI resolves");
    assert_eq!(id.name, b"My Note".to_vec());
    // hex digits in either case decode; a malformed escape is kept as it
    // stands
    let up = NoteID::from_uri(b"file:///vault/a%2Db.note").expect("escaped hyphen resolves");
    assert_eq!(up.name, b"a-b".to_vec());
    let raw = NoteID::from_uri(b"file:///vault/a%zzb.note").expect("literal bytes resolve");
    assert_eq!(raw.name, b"a%zzb".to_vec());
}
