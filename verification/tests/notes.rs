use notes_store::create::{candidate_id, create_candidate, MAX_CREATE_ATTEMPTS};
use notes_store::ident::{generate_id, sanitize_id};
use notes_store::listing::{assemble_notes, select_md_names, NoteRecord};
use notes_store::paths::{file_stem, is_md_file, join_path, note_path, note_target};

#[test]
fn sanitize_strips_traversal() {
    assert_eq!(sanitize_id("../../etc/passwd"), "etcpasswd");
}

#[test]
fn sanitize_falls_back_when_nothing_is_left() {
    assert_eq!(sanitize_id("!!!"), "note");
    assert_eq!(sanitize_id(""), "note");
    assert_eq!(sanitize_id("../.."), "note");
}

#[test]
fn sanitize_keeps_allowed_characters() {
    assert_eq!(sanitize_id("abc-DEF_123"), "abc-DEF_123");
    assert_eq!(sanitize_id("a b\tc"), "abc");
    assert_eq!(sanitize_id("caf\u{e9} notes"), "cafnotes");
    assert_eq!(sanitize_id("note"), "note");
}

#[test]
fn note_path_is_direct_child() {
    assert_eq!(note_path("/data/notes", "abc"), "/data/notes/abc.md");
    assert_eq!(note_path("/data/notes", "note_1"), "/data/notes/note_1.md");
}

#[test]
fn join_path_inserts_one_separator() {
    assert_eq!(join_path("/data/notes", "a.md"), "/data/notes/a.md");
}

#[test]
fn note_target_sanitizes_before_deriving() {
    let (id, path) = note_target("/data/notes", "../evil");
    assert_eq!(id, "evil");
    assert_eq!(path, "/data/notes/evil.md");
    let (id, path) = note_target("/data/notes", "##");
    assert_eq!(id, "note");
    assert_eq!(path, "/data/notes/note.md");
}

#[test]
fn md_extension_is_recognized_case_insensitively() {
    assert!(is_md_file("a.md"));
    assert!(is_md_file("A.MD"));
    assert!(is_md_file("b.Md"));
    assert!(is_md_file("/some/dir/c.mD"));
}

#[test]
fn other_extensions_are_not_md() {
    assert!(!is_md_file("foo.txt"));
    assert!(!is_md_file("noext"));
    assert!(!is_md_file("a.md.txt"));
    assert!(!is_md_file("a.markdown"));
    assert!(!is_md_file(".md"));
    assert!(!is_md_file("dir.md/plain"));
}

#[test]
fn file_stem_drops_only_the_extension() {
    assert_eq!(file_stem("a.md"), "a");
    assert_eq!(file_stem("/x/y/b.MD"), "b");
    assert_eq!(file_stem("archive.tar.gz"), "archive.tar");
    assert_eq!(file_stem("noext"), "noext");
    assert_eq!(file_stem(".md"), ".md");
    assert_eq!(file_stem(&note_path("/data/notes", "note_5")), "note_5");
}

#[test]
fn generated_id_has_the_expected_shape() {
    let id = generate_id();
    assert!(id.starts_with("note_"));
    let digits = &id["note_".len()..];
    assert!(!digits.is_empty());
    assert!(digits.chars().all(|c| c.is_ascii_digit()));
    assert_eq!(sanitize_id(&id), id);
}

#[test]
fn candidate_ids_follow_the_retry_scheme() {
    assert_eq!(candidate_id("note_100", 0), "note_100");
    assert_eq!(candidate_id("note_100", 1), "note_100_1");
    assert_eq!(candidate_id("note_100", 4), "note_100_4");
    assert_eq!(candidate_id("a!b", 2), "ab_2");
}

#[test]
fn create_candidates_stop_at_the_bound() {
    assert_eq!(MAX_CREATE_ATTEMPTS, 5);
    let c = create_candidate("/data/notes", "note_7", 0).unwrap();
    assert_eq!(c.0, "note_7");
    assert_eq!(c.1, "/data/notes/note_7.md");
    let c = create_candidate("/data/notes", "note_7", 3).unwrap();
    assert_eq!(c.0, "note_7_3");
    assert_eq!(c.1, "/data/notes/note_7_3.md");
    assert!(create_candidate("/data/notes", "note_7", 5).is_none());
    assert!(create_candidate("/data/notes", "note_7", 6).is_none());
}

#[test]
fn select_keeps_only_markdown_names() {
    let names = vec![
        "note_1.md".to_string(),
        "foo.txt".to_string(),
        "note_2.MD".to_string(),
        ".md".to_string(),
        "README".to_string(),
    ];
    let kept = select_md_names(&names);
    assert_eq!(kept, vec!["note_1.md".to_string(), "note_2.MD".to_string()]);
}

fn entry(name: &str, content: &str) -> (String, String) {
    (name.to_string(), content.to_string())
}

#[test]
fn listing_orders_ids_descending_as_strings() {
    let entries = vec![
        entry("note_100.md", "a"),
        entry("note_50.md", "b"),
        entry("note_9.md", "c"),
    ];
    let notes: Vec<NoteRecord> = assemble_notes("/data/notes", &entries);
    let ids: Vec<&str> = notes.iter().map(|n| n.id.as_str()).collect();
    assert_eq!(ids, vec!["note_9", "note_50", "note_100"]);
}

#[test]
fn listing_reports_id_path_and_content() {
    let entries = vec![entry("hello.md", "Hi there")];
    let notes = assemble_notes("/data/notes", &entries);
    assert_eq!(notes.len(), 1);
    assert_eq!(notes[0].id, "hello");
    assert_eq!(notes[0].path, "/data/notes/hello.md");
    assert_eq!(notes[0].content, "Hi there");
}

#[test]
fn created_note_shows_up_in_listing() {
    let id = sanitize_id(&generate_id());
    let name = format!("{id}.md");
    let entries = vec![entry("zzz.md", "other"), entry(&name, "")];
    let notes = assemble_notes("/data/notes", &entries);
    assert!(notes.iter().any(|n| n.id == id && n.content.is_empty()));
}

#[test]
fn non_markdown_files_are_ignored() {
    let entries = vec![
        entry("foo.txt", "plain"),
        entry("note_1.md", "kept"),
        entry("image.png", "bits"),
    ];
    let notes = assemble_notes("/data/notes", &entries);
    assert_eq!(notes.len(), 1);
    assert_eq!(notes[0].id, "note_1");
}

#[test]
fn empty_listing_stays_empty() {
    let entries: Vec<(String, String)> = Vec::new();
    let notes = assemble_notes("/data/notes", &entries);
    assert!(notes.is_empty());
}

#[test]
fn equal_update_targets_mean_idempotent_updates() {
    // update(id, "X") twice writes the same path both times, so the file is
    // left holding "X" either way; the targets must agree exactly.
    let first = note_target("/data/notes", "n1");
    let second = note_target("/data/notes", "n1");
    assert_eq!(first, second);
}
