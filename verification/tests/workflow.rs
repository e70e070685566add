use metamorph::err::ErrorKind;
use metamorph::interactive::InteractiveNotebook;
use metamorph::notebook::{EditorOutcome, Notebook};
use metamorph::tissue;

fn entry(stem: &str, content: &str) -> (String, String) {
    (stem.to_string(), content.to_string())
}

fn strings(v: &[&str]) -> Vec<String> {
    v.iter().map(|s| s.to_string()).collect()
}

fn sample() -> Notebook {
    let entries = vec![
        entry("x", "# #x First\n\nbody #alpha"),
        entry("y", "# #y Second\n\nbody #alpha"),
    ];
    Notebook::on_entries("/tmp/notes", &entries).unwrap()
}

#[test]
fn create_with_failing_editor_changes_nothing() {
    let mut nb = sample();
    let r = nb.iadd(&EditorOutcome::Failure);
    let e = r.unwrap_err();
    assert_eq!(e.kind, ErrorKind::EditorFailure);
    let all = nb.query_and(&strings(&[]), &strings(&[])).unwrap();
    assert_eq!(all.len(), 2);
}

#[test]
fn create_refuses_vacuous_note() {
    let mut nb = sample();
    let r = nb.iadd(&EditorOutcome::Saved("".to_string()));
    let e = r.unwrap_err();
    assert_eq!(e.kind, ErrorKind::EmptyNote);
    let all = nb.query_and(&strings(&[]), &strings(&[])).unwrap();
    assert_eq!(all.len(), 2);
}

#[test]
fn create_merges_and_repairs_identifier() {
    let mut nb = sample();
    let r = nb.iadd(&EditorOutcome::Saved(
        "# #fresh A new note\n\nwith a #gamma tag".to_string(),
    ));
    let note = r.unwrap();
    assert_eq!(note.id, "fresh");
    let found = nb.query_and(&strings(&["gamma"]), &strings(&[])).unwrap();
    assert_eq!(found.len(), 1);
    assert_eq!(found[0].id, "fresh");
}

#[test]
fn create_generates_identifier_when_none_given() {
    let mut nb = sample();
    let r = nb.iadd(&EditorOutcome::Saved("# Untitled note\n\nbody".to_string()));
    let note = r.unwrap();
    assert_eq!(note.id.chars().count(), 45);
    assert!(nb.has(&note.id));
}

#[test]
fn edit_with_ambiguous_query_stops_before_editor() {
    let nb = sample();
    // Two notes carry "alpha": no editor round may start.
    let r = nb.iedit(&strings(&["alpha"]), &strings(&[]));
    let e = r.unwrap_err();
    assert_eq!(e.kind, ErrorKind::AmbiguousTarget);
    // A query matching nothing is refused the same way.
    let none = nb.iedit(&strings(&["nosuch"]), &strings(&[]));
    assert_eq!(none.unwrap_err().kind, ErrorKind::AmbiguousTarget);
}

#[test]
fn edit_resolves_unique_target() {
    let nb = sample();
    let target = nb.iedit(&strings(&["x"]), &strings(&[])).unwrap();
    assert_eq!(target.id, "x");
    assert_eq!(target.title, "First");
}

#[test]
fn edit_merge_forces_identifier_back() {
    let mut nb = sample();
    let r = nb.iedit_merge(
        &"x".to_string(),
        &EditorOutcome::Saved("# #sneaky Renamed\n\nnew body #edited".to_string()),
    );
    let note = r.unwrap();
    assert_eq!(note.id, "x");
    assert_eq!(note.title, "Renamed");
    let all = nb.query_and(&strings(&[]), &strings(&[])).unwrap();
    assert_eq!(all.len(), 2);
    let found = nb.query_and(&strings(&["edited"]), &strings(&[])).unwrap();
    assert_eq!(found.len(), 1);
    assert_eq!(found[0].id, "x");
}

#[test]
fn edit_merge_with_failing_editor_changes_nothing() {
    let mut nb = sample();
    let r = nb.iedit_merge(&"x".to_string(), &EditorOutcome::Failure);
    assert_eq!(r.unwrap_err().kind, ErrorKind::EditorFailure);
    let found = nb.query_and(&strings(&["x"]), &strings(&[])).unwrap();
    assert_eq!(found[0].title, "First");
}

#[test]
fn edit_merge_refuses_unknown_target() {
    let mut nb = sample();
    let r = nb.iedit_merge(
        &"ghost".to_string(),
        &EditorOutcome::Saved("# #g G\n\nbody".to_string()),
    );
    assert_eq!(r.unwrap_err().kind, ErrorKind::AmbiguousTarget);
}

#[test]
fn scratch_text_holds_note_and_listing() {
    let nb = sample();
    let scratch = nb.iadd_scratch();
    assert!(scratch.starts_with("# #<uid optional> <title>\n"));
    assert!(scratch.contains("[comment]: # (List of existing tags:)\n"));
    assert!(scratch.contains("[comment]: # (#alpha)\n"));
    assert!(scratch.contains("[comment]: # (List of existing notes:)\n"));
    assert!(scratch.contains("[comment]: # (#x - First)\n"));
    assert!(scratch.contains("[comment]: # (#y - Second)\n"));
}

#[test]
fn interactive_front_forwards_rounds() {
    let mut inb = InteractiveNotebook::create(sample());
    let all = inb.list(&strings(&[]), &strings(&[])).unwrap();
    assert_eq!(all.len(), 2);
    let scratch = inb.iadd_scratch();
    assert!(scratch.contains("[comment]: # (#alpha)\n"));
    let r = inb.iadd(&EditorOutcome::Failure);
    assert_eq!(r.unwrap_err().kind, ErrorKind::EditorFailure);
    let target = inb.iedit(&strings(&["x"]), &strings(&[])).unwrap();
    let edit_scratch = inb.iedit_scratch(&target);
    assert!(edit_scratch.starts_with("# #x First\n"));
    let merged = inb
        .iedit_merge(&target.id, &EditorOutcome::Saved("# #x First\n\nbody #alpha".to_string()))
        .unwrap();
    assert_eq!(merged.id, "x");
}

#[test]
fn tissue_builder_round() {
    let cfg = tissue::Config::builder().build();
    assert_eq!(cfg, tissue::Config::default());
    let opened = tissue::Tissue::open(cfg);
    assert!(opened.is_ok());
}

#[test]
fn error_carries_kind_and_message() {
    let e = metamorph::err::Error::new(ErrorKind::IOFailure, "disk trouble");
    assert_eq!(e.kind, ErrorKind::IOFailure);
    assert_eq!(e.describe(), "disk trouble");
    let d = metamorph::err::Error::new(ErrorKind::DecodeFailure, "bad file");
    assert_eq!(d.kind, ErrorKind::DecodeFailure);
}
