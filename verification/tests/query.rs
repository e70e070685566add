use metamorph::note::Note;
use metamorph::notebook::Notebook;

fn entry(stem: &str, content: &str) -> (String, String) {
    (stem.to_string(), content.to_string())
}

fn strings(v: &[&str]) -> Vec<String> {
    v.iter().map(|s| s.to_string()).collect()
}

fn sample() -> Notebook {
    let entries = vec![
        entry("x", "# #x First\n\nbody #alpha"),
        entry("y", "# #y Second\n\nbody #beta"),
        entry("z", "# #z Third\n\nboth #alpha and #gamma"),
    ];
    Notebook::on_entries("/tmp/notes", &entries).unwrap()
}

fn ids(notes: &[Note]) -> Vec<String> {
    let mut v: Vec<String> = notes.iter().map(|n| n.id.clone()).collect();
    v.sort();
    v
}

#[test]
fn open_then_query_by_tag() {
    let nb = sample();
    let found = nb.query_and(&strings(&["alpha"]), &strings(&[])).unwrap();
    assert_eq!(ids(&found), vec!["x".to_string(), "z".to_string()]);
    let one = nb.query_and(&strings(&["beta"]), &strings(&[])).unwrap();
    assert_eq!(one.len(), 1);
    assert_eq!(one[0].id, "y");
    assert_eq!(one[0].title, "Second");
    assert_eq!(one[0].tags, vec!["beta".to_string()]);
}

#[test]
fn empty_query_returns_all_notes() {
    let nb = sample();
    let found = nb.query_and(&strings(&[]), &strings(&[])).unwrap();
    assert_eq!(ids(&found), vec!["x".to_string(), "y".to_string(), "z".to_string()]);
}

#[test]
fn including_and_excluding_same_tag_selects_nothing() {
    let nb = sample();
    for tag in ["alpha", "beta", "unknown", "x"] {
        let found = nb.query_and(&strings(&[tag]), &strings(&[tag])).unwrap();
        assert!(found.is_empty());
    }
}

#[test]
fn two_single_holder_tags_select_the_union() {
    let nb = sample();
    let found = nb.query_and(&strings(&["beta", "gamma"]), &strings(&[])).unwrap();
    assert_eq!(ids(&found), vec!["y".to_string(), "z".to_string()]);
}

#[test]
fn exclusion_subtracts() {
    let nb = sample();
    let found = nb.query_and(&strings(&["alpha"]), &strings(&["gamma"])).unwrap();
    assert_eq!(ids(&found), vec!["x".to_string()]);
}

#[test]
fn query_by_raw_identifier() {
    let nb = sample();
    let found = nb.query_and(&strings(&["y"]), &strings(&[])).unwrap();
    assert_eq!(ids(&found), vec!["y".to_string()]);
}

#[test]
fn expand_tag_known_and_unknown() {
    let nb = sample();
    let mut known = nb.expand_tag(&"alpha".to_string());
    known.sort();
    assert_eq!(known, vec!["x".to_string(), "z".to_string()]);
    let unknown = nb.expand_tag(&"nosuch".to_string());
    assert_eq!(unknown, vec!["nosuch".to_string()]);
}

#[test]
fn expand_tag_as_and_unions_and_subtracts() {
    let nb = sample();
    let mut got = nb.expand_tag_as_and(&strings(&["alpha", "beta"]), &strings(&["gamma"]));
    got.sort();
    assert_eq!(got, vec!["x".to_string(), "y".to_string()]);
}

#[test]
fn has_known_identifier() {
    let nb = sample();
    assert!(nb.has(&"x".to_string()));
    assert!(!nb.has(&"alpha".to_string()));
}

#[test]
fn identifiers_lists_all() {
    let nb = sample();
    let mut got = nb.identifiers();
    got.sort();
    assert_eq!(got, vec!["x".to_string(), "y".to_string(), "z".to_string()]);
}

#[test]
fn tags_lists_sorted_vocabulary() {
    let nb = sample();
    assert_eq!(
        nb.tags(),
        vec!["alpha".to_string(), "beta".to_string(), "gamma".to_string()]
    );
}

#[test]
fn search_tags_by_substring() {
    let nb = sample();
    let mut got = nb.search_tags("a").unwrap();
    got.sort();
    assert_eq!(got, vec!["alpha".to_string(), "beta".to_string(), "gamma".to_string()]);
    let narrow = nb.search_tags("bet").unwrap();
    assert_eq!(narrow, vec!["beta".to_string()]);
    let none = nb.search_tags("zzz").unwrap();
    assert!(none.is_empty());
}

#[test]
fn stem_is_identifier_fallback() {
    let entries = vec![entry("fallback", "no title here #t")];
    let nb = Notebook::on_entries("/tmp/notes", &entries).unwrap();
    let found = nb.query_and(&strings(&["t"]), &strings(&[])).unwrap();
    assert_eq!(found.len(), 1);
    assert_eq!(found[0].id, "fallback");
}

#[test]
fn empty_notebook_queries_empty() {
    let nb = Notebook::on_entries("/tmp/none", &Vec::new()).unwrap();
    assert!(nb.query_and(&strings(&[]), &strings(&[])).unwrap().is_empty());
    assert!(nb.identifiers().is_empty());
    assert!(nb.tags().is_empty());
}

#[test]
fn duplicate_identifiers_collapse_to_the_last_entry() {
    let entries = vec![
        entry("a", "# #dup One\n\nfirst #x"),
        entry("b", "# #dup Two\n\nsecond #y"),
    ];
    let nb = Notebook::on_entries("/tmp/notes", &entries).unwrap();
    let all = nb.query_and(&strings(&[]), &strings(&[])).unwrap();
    assert_eq!(all.len(), 1);
    assert_eq!(all[0].id, "dup");
    assert_eq!(all[0].title, "Two");
    assert!(nb.query_and(&strings(&["x"]), &strings(&[])).unwrap().is_empty());
}

#[test]
fn reindex_drops_stale_tag_edges() {
    let mut nb = sample();
    let replacement = Note {
        id: "x".to_string(),
        title: "First".to_string(),
        text: "now #delta".to_string(),
        tags: vec!["delta".to_string()],
    };
    nb.add_to_index(replacement).unwrap();
    // "alpha" is now held only by z: the stale edge to x is gone.
    let found = nb.query_and(&strings(&["alpha"]), &strings(&[])).unwrap();
    assert_eq!(ids(&found), vec!["z".to_string()]);
    let fresh = nb.query_and(&strings(&["delta"]), &strings(&[])).unwrap();
    assert_eq!(ids(&fresh), vec!["x".to_string()]);
    // Still three notes: the replacement kept its identifier.
    let all = nb.query_and(&strings(&[]), &strings(&[])).unwrap();
    assert_eq!(all.len(), 3);
}
