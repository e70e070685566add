use metamorph::codec::{decode, encode};
use metamorph::note::Note;

fn sorted(mut v: Vec<String>) -> Vec<String> {
    v.sort();
    v
}

#[test]
fn decode_title_line_with_id() {
    let n = decode("# #x First\n\nbody #alpha");
    assert_eq!(n.id, "x");
    assert_eq!(n.title, "First");
    assert_eq!(n.tags, vec!["alpha".to_string()]);
    assert!(n.text.contains("body #alpha"));
}

#[test]
fn decode_title_line_without_id() {
    let n = decode("#  Just a title  \n\nbody");
    // "#  Just..." does not start with "# " followed by an id token at all;
    // the line "#  Just a title  " starts with "# " so it is a title line.
    assert_eq!(n.id, "");
    assert_eq!(n.title, "Just a title");
}

#[test]
fn decode_collects_tags_sorted_and_unique() {
    let n = decode("one #b two #a three #b\nmore #a/b-c_d");
    assert_eq!(
        n.tags,
        vec!["a".to_string(), "a/b-c_d".to_string(), "b".to_string()]
    );
}

#[test]
fn decode_double_hash_escapes_tag() {
    let n = decode("value ##notatag stays");
    assert!(n.tags.is_empty());
    assert_eq!(n.text, "value ##notatag stays\n");
}

#[test]
fn decode_drops_comment_lines() {
    let n = decode("# #id T\n[comment]: # (hint #hidden)\nbody #seen");
    assert_eq!(n.tags, vec!["seen".to_string()]);
    assert!(!n.text.contains("hint"));
}

#[test]
fn decode_strips_carriage_returns() {
    let n = decode("# #w Title\r\n\r\nbody #t\r\n");
    assert_eq!(n.id, "w");
    assert_eq!(n.title, "Title");
    assert_eq!(n.tags, vec!["t".to_string()]);
}

#[test]
fn decode_empty_input() {
    let n = decode("");
    assert_eq!(n.id, "");
    assert_eq!(n.title, "");
    assert_eq!(n.text, "");
    assert!(n.tags.is_empty());
}

#[test]
fn decode_tag_at_line_start() {
    let n = decode("#lead rest");
    assert_eq!(n.tags, vec!["lead".to_string()]);
}

#[test]
fn encode_exact_format() {
    let n = Note {
        id: "abc".to_string(),
        title: "Hello".to_string(),
        text: "line one\nline #two".to_string(),
        tags: vec!["two".to_string()],
    };
    assert_eq!(encode(&n), "# #abc Hello\n\nline one\nline #two\n");
}

#[test]
fn round_trip_id_and_title() {
    let n = Note {
        id: "note-1".to_string(),
        title: "A tidy title".to_string(),
        text: "body with a #tag\nand a second line".to_string(),
        tags: vec!["tag".to_string()],
    };
    let back = decode(&encode(&n));
    assert_eq!(back.id, n.id);
    assert_eq!(back.title, n.title);
}

#[test]
fn round_trip_keeps_body_tags() {
    let n = Note {
        id: "r2".to_string(),
        title: "T".to_string(),
        text: "first #alpha then #beta and #alpha again".to_string(),
        tags: vec!["alpha".to_string(), "beta".to_string()],
    };
    let back = decode(&encode(&n));
    assert_eq!(sorted(back.tags), vec!["alpha".to_string(), "beta".to_string()]);
}

#[test]
fn title_only_tags_are_not_reextracted() {
    // A tag that stood only in the title line is lost on a round trip, as
    // the encoding documents.
    let first = decode("# #id Title with #only-here\n\nplain body");
    assert!(first.tags.is_empty());
}

#[test]
fn later_title_line_overwrites_earlier() {
    let n = decode("# #a One\n# #b Two\nbody");
    assert_eq!(n.id, "b");
    assert_eq!(n.title, "Two");
}
