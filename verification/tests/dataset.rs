use nano_gpt::dataset::TinyShakespeare;

#[test]
fn from_text_yields_lines() {
    let ds = TinyShakespeare::from_text("first\nsecond\nthird".to_string());
    assert_eq!(ds.len(), 3);
    assert_eq!(ds.get(0).as_deref(), Some("first"));
    assert_eq!(ds.get(1).as_deref(), Some("second"));
    assert_eq!(ds.get(2).as_deref(), Some("third"));
    assert_eq!(ds.get(3), None);
}

#[test]
fn from_text_drops_trailing_empty_line() {
    let ds = TinyShakespeare::from_text("a\nb\n".to_string());
    assert_eq!(ds.len(), 2);
    assert_eq!(ds.get(0).as_deref(), Some("a"));
    assert_eq!(ds.get(1).as_deref(), Some("b"));
}

#[test]
fn from_text_preserves_full_corpus() {
    let raw = "alpha\nbeta\ngamma";
    let ds = TinyShakespeare::from_text(raw.to_string());
    assert_eq!(ds.text(), raw);
}

#[test]
fn empty_text_has_no_lines() {
    let ds = TinyShakespeare::from_text(String::new());
    assert_eq!(ds.len(), 0);
    assert_eq!(ds.get(0), None);
    assert_eq!(ds.text(), "");
}

#[test]
fn lone_newline_is_one_empty_line() {
    let ds = TinyShakespeare::from_text("\n".to_string());
    assert_eq!(ds.len(), 1);
    assert_eq!(ds.get(0).as_deref(), Some(""));
    assert_eq!(ds.get(1), None);
}

#[test]
fn blank_lines_inside_the_text_are_kept() {
    let ds = TinyShakespeare::from_text("a\n\nb\n\n".to_string());
    assert_eq!(ds.len(), 4);
    assert_eq!(ds.get(0).as_deref(), Some("a"));
    assert_eq!(ds.get(1).as_deref(), Some(""));
    assert_eq!(ds.get(2).as_deref(), Some("b"));
    assert_eq!(ds.get(3).as_deref(), Some(""));
    assert_eq!(ds.get(4), None);
}

#[test]
fn multi_byte_characters_are_cut_at_the_right_place() {
    let ds = TinyShakespeare::from_text("héllo\nあいう\n𝄞x\nz".to_string());
    assert_eq!(ds.len(), 4);
    assert_eq!(ds.get(0).as_deref(), Some("héllo"));
    assert_eq!(ds.get(1).as_deref(), Some("あいう"));
    assert_eq!(ds.get(2).as_deref(), Some("𝄞x"));
    assert_eq!(ds.get(3).as_deref(), Some("z"));
}

#[test]
fn lines_rejoin_to_the_text() {
    let raw = "To be,\nor not\n\nto be\n";
    let ds = TinyShakespeare::from_text(raw.to_string());
    let mut joined = String::new();
    for i in 0..ds.len() {
        if i > 0 {
            joined.push('\n');
        }
        joined.push_str(&ds.get(i).unwrap());
    }
    joined.push('\n');
    assert_eq!(joined, raw);
    for i in 0..ds.len() {
        assert!(!ds.get(i).unwrap().contains('\n'));
    }
}

#[test]
fn clone_keeps_text_and_lines() {
    let ds = TinyShakespeare::from_text("one\ntwo".to_string());
    let copy = ds.clone();
    assert_eq!(copy.text(), "one\ntwo");
    assert_eq!(copy.len(), 2);
    assert_eq!(copy.get(1).as_deref(), Some("two"));
}
