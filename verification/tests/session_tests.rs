use p4_analyzer::cst::CstNode;
use p4_analyzer::position::{Position, Range};
use p4_analyzer::session::{apply_edit, pos_to_char_index, Session};

fn pos(line: u32, character: u32) -> Position {
    Position { line, character }
}

fn range(l1: u32, c1: u32, l2: u32, c2: u32) -> Range {
    Range { start: pos(l1, c1), end: pos(l2, c2) }
}

fn leaf(kind: &str, named: bool, field: Option<&str>, r: Range, text: &str) -> CstNode {
    CstNode {
        kind: kind.to_string(),
        named,
        field: field.map(|f| f.to_string()),
        range: r,
        text: text.to_string(),
        children: Vec::new(),
    }
}

fn node(
    kind: &str,
    named: bool,
    field: Option<&str>,
    r: Range,
    text: &str,
    children: Vec<CstNode>,
) -> CstNode {
    CstNode {
        kind: kind.to_string(),
        named,
        field: field.map(|f| f.to_string()),
        range: r,
        text: text.to_string(),
        children,
    }
}

fn one_const_doc(name: &str) -> CstNode {
    let inner = node("base_type", true, None, range(0, 6, 0, 9), "int", Vec::new());
    let type_node = node("type_ref", true, Some("type"), range(0, 6, 0, 9), "int", vec![inner]);
    let name_end = 10 + name.len() as u32;
    let name_node = leaf("name", true, Some("name"), range(0, 10, 0, name_end), name);
    let decl = node(
        "constant_declaration",
        true,
        None,
        range(0, 0, 0, name_end + 5),
        &format!("const int {} = 1;", name),
        vec![type_node, name_node],
    );
    node("source_file", true, None, range(0, 0, 1, 0), &format!("const int {} = 1;", name), vec![decl])
}

#[test]
fn test_pos_to_char_index() {
    assert_eq!(pos_to_char_index("ab\ncd", pos(0, 0)), Some(0));
    assert_eq!(pos_to_char_index("ab\ncd", pos(0, 2)), Some(2));
    assert_eq!(pos_to_char_index("ab\ncd", pos(1, 1)), Some(4));
    assert_eq!(pos_to_char_index("ab\ncd", pos(1, 2)), Some(5));
    // past the line end or past the last line: no index
    assert_eq!(pos_to_char_index("ab\ncd", pos(0, 3)), None);
    assert_eq!(pos_to_char_index("ab\ncd", pos(2, 0)), None);
}

#[test]
fn test_apply_edit_splices_text() {
    let (text, summary) = apply_edit("ab\ncd", range(0, 1, 1, 1), "X").unwrap();
    assert_eq!(text, "aXd");
    assert_eq!(summary.start_char, 1);
    assert_eq!(summary.old_end_char, 4);
    assert_eq!(summary.new_end_char, 2);
}

#[test]
fn test_apply_edit_insertion() {
    let (text, summary) = apply_edit("ab", range(0, 1, 0, 1), "ZZ").unwrap();
    assert_eq!(text, "aZZb");
    assert_eq!(summary.new_end_char, 3);
}

#[test]
fn test_apply_edit_rejects_bad_range() {
    assert!(apply_edit("ab", range(0, 1, 5, 0), "x").is_none());
    assert!(apply_edit("ab", range(0, 9, 0, 9), "x").is_none());
}

#[test]
fn test_session_open_and_query() {
    let mut session = Session::new();
    assert!(session.open_document(
        "file:///a.p4".to_string(),
        "const int A = 1;".to_string(),
        one_const_doc("A"),
    ));
    let symbols = session.symbols_at("file:///a.p4", pos(0, 1)).unwrap();
    assert_eq!(symbols.constants.len(), 1);
    assert_eq!(symbols.constants[0].name, "A");
    assert!(session.symbols_at("file:///other.p4", pos(0, 1)).is_none());
    let hovered = session.node_at("file:///a.p4", pos(0, 10)).unwrap();
    assert_eq!(hovered.content, "A");
}

#[test]
fn test_edit_monotonicity() {
    // the ranged-edit path and a fresh parse of the edited text agree
    let uri = "file:///a.p4";
    let mut session = Session::new();
    assert!(session.open_document(
        uri.to_string(),
        "const int A = 1;".to_string(),
        one_const_doc("A"),
    ));
    let summary = session
        .apply_ranged_change(uri, range(0, 10, 0, 11), "B")
        .unwrap();
    assert_eq!(summary.start_char, 10);
    assert_eq!(summary.old_end_char, 11);
    assert_eq!(summary.new_end_char, 11);
    // the parser collaborator re-parses the edited text
    assert!(session.reparsed(uri, one_const_doc("B")));
    let incremental = session.symbols_at(uri, pos(0, 1)).unwrap();

    let mut fresh = Session::new();
    assert!(fresh.open_document(
        uri.to_string(),
        "const int B = 1;".to_string(),
        one_const_doc("B"),
    ));
    let scratch = fresh.symbols_at(uri, pos(0, 1)).unwrap();
    assert_eq!(incremental, scratch);
    assert_eq!(incremental.constants[0].name, "B");
}

#[test]
fn test_full_change_replaces_analysis() {
    let uri = "file:///a.p4";
    let mut session = Session::new();
    assert!(session.open_document(
        uri.to_string(),
        "const int A = 1;".to_string(),
        one_const_doc("A"),
    ));
    assert!(session.apply_full_change(uri, "const int C = 1;".to_string(), one_const_doc("C")));
    let symbols = session.symbols_at(uri, pos(0, 1)).unwrap();
    assert_eq!(symbols.constants[0].name, "C");
    assert!(!session.apply_full_change("file:///missing.p4", "x".to_string(), one_const_doc("D")));
}

#[test]
fn test_ranged_change_failures_leave_document_alone() {
    let uri = "file:///a.p4";
    let mut session = Session::new();
    assert!(session.open_document(
        uri.to_string(),
        "const int A = 1;".to_string(),
        one_const_doc("A"),
    ));
    // an unknown document is refused
    assert!(session.apply_ranged_change("file:///other.p4", range(0, 0, 0, 1), "x").is_none());
    // a range past the text is refused and the text stays as it was
    assert!(session.apply_ranged_change(uri, range(5, 0, 5, 1), "x").is_none());
    assert_eq!(session.document_source(uri).unwrap(), "const int A = 1;");
    // an unknown document cannot be re-analysed
    assert!(!session.reparsed("file:///other.p4", one_const_doc("B")));
}

#[test]
fn test_reopen_replaces_document() {
    let uri = "file:///a.p4";
    let mut session = Session::new();
    assert!(session.open_document(
        uri.to_string(),
        "const int A = 1;".to_string(),
        one_const_doc("A"),
    ));
    assert!(session.open_document(
        uri.to_string(),
        "const int B = 1;".to_string(),
        one_const_doc("B"),
    ));
    let symbols = session.symbols_at(uri, pos(0, 1)).unwrap();
    assert_eq!(symbols.constants.len(), 1);
    assert_eq!(symbols.constants[0].name, "B");
}
