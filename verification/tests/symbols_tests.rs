use p4_analyzer::cst::CstNode;
use p4_analyzer::metadata::Metadata;
use p4_analyzer::position::{Position, Range};
use p4_analyzer::completion::{CompletionBuilder, CompletionItemKind};
use p4_analyzer::symbol_table::{SymbolCategory, SymbolTable, SymbolTableQuery};
use p4_analyzer::tree::NodeKind;

fn pos(line: u32, character: u32) -> Position {
    Position { line, character }
}

fn range(l1: u32, c1: u32, l2: u32, c2: u32) -> Range {
    Range { start: pos(l1, c1), end: pos(l2, c2) }
}

fn leaf(kind: &str, named: bool, field: Option<&str>, r: Range, text: &str) -> CstNode {
    CstNode {
        kind: kind.to_string(),
        named,
        field: field.map(|f| f.to_string()),
        range: r,
        text: text.to_string(),
        children: Vec::new(),
    }
}

fn node(
    kind: &str,
    named: bool,
    field: Option<&str>,
    r: Range,
    text: &str,
    children: Vec<CstNode>,
) -> CstNode {
    CstNode {
        kind: kind.to_string(),
        named,
        field: field.map(|f| f.to_string()),
        range: r,
        text: text.to_string(),
        children,
    }
}

fn decl_on_line(line: u32, name: &str) -> CstNode {
    let inner = node("base_type", true, None, range(line, 6, line, 9), "int", Vec::new());
    let type_node = node("type_ref", true, Some("type"), range(line, 6, line, 9), "int", vec![inner]);
    let name_end = 10 + name.len() as u32;
    let name_node = leaf("name", true, Some("name"), range(line, 10, line, name_end), name);
    node(
        "constant_declaration",
        true,
        None,
        range(line, 0, line, name_end + 5),
        &format!("const int {} = 1;", name),
        vec![type_node, name_node],
    )
}

fn document(decls: Vec<CstNode>) -> CstNode {
    let lines = decls.len() as u32 + 1;
    node("source_file", true, None, range(0, 0, lines, 0), "doc", decls)
}

#[test]
fn test_visible_constants_at_position() {
    let cst = document(vec![decl_on_line(0, "A"), decl_on_line(1, "B")]);
    let meta = Metadata::new("doc", cst).unwrap();
    let symbols = meta.symbol_table.symbols_visible_at(pos(1, 2)).unwrap();
    let names: Vec<&str> = symbols.constants.iter().map(|s| s.name.as_str()).collect();
    assert_eq!(names, vec!["A", "B"]);
    assert!(symbols.types.is_empty());
    assert!(symbols.variables.is_empty());
    assert!(symbols.functions.is_empty());
    for s in &symbols.constants {
        assert_eq!(s.category, SymbolCategory::Constant);
    }
}

#[test]
fn test_symbol_range_is_name_range() {
    let cst = document(vec![decl_on_line(0, "A")]);
    let meta = Metadata::new("doc", cst).unwrap();
    let symbols = meta.symbol_table.symbols_visible_at(pos(0, 2)).unwrap();
    assert_eq!(symbols.constants[0].range, range(0, 10, 0, 11));
}

#[test]
fn test_scope_containment_idempotence() {
    // querying twice with no intervening edit returns identical results
    let cst = document(vec![decl_on_line(0, "A"), decl_on_line(1, "B")]);
    let meta = Metadata::new("doc", cst).unwrap();
    let first = meta.symbol_table.symbols_visible_at(pos(0, 3));
    let second = meta.symbol_table.symbols_visible_at(pos(0, 3));
    assert_eq!(first, second);
}

#[test]
fn test_redeclaration_retains_both() {
    // the same constant name twice in one scope: both symbols stay
    // queryable and exactly one diagnostic is reported
    let cst = document(vec![decl_on_line(0, "A"), decl_on_line(1, "A")]);
    let meta = Metadata::new("doc", cst).unwrap();
    let symbols = meta.symbol_table.symbols_visible_at(pos(0, 1)).unwrap();
    assert_eq!(symbols.constants.len(), 2);
    assert_eq!(symbols.constants[0].name, "A");
    assert_eq!(symbols.constants[1].name, "A");
    assert_eq!(meta.symbol_table.diagnostics.len(), 1);
    assert_eq!(meta.symbol_table.diagnostics[0].name, "A");
    assert_eq!(meta.symbol_table.diagnostics[0].range, range(1, 10, 1, 11));
}

#[test]
fn test_no_diagnostic_for_distinct_names() {
    let cst = document(vec![decl_on_line(0, "A"), decl_on_line(1, "B")]);
    let meta = Metadata::new("doc", cst).unwrap();
    assert!(meta.symbol_table.diagnostics.is_empty());
}

#[test]
fn test_unknown_position_returns_none() {
    // a position outside the root's range yields no symbols at all
    let cst = document(vec![decl_on_line(0, "A")]);
    let meta = Metadata::new("doc", cst).unwrap();
    assert!(meta.symbol_table.symbols_visible_at(pos(99, 0)).is_none());
    assert!(meta.symbol_table.get_symbols_at_pos(pos(99, 0)).is_none());
}

#[test]
fn test_symbol_table_query_trait() {
    let cst = document(vec![decl_on_line(0, "A")]);
    let ast = p4_analyzer::tree::Ast::new("doc", cst).unwrap();
    let table = SymbolTable::new(&ast);
    let symbols = table.get_symbols_at_pos(pos(0, 1)).unwrap();
    assert_eq!(symbols.constants.len(), 1);
}

#[test]
fn test_node_at_narrows_to_name() {
    let cst = document(vec![decl_on_line(0, "ABC")]);
    let ast = p4_analyzer::tree::Ast::new("doc", cst).unwrap();
    let n = ast.node_at(pos(0, 11)).unwrap();
    assert_eq!(n.kind, NodeKind::Name);
    assert_eq!(n.content, "ABC");
    // between the declaration children, the declaration itself answers
    let d = ast.node_at(pos(0, 4)).unwrap();
    assert_eq!(d.kind, NodeKind::ConstantDec);
    // outside the root there is no node
    assert!(ast.node_at(pos(99, 0)).is_none());
}

#[test]
fn test_completion_list() {
    let cst = document(vec![decl_on_line(0, "A"), decl_on_line(1, "B")]);
    let meta = Metadata::new("doc", cst).unwrap();
    let items = p4_analyzer::completion::get_list(pos(1, 1), &meta.symbol_table).unwrap();
    let labels: Vec<&str> = items.iter().map(|i| i.label.as_str()).collect();
    assert_eq!(labels, vec!["A", "B"]);
    for item in &items {
        assert_eq!(item.kind, p4_analyzer::completion::CompletionItemKind::Constant);
    }
    assert!(p4_analyzer::completion::get_list(pos(99, 0), &meta.symbol_table).is_none());
}

#[test]
fn test_completion_builder() {
    let items = CompletionBuilder::new()
        .add(&["x".to_string(), "y".to_string()], CompletionItemKind::Variable)
        .add(&["f".to_string()], CompletionItemKind::Function)
        .build();
    assert_eq!(items.len(), 3);
    assert_eq!(items[0].label, "x");
    assert_eq!(items[2].label, "f");
    assert_eq!(items[2].kind, CompletionItemKind::Function);
}
