use p4_analyzer::arena::Arena;
use p4_analyzer::cst::CstNode;
use p4_analyzer::position::{Position, Range};
use p4_analyzer::translator::TreesitterTranslator;
use p4_analyzer::tree::{BaseType, Node, NodeKind, Type};

fn pos(line: u32, character: u32) -> Position {
    Position { line, character }
}

fn range(l1: u32, c1: u32, l2: u32, c2: u32) -> Range {
    Range { start: pos(l1, c1), end: pos(l2, c2) }
}

fn leaf(kind: &str, named: bool, field: Option<&str>, r: Range, text: &str) -> CstNode {
    CstNode {
        kind: kind.to_string(),
        named,
        field: field.map(|f| f.to_string()),
        range: r,
        text: text.to_string(),
        children: Vec::new(),
    }
}

fn node(
    kind: &str,
    named: bool,
    field: Option<&str>,
    r: Range,
    text: &str,
    children: Vec<CstNode>,
) -> CstNode {
    CstNode {
        kind: kind.to_string(),
        named,
        field: field.map(|f| f.to_string()),
        range: r,
        text: text.to_string(),
        children,
    }
}

/// The concrete tree the grammar produces for one constant declaration
/// with a sized base type, as the parser collaborator hands it over.
fn const_declaration_cst(source_code: &str) -> CstNode {
    let decl_range = range(1, 12, 1, 41);
    let type_node = node(
        "type_ref",
        true,
        Some("type"),
        range(1, 18, 1, 25),
        "bit<16>",
        vec![node(
            "base_type",
            true,
            None,
            range(1, 18, 1, 25),
            "bit<16>",
            vec![leaf("integer", true, None, range(1, 22, 1, 24), "16")],
        )],
    );
    let name_node = leaf("name", true, Some("name"), range(1, 26, 1, 35), "TYPE_IPV4");
    let value_node = leaf("expression", true, Some("value"), range(1, 38, 1, 40), "10");
    let decl = node(
        "constant_declaration",
        true,
        None,
        decl_range,
        "const bit<16> TYPE_IPV4 = 10;",
        vec![type_node, name_node, value_node],
    );
    node("source_file", true, None, range(0, 0, 2, 8), source_code, vec![decl])
}

#[test]
fn test_const_declaration() {
    let source_code = r#"
            const bit<16> TYPE_IPV4 = 10;
        "#;
    let syntax_tree = const_declaration_cst(source_code);
    let syntax_root_range = syntax_tree.range;
    let decl = &syntax_tree.children[0];
    let decl_range = decl.range;
    let type_range = decl.child_by_field_name("type").unwrap().range;
    let type_text = decl.child_by_field_name("type").unwrap().text.clone();
    let name_range = decl.child_by_field_name("name").unwrap().range;
    let name_text = decl.child_by_field_name("name").unwrap().text.clone();
    let value_range = decl.child_by_field_name("value").unwrap().range;
    let value_text = decl.child_by_field_name("value").unwrap().text.clone();
    let decl_text = decl.text.clone();

    let translated_ast = TreesitterTranslator::translate(source_code.to_string(), syntax_tree);

    let mut arena = Arena::new();
    let root = arena.new_node(Node {
        kind: NodeKind::Root,
        range: syntax_root_range,
        content: source_code.to_string(),
    });
    let constant_dec = arena.new_node(Node {
        kind: NodeKind::ConstantDec,
        range: decl_range,
        content: decl_text,
    });
    let type_dec = arena.new_node(Node {
        kind: NodeKind::Type(Type::Base(BaseType::SizedBit(Some(16)))),
        range: type_range,
        content: type_text,
    });
    arena.append(constant_dec, type_dec);
    let name_dec = arena.new_node(Node {
        kind: NodeKind::Name,
        range: name_range,
        content: name_text,
    });
    arena.append(constant_dec, name_dec);
    let value_dec = arena.new_node(Node {
        kind: NodeKind::Value,
        range: value_range,
        content: value_text,
    });
    arena.append(constant_dec, value_dec);
    arena.append(root, constant_dec);

    assert!(translated_ast.arena.eq(&arena));
}

#[test]
fn test_base_type_round_trip() {
    let source_code = r#"
            const bit<16> TYPE_IPV4 = 10;
        "#;
    let ast =
        p4_analyzer::tree::Ast::new(source_code, const_declaration_cst(source_code)).unwrap();
    let root = ast.get_root_id();
    let decl = ast.get_child_of_kind(root, NodeKind::ConstantDec).unwrap();
    assert_eq!(ast.get_type(decl), Some(Type::Base(BaseType::SizedBit(Some(16)))));
    let name = ast.get_child_of_kind(decl, NodeKind::Name).unwrap();
    assert_eq!(ast.get_node(name).content, "TYPE_IPV4");
}

fn simple_decl(type_text: &str, type_children: Vec<CstNode>, name: &str) -> CstNode {
    let tlen = type_text.len() as u32;
    let type_node = node(
        "type_ref",
        true,
        Some("type"),
        range(0, 6, 0, 6 + tlen),
        type_text,
        vec![node(
            "base_type",
            true,
            None,
            range(0, 6, 0, 6 + tlen),
            type_text,
            type_children,
        )],
    );
    let name_node = leaf(
        "name",
        true,
        Some("name"),
        range(0, 7 + tlen, 0, 7 + tlen + name.len() as u32),
        name,
    );
    let end = 7 + tlen + name.len() as u32 + 6;
    let decl_text = format!("const {} {} = 1;", type_text, name);
    node(
        "constant_declaration",
        true,
        None,
        range(0, 0, 0, end),
        &decl_text,
        vec![type_node, name_node],
    )
}

fn one_decl_document(decl: CstNode) -> CstNode {
    let text = decl.text.clone();
    node("source_file", true, None, range(0, 0, 1, 0), &text, vec![decl])
}

#[test]
fn test_unsized_base_type() {
    let cst = one_decl_document(simple_decl("int", Vec::new(), "X"));
    let ast = p4_analyzer::tree::Ast::new("const int X = 1;", cst).unwrap();
    let decl = ast.get_child_of_kind(ast.get_root_id(), NodeKind::ConstantDec).unwrap();
    assert_eq!(ast.get_type(decl), Some(Type::Base(BaseType::SizedInt(None))));
}

#[test]
fn test_keyword_base_types() {
    for (text, expected) in [
        ("bool", BaseType::Bool),
        ("string", BaseType::String),
        ("error", BaseType::Error),
        ("match_kind", BaseType::MatchKind),
        ("bit", BaseType::SizedBit(None)),
        ("varbit", BaseType::SizedVarbit(None)),
    ] {
        let cst = one_decl_document(simple_decl(text, Vec::new(), "X"));
        let ast = p4_analyzer::tree::Ast::new("doc", cst).unwrap();
        let decl = ast.get_child_of_kind(ast.get_root_id(), NodeKind::ConstantDec).unwrap();
        assert_eq!(ast.get_type(decl), Some(Type::Base(expected)), "for {}", text);
    }
}

#[test]
fn test_trimmed_base_type() {
    let decl = simple_decl(" int\t", Vec::new(), "X");
    let cst = one_decl_document(decl);
    let ast = p4_analyzer::tree::Ast::new("doc", cst).unwrap();
    let decl = ast.get_child_of_kind(ast.get_root_id(), NodeKind::ConstantDec).unwrap();
    assert_eq!(ast.get_type(decl), Some(Type::Base(BaseType::SizedInt(None))));
}

#[test]
fn test_malformed_width_is_error_node() {
    // the width literal does not fit in 32 bits, a malformed-literal error
    let width = leaf("integer", true, None, range(0, 10, 0, 20), "4294967296");
    let cst = one_decl_document(simple_decl("bit<4294967296>", vec![width], "X"));
    let ast = p4_analyzer::tree::Ast::new("doc", cst).unwrap();
    let decl = ast.get_child_of_kind(ast.get_root_id(), NodeKind::ConstantDec).unwrap();
    assert_eq!(ast.get_type(decl), None);
    let errors = ast.get_error_nodes();
    assert_eq!(errors.len(), 1);
    assert_eq!(errors[0].content, "bit<4294967296>");
}

#[test]
fn test_max_width_parses() {
    let width = leaf("integer", true, None, range(0, 10, 0, 20), "4294967295");
    let cst = one_decl_document(simple_decl("bit<4294967295>", vec![width], "X"));
    let ast = p4_analyzer::tree::Ast::new("doc", cst).unwrap();
    let decl = ast.get_child_of_kind(ast.get_root_id(), NodeKind::ConstantDec).unwrap();
    assert_eq!(ast.get_type(decl), Some(Type::Base(BaseType::SizedBit(Some(4294967295)))));
}

#[test]
fn test_unknown_type_shape_is_error_node() {
    let decl = {
        let inner = leaf("mystery_type", true, None, range(0, 6, 0, 9), "foo");
        let type_node = node("type_ref", true, Some("type"), range(0, 6, 0, 9), "foo", vec![inner]);
        let name_node = leaf("name", true, Some("name"), range(0, 10, 0, 11), "X");
        node(
            "constant_declaration",
            true,
            None,
            range(0, 0, 0, 16),
            "const foo X = 1;",
            vec![type_node, name_node],
        )
    };
    let cst = one_decl_document(decl);
    let ast = p4_analyzer::tree::Ast::new("doc", cst).unwrap();
    assert_eq!(ast.get_error_nodes().len(), 1);
}

#[test]
fn test_placeholder_type_shapes() {
    for (kind, expected) in [
        ("type_name", Type::Name),
        ("specialized_type", Type::Specialized),
        ("header_stack_type", Type::HeaderStack),
        ("tuple_type", Type::Tuple),
    ] {
        let inner = leaf(kind, true, None, range(0, 6, 0, 9), "foo");
        let type_node = node("type_ref", true, Some("type"), range(0, 6, 0, 9), "foo", vec![inner]);
        let name_node = leaf("name", true, Some("name"), range(0, 10, 0, 11), "X");
        let decl = node(
            "constant_declaration",
            true,
            None,
            range(0, 0, 0, 16),
            "const foo X = 1;",
            vec![type_node, name_node],
        );
        let ast = p4_analyzer::tree::Ast::new("doc", one_decl_document(decl)).unwrap();
        let d = ast.get_child_of_kind(ast.get_root_id(), NodeKind::ConstantDec).unwrap();
        assert_eq!(ast.get_type(d), Some(expected), "for {}", kind);
    }
}

#[test]
fn test_canonical_child_order_reordered_source() {
    // the name role comes before the type role in the concrete tree;
    // the translated declaration still lists Type before Name
    let name_node = leaf("name", true, Some("name"), range(0, 0, 0, 1), "X");
    let inner = node("base_type", true, None, range(0, 2, 0, 5), "int", Vec::new());
    let type_node = node("type_ref", true, Some("type"), range(0, 2, 0, 5), "int", vec![inner]);
    let decl = node(
        "constant_declaration",
        true,
        None,
        range(0, 0, 0, 10),
        "X int = 1;",
        vec![name_node, type_node],
    );
    let ast = p4_analyzer::tree::Ast::new("doc", one_decl_document(decl)).unwrap();
    let d = ast.get_child_of_kind(ast.get_root_id(), NodeKind::ConstantDec).unwrap();
    let children = ast.get_child_ids(d);
    assert_eq!(children.len(), 2);
    assert!(matches!(ast.get_node(children[0]).kind, NodeKind::Type(_)));
    assert_eq!(ast.get_node(children[1]).kind, NodeKind::Name);
}

#[test]
fn test_missing_name_role_degrades_to_error() {
    let inner = node("base_type", true, None, range(0, 6, 0, 9), "int", Vec::new());
    let type_node = node("type_ref", true, Some("type"), range(0, 6, 0, 9), "int", vec![inner]);
    let decl = node(
        "constant_declaration",
        true,
        None,
        range(0, 0, 0, 12),
        "const int 1;",
        vec![type_node],
    );
    let ast = p4_analyzer::tree::Ast::new("doc", one_decl_document(decl)).unwrap();
    let errors = ast.get_error_nodes();
    assert_eq!(errors.len(), 1);
    assert_eq!(errors[0].content, "const int 1;");
}

#[test]
fn test_error_isolation() {
    // one syntactically invalid statement among three valid ones:
    // three declarations are translated and exactly one error node kept
    let d1 = simple_decl("int", Vec::new(), "A");
    let bad = leaf("ERROR", true, None, range(1, 0, 1, 7), "garbage");
    let mut d2 = simple_decl("bool", Vec::new(), "B");
    let mut d3 = simple_decl("string", Vec::new(), "C");
    shift_lines(&mut d2, 2);
    shift_lines(&mut d3, 3);
    let root = node(
        "source_file",
        true,
        None,
        range(0, 0, 4, 0),
        "doc",
        vec![d1, bad, d2, d3],
    );
    let ast = p4_analyzer::tree::Ast::new("doc", root).unwrap();
    let children = ast.get_child_ids(ast.get_root_id());
    assert_eq!(children.len(), 4);
    let mut decls = 0;
    let mut errors = 0;
    for id in &children {
        match ast.get_node(*id).kind {
            NodeKind::ConstantDec => decls += 1,
            NodeKind::Error => errors += 1,
            _ => {}
        }
    }
    assert_eq!(decls, 3);
    assert_eq!(errors, 1);
    assert_eq!(ast.get_error_nodes().len(), 1);
    assert_eq!(ast.get_error_nodes()[0].content, "garbage");
}

fn shift_lines(c: &mut CstNode, delta: u32) {
    c.range.start.line += delta;
    c.range.end.line += delta;
    for ch in &mut c.children {
        shift_lines(ch, delta);
    }
}

#[test]
fn test_comments_and_tokens_are_skipped() {
    let d1 = simple_decl("int", Vec::new(), "A");
    let comment = leaf("comment", true, None, range(1, 0, 1, 10), "// nothing");
    let semi = leaf(";", false, None, range(2, 0, 2, 1), ";");
    let root = node("source_file", true, None, range(0, 0, 3, 0), "doc", vec![d1, comment, semi]);
    let ast = p4_analyzer::tree::Ast::new("doc", root).unwrap();
    let children = ast.get_child_ids(ast.get_root_id());
    assert_eq!(children.len(), 1);
    assert_eq!(ast.get_node(children[0]).kind, NodeKind::ConstantDec);
}

#[test]
fn test_range_containment() {
    let source_code = r#"
            const bit<16> TYPE_IPV4 = 10;
        "#;
    let ast =
        p4_analyzer::tree::Ast::new(source_code, const_declaration_cst(source_code)).unwrap();
    let arena = ast.get_arena();
    for entry in &arena.entries {
        for child in &entry.children {
            let parent_range = &entry.node.range;
            let child_range = &arena.entries[*child].node.range;
            let le = |a: &Position, b: &Position| {
                a.line < b.line || (a.line == b.line && a.character <= b.character)
            };
            assert!(le(&parent_range.start, &child_range.start));
            assert!(le(&child_range.end, &parent_range.end));
        }
    }
}

#[test]
fn test_debug_tree_sketch() {
    let cst = one_decl_document(simple_decl("int", Vec::new(), "X"));
    let ast = p4_analyzer::tree::Ast::new("doc", cst).unwrap();
    let sketch = ast.get_debug_tree();
    assert!(sketch.contains("Root"));
    assert!(sketch.contains("ConstantDec"));
    assert!(sketch.contains("Name"));
}
