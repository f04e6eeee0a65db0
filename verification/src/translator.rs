use vstd::prelude::*;

use crate::arena::{
    arena_wf, child_views, entry_same_shape, lemma_child_views_frame, lemma_child_views_push,
    lemma_view_at_frame, view_at, Arena, AstView, NodeId,
};
use crate::cst::{
    cst_wf, lemma_child_by_field_wf, lemma_cst_children_wf_index, spec_child_by_field,
    spec_first_named, CstNode,
};
use crate::position::{pos_le, range_wf};
use crate::text::{
    has_prefix, spec_str_to_u32, spec_trim, str_eq, str_has_prefix, str_to_u32, trim_str,
};
use crate::tree::{Ast, BaseType, Node, NodeKind, Type};

verus! {

broadcast use vstd::seq::group_seq_axioms, vstd::std_specs::vec::group_vec_axioms;

/// The abstraction of an `Error` node covering `c`: the offending range
/// and raw text are preserved, nothing is translated below it.
pub open spec fn error_view(c: CstNode) -> AstView {
    AstView { kind: NodeKind::Error, range: c.range, content: c.text@, children: Seq::empty() }
}

/// The abstraction of a leaf node of kind `kind` covering `c`.
pub open spec fn leaf_view(kind: NodeKind, c: CstNode) -> AstView {
    AstView { kind, range: c.range, content: c.text@, children: Seq::empty() }
}

/// The width attached to a sized base type: the integer literal child
/// parsed as an unsigned 32-bit number; no integer child means the
/// width is left unspecified; a literal that does not parse is a
/// malformed-literal error.
pub open spec fn spec_base_type_width(c: CstNode) -> Result<Option<u32>, ()> {
    match spec_first_named(c.children@) {
        None => Ok(None),
        Some(ch) => if ch.kind@ == "integer"@ {
            match spec_str_to_u32(ch.text@) {
                Some(w) => Ok(Some(w)),
                None => Err(()),
            }
        } else {
            Ok(None)
        },
    }
}

/// Base-type classification: trim the token text, match the fixed
/// keyword set first, otherwise read the contained width and classify
/// by prefix. `None` stands for a malformed token that becomes an
/// `Error` node.
pub open spec fn spec_parse_base_type(c: CstNode) -> Option<BaseType> {
    let t = spec_trim(c.text@);
    if t == "bool"@ {
        Some(BaseType::Bool)
    } else if t == "string"@ {
        Some(BaseType::String)
    } else if t == "error"@ {
        Some(BaseType::Error)
    } else if t == "match_kind"@ {
        Some(BaseType::MatchKind)
    } else if t == "int"@ {
        Some(BaseType::SizedInt(None))
    } else if t == "bit"@ {
        Some(BaseType::SizedBit(None))
    } else if t == "varbit"@ {
        Some(BaseType::SizedVarbit(None))
    } else {
        match spec_base_type_width(c) {
            Err(_) => None,
            Ok(width) => if has_prefix(t, "int"@) {
                Some(BaseType::SizedInt(width))
            } else if has_prefix(t, "bit"@) {
                Some(BaseType::SizedBit(width))
            } else if has_prefix(t, "varbit"@) {
                Some(BaseType::SizedVarbit(width))
            } else {
                None
            },
        }
    }
}

/// The abstraction of a translated type annotation: dispatch on the
/// grammar shape of the first named child; a base type resolves through
/// classification, the other declared shapes stay unresolved
/// placeholders, and anything else degrades to an `Error` node.
pub open spec fn spec_parse_type(c: CstNode) -> AstView {
    match spec_first_named(c.children@) {
        None => error_view(c),
        Some(inner) => if inner.kind@ == "base_type"@ {
            match spec_parse_base_type(inner) {
                Some(bt) => leaf_view(NodeKind::Type(Type::Base(bt)), c),
                None => error_view(c),
            }
        } else if inner.kind@ == "type_name"@ {
            leaf_view(NodeKind::Type(Type::Name), c)
        } else if inner.kind@ == "specialized_type"@ {
            leaf_view(NodeKind::Type(Type::Specialized), c)
        } else if inner.kind@ == "header_stack_type"@ {
            leaf_view(NodeKind::Type(Type::HeaderStack), c)
        } else if inner.kind@ == "tuple_type"@ {
            leaf_view(NodeKind::Type(Type::Tuple), c)
        } else {
            error_view(c)
        },
    }
}

/// The abstraction of a translated constant declaration: its type, name
/// and (when present) value children in canonical order, whatever their
/// order in source. A declaration missing its type or name role
/// degrades to an `Error` node.
pub open spec fn spec_parse_const_dec(c: CstNode) -> AstView {
    let t = spec_child_by_field(c.children@, "type"@);
    let n = spec_child_by_field(c.children@, "name"@);
    if t is Some && n is Some {
        let tail = match spec_child_by_field(c.children@, "value"@) {
            Some(v) => seq![leaf_view(NodeKind::Value, v)],
            None => Seq::<AstView>::empty(),
        };
        AstView {
            kind: NodeKind::ConstantDec,
            range: c.range,
            content: c.text@,
            children: seq![spec_parse_type(t->0), leaf_view(NodeKind::Name, n->0)] + tail,
        }
    } else {
        error_view(c)
    }
}

/// The abstractions of the root's translated children: constant
/// declarations are translated, unnamed tokens and comments are
/// skipped, and every other shape (grammar error recoveries included)
/// becomes an `Error` node.
pub open spec fn spec_root_children(cs: Seq<CstNode>) -> Seq<AstView>
    decreases cs.len(),
{
    if cs.len() == 0 {
        Seq::<AstView>::empty()
    } else {
        (if cs[0].kind@ == "constant_declaration"@ {
            seq![spec_parse_const_dec(cs[0])]
        } else if cs[0].named && cs[0].kind@ != "comment"@ {
            seq![error_view(cs[0])]
        } else {
            Seq::<AstView>::empty()
        }) + spec_root_children(cs.subrange(1, cs.len() as int))
    }
}

/// The abstraction of a fully translated document: a `Root` node
/// holding the whole source text, with the translated top-level
/// children in source order.
pub open spec fn spec_translate(source: Seq<char>, tree: CstNode) -> AstView {
    AstView {
        kind: NodeKind::Root,
        range: tree.range,
        content: source,
        children: spec_root_children(tree.children@),
    }
}

proof fn lemma_root_children_snoc(cs: Seq<CstNode>, x: CstNode)
    ensures
        spec_root_children(cs.push(x)) == spec_root_children(cs) + (if x.kind@
            == "constant_declaration"@ {
            seq![spec_parse_const_dec(x)]
        } else if x.named && x.kind@ != "comment"@ {
            seq![error_view(x)]
        } else {
            Seq::<AstView>::empty()
        }),
    decreases cs.len(),
{
    reveal_with_fuel(spec_root_children, 3);
    let pushed = cs.push(x);
    if cs.len() == 0 {
        assert(pushed[0] == x);
        assert(pushed.subrange(1, pushed.len() as int) =~= Seq::<CstNode>::empty());
        assert(spec_root_children(cs.push(x)) =~= spec_root_children(cs) + (if x.kind@
            == "constant_declaration"@ {
            seq![spec_parse_const_dec(x)]
        } else if x.named && x.kind@ != "comment"@ {
            seq![error_view(x)]
        } else {
            Seq::<AstView>::empty()
        }));
    } else {
        assert(pushed[0] == cs[0]);
        assert(pushed.subrange(1, pushed.len() as int) =~= cs.subrange(1, cs.len() as int).push(x));
        lemma_root_children_snoc(cs.subrange(1, cs.len() as int), x);
        assert(spec_root_children(cs.push(x)) =~= spec_root_children(cs) + (if x.kind@
            == "constant_declaration"@ {
            seq![spec_parse_const_dec(x)]
        } else if x.named && x.kind@ != "comment"@ {
            seq![error_view(x)]
        } else {
            Seq::<AstView>::empty()
        }));
    }
}

/// Walks one concrete syntax tree and classifies its nodes into the
/// typed abstract syntax tree, stored in an arena.
pub struct TreesitterTranslator {
    pub arena: Arena,
    pub source_code: String,
    pub tree: CstNode,
}

/// Store a childless node of kind `kind` covering `c` and hand back its id.
fn push_leaf(arena: &mut Arena, kind: NodeKind, c: &CstNode) -> (id: NodeId)
    requires
        arena_wf(old(arena)@),
        range_wf(c.range),
    ensures
        arena_wf(final(arena)@),
        final(arena)@.len() == old(arena)@.len() + 1,
        final(arena)@.subrange(0, old(arena)@.len() as int) == old(arena)@,
        id.0 == old(arena)@.len(),
        final(arena)@[id.0 as int].parent is None,
        final(arena)@[id.0 as int].node.kind == kind,
        final(arena)@[id.0 as int].node.range == c.range,
        final(arena)@[id.0 as int].node.content@ == c.text@,
        final(arena)@[id.0 as int].children@ == Seq::<usize>::empty(),
        view_at(final(arena)@, id.0 as int) == leaf_view(kind, *c),
{
    let id = arena.new_node(Node::new(kind, c));
    proof {
        reveal_with_fuel(child_views, 2);
        assert(child_views(final(arena)@, Seq::<usize>::empty(), id.0 as int) =~= Seq::<
            AstView,
        >::empty());
    }
    id
}

impl TreesitterTranslator {
    fn new(source_code: String, tree: CstNode) -> (t: TreesitterTranslator)
        ensures
            t.arena@ == Seq::<crate::arena::Entry>::empty(),
            t.source_code == source_code,
            t.tree == tree,
    {
        TreesitterTranslator { arena: Arena::new(), source_code, tree }
    }

    /// Classify one base type token, matching `spec_parse_base_type`.
    fn parse_base_type(node: &CstNode) -> (r: Result<BaseType, &'static str>)
        ensures
            match r {
                Ok(bt) => spec_parse_base_type(*node) == Some(bt),
                Err(_) => spec_parse_base_type(*node) is None,
            },
    {
        let text = trim_str(node.text.as_str());
        if str_eq(text, "bool") {
            Ok(BaseType::Bool)
        } else if str_eq(text, "string") {
            Ok(BaseType::String)
        } else if str_eq(text, "error") {
            Ok(BaseType::Error)
        } else if str_eq(text, "match_kind") {
            Ok(BaseType::MatchKind)
        } else if str_eq(text, "int") {
            Ok(BaseType::SizedInt(None))
        } else if str_eq(text, "bit") {
            Ok(BaseType::SizedBit(None))
        } else if str_eq(text, "varbit") {
            Ok(BaseType::SizedVarbit(None))
        } else {
            let size: Option<u32> = match node.first_named_child() {
                Some(child) => {
                    if str_eq(child.kind.as_str(), "integer") {
                        match str_to_u32(child.text.as_str()) {
                            Some(w) => Some(w),
                            None => {
                                return Err("malformed width literal");
                            },
                        }
                    } else {
                        None
                    }
                },
                None => None,
            };
            if str_has_prefix(text, "int") {
                Ok(BaseType::SizedInt(size))
            } else if str_has_prefix(text, "bit") {
                Ok(BaseType::SizedBit(size))
            } else if str_has_prefix(text, "varbit") {
                Ok(BaseType::SizedVarbit(size))
            } else {
                Err("invalid type")
            }
        }
    }

    /// Translate one type annotation into a single typed node, matching
    /// `spec_parse_type`.
    fn parse_type(arena: &mut Arena, node: &CstNode) -> (id: NodeId)
        requires
            arena_wf(old(arena)@),
            range_wf(node.range),
        ensures
            arena_wf(final(arena)@),
            final(arena)@.len() == old(arena)@.len() + 1,
            final(arena)@.subrange(0, old(arena)@.len() as int) == old(arena)@,
            id.0 == old(arena)@.len(),
            final(arena)@[id.0 as int].parent is None,
            final(arena)@[id.0 as int].node.range == node.range,
            !(final(arena)@[id.0 as int].node.kind is Root),
            view_at(final(arena)@, id.0 as int) == spec_parse_type(*node),
    {
        let kind: NodeKind = match node.first_named_child() {
            None => NodeKind::Error,
            Some(inner) => {
                if str_eq(inner.kind.as_str(), "base_type") {
                    match Self::parse_base_type(inner) {
                        Ok(bt) => NodeKind::Type(Type::Base(bt)),
                        Err(_) => NodeKind::Error,
                    }
                } else if str_eq(inner.kind.as_str(), "type_name") {
                    NodeKind::Type(Type::Name)
                } else if str_eq(inner.kind.as_str(), "specialized_type") {
                    NodeKind::Type(Type::Specialized)
                } else if str_eq(inner.kind.as_str(), "header_stack_type") {
                    NodeKind::Type(Type::HeaderStack)
                } else if str_eq(inner.kind.as_str(), "tuple_type") {
                    NodeKind::Type(Type::Tuple)
                } else {
                    NodeKind::Error
                }
            },
        };
        push_leaf(arena, kind, node)
    }

    /// Translate one constant declaration: its type, name and value
    /// role children are linked in canonical order; a declaration
    /// missing its type or name degrades to an `Error` node.
    fn parse_const_dec(arena: &mut Arena, node: &CstNode) -> (id: NodeId)
        requires
            arena_wf(old(arena)@),
            cst_wf(*node),
        ensures
            arena_wf(final(arena)@),
            final(arena)@.len() > old(arena)@.len(),
            final(arena)@.subrange(0, old(arena)@.len() as int) == old(arena)@,
            id.0 == old(arena)@.len(),
            final(arena)@[id.0 as int].parent is None,
            final(arena)@[id.0 as int].node.range == node.range,
            forall|j: int|
                old(arena)@.len() <= j < final(arena)@.len()
                    ==> !((#[trigger] final(arena)@[j].node.kind) is Root),
            forall|j: int|
                old(arena)@.len() <= j < final(arena)@.len() && j != id.0 as int ==> (#[trigger]
                final(arena)@[j].parent) is Some,
            view_at(final(arena)@, id.0 as int) == spec_parse_const_dec(*node),
    {
        let t_opt = node.child_by_field_name("type");
        let n_opt = node.child_by_field_name("name");
        match (t_opt, n_opt) {
            (Some(t), Some(nm)) => {
                proof {
                    lemma_child_by_field_wf(node.range, node.children@, "type"@);
                    lemma_child_by_field_wf(node.range, node.children@, "name"@);
                }
                let id = push_leaf(arena, NodeKind::ConstantDec, node);
                let ghost es1 = arena@;
                let tid = Self::parse_type(arena, t);
                let ghost es2 = arena@;
                proof {
                    assert forall|j: int| 0 <= j < es1.len() implies es2[j] == es1[j] by {
                        assert(es2.subrange(0, es1.len() as int)[j] == es2[j]);
                    }
                }
                arena.append(id, tid);
                let ghost es3 = arena@;
                proof {
                    assert forall|j: int| tid.0 as int <= j < es2.len() implies entry_same_shape(
                        es2,
                        es3,
                        j,
                    ) by {}
                    lemma_view_at_frame(es2, es3, tid.0 as int);
                }
                let nid = push_leaf(arena, NodeKind::Name, nm);
                let ghost es4 = arena@;
                proof {
                    assert forall|j: int| tid.0 as int <= j < es3.len() implies entry_same_shape(
                        es3,
                        es4,
                        j,
                    ) by {
                        assert(es4.subrange(0, es3.len() as int)[j] == es4[j]);
                    }
                    lemma_view_at_frame(es3, es4, tid.0 as int);
                }
                arena.append(id, nid);
                let ghost es5 = arena@;
                proof {
                    assert forall|j: int| tid.0 as int <= j < es4.len() implies entry_same_shape(
                        es4,
                        es5,
                        j,
                    ) by {}
                    lemma_view_at_frame(es4, es5, tid.0 as int);
                    assert forall|j: int| nid.0 as int <= j < es4.len() implies entry_same_shape(
                        es4,
                        es5,
                        j,
                    ) by {}
                    lemma_view_at_frame(es4, es5, nid.0 as int);
                }
                let v_opt = node.child_by_field_name("value");
                match v_opt {
                    Some(v) => {
                        proof {
                            lemma_child_by_field_wf(node.range, node.children@, "value"@);
                        }
                        let vid = push_leaf(arena, NodeKind::Value, v);
                        let ghost es6 = arena@;
                        proof {
                            assert forall|j: int| tid.0 as int <= j < es5.len() implies
                                entry_same_shape(es5, es6, j) by {
                                assert(es6.subrange(0, es5.len() as int)[j] == es6[j]);
                            }
                            lemma_view_at_frame(es5, es6, tid.0 as int);
                            lemma_view_at_frame(es5, es6, nid.0 as int);
                        }
                        arena.append(id, vid);
                        proof {
                            let es7 = arena@;
                            assert forall|j: int| tid.0 as int <= j < es6.len() implies
                                entry_same_shape(es6, es7, j) by {}
                            lemma_view_at_frame(es6, es7, tid.0 as int);
                            lemma_view_at_frame(es6, es7, nid.0 as int);
                            lemma_view_at_frame(es6, es7, vid.0 as int);
                            reveal_with_fuel(child_views, 5);
                            let cs = es7[id.0 as int].children@;
                            assert(cs =~= seq![tid.0, nid.0, vid.0]);
                            assert(cs.subrange(1, 3) =~= seq![nid.0, vid.0]);
                            assert(cs.subrange(1, 3).subrange(1, 2) =~= seq![vid.0]);
                            assert(seq![vid.0].subrange(1, 1) =~= Seq::<usize>::empty());
                            assert(child_views(es7, cs, id.0 as int) =~= seq![
                                view_at(es7, tid.0 as int),
                                view_at(es7, nid.0 as int),
                                view_at(es7, vid.0 as int),
                            ]);
                            assert(view_at(es7, id.0 as int).children =~= spec_parse_const_dec(
                                *node,
                            ).children);
                            assert(view_at(es7, id.0 as int) == spec_parse_const_dec(*node));
                            assert(es7.subrange(0, old(arena)@.len() as int) =~= old(arena)@);
                        }
                        id
                    },
                    None => {
                        proof {
                            let es7 = arena@;
                            reveal_with_fuel(child_views, 4);
                            let cs = es7[id.0 as int].children@;
                            assert(cs =~= seq![tid.0, nid.0]);
                            assert(cs.subrange(1, 2) =~= seq![nid.0]);
                            assert(seq![nid.0].subrange(1, 1) =~= Seq::<usize>::empty());
                            assert(child_views(es7, cs, id.0 as int) =~= seq![
                                view_at(es7, tid.0 as int),
                                view_at(es7, nid.0 as int),
                            ]);
                            assert(view_at(es7, id.0 as int).children =~= spec_parse_const_dec(
                                *node,
                            ).children);
                            assert(view_at(es7, id.0 as int) == spec_parse_const_dec(*node));
                            assert(es7.subrange(0, old(arena)@.len() as int) =~= old(arena)@);
                        }
                        id
                    },
                }
            },
            _ => {
                let id = push_leaf(arena, NodeKind::Error, node);
                id
            },
        }
    }

    /// Translate the whole document from its root: recognized top-level
    /// declarations are translated, comments and plain tokens skipped,
    /// and anything else preserved as an `Error` node.
    fn parse_root(arena: &mut Arena, source_code: &String, tree: &CstNode) -> (root: NodeId)
        requires
            old(arena)@ == Seq::<crate::arena::Entry>::empty(),
            cst_wf(*tree),
        ensures
            arena_wf(final(arena)@),
            root.0 == 0,
            final(arena)@.len() > 0,
            final(arena)@[0].parent is None,
            final(arena)@[0].node.kind is Root,
            forall|j: int|
                1 <= j < final(arena)@.len() ==> !((#[trigger] final(arena)@[j].node.kind)
                    is Root),
            forall|j: int| 1 <= j < final(arena)@.len() ==> (#[trigger] final(arena)@[j].parent)
                is Some,
            view_at(final(arena)@, 0) == spec_translate(source_code@, *tree),
    {
        let root_node = Node {
            kind: NodeKind::Root,
            range: tree.range,
            content: source_code.clone(),
        };
        let root = arena.new_node(root_node);
        let ghost full = tree.children@;
        let n = tree.children.len();
        proof {
            reveal_with_fuel(child_views, 2);
            assert(full.subrange(0, 0) =~= Seq::<CstNode>::empty());
            assert(child_views(arena@, arena@[0].children@, 0) =~= spec_root_children(
                full.subrange(0, 0),
            ));
        }
        let mut i: usize = 0;
        while i < n
            invariant
                arena_wf(arena@),
                arena@.len() >= 1,
                root.0 == 0,
                0 <= i <= n,
                n == full.len(),
                full == tree.children@,
                cst_wf(*tree),
                arena@[0].node.kind == NodeKind::Root,
                arena@[0].node.range == tree.range,
                arena@[0].node.content@ == source_code@,
                arena@[0].parent is None,
                forall|j: int|
                    1 <= j < arena@.len() ==> !((#[trigger] arena@[j].node.kind) is Root),
                forall|j: int| 1 <= j < arena@.len() ==> (#[trigger] arena@[j].parent) is Some,
                child_views(arena@, arena@[0].children@, 0) == spec_root_children(
                    full.subrange(0, i as int),
                ),
            decreases n - i,
        {
            let child = &tree.children[i];
            proof {
                lemma_cst_children_wf_index(tree.range, full, i as int);
            }
            let is_const = str_eq(child.kind.as_str(), "constant_declaration");
            let is_skipped = !is_const && (!child.named || str_eq(child.kind.as_str(), "comment"));
            let ghost es_a = arena@;
            let ghost rootlist = arena@[0].children@;
            if !is_skipped {
                let cid = if is_const {
                    Self::parse_const_dec(arena, child)
                } else {
                    push_leaf(arena, NodeKind::Error, child)
                };
                let ghost es_b = arena@;
                proof {
                    assert forall|j: int| 0 <= j < es_a.len() implies es_b[j] == es_a[j] by {
                        assert(es_b.subrange(0, es_a.len() as int)[j] == es_b[j]);
                    }
                    assert forall|k: int| 0 <= k < rootlist.len() implies 0 < (
                    #[trigger] rootlist[k]) as int && (rootlist[k] as int) < es_a.len() by {
                        assert(es_a[0].children@[k] == rootlist[k]);
                    }
                    lemma_child_views_frame(es_a, es_b, rootlist, 0);
                }
                arena.append(root, cid);
                let ghost es_c = arena@;
                proof {
                    assert forall|j: int| 0 < j < es_b.len() implies entry_same_shape(
                        es_b,
                        es_c,
                        j,
                    ) by {}
                    lemma_child_views_frame(es_b, es_c, rootlist, 0);
                    assert forall|j: int| cid.0 as int <= j < es_b.len() implies entry_same_shape(
                        es_b,
                        es_c,
                        j,
                    ) by {}
                    lemma_view_at_frame(es_b, es_c, cid.0 as int);
                    lemma_child_views_push(es_c, rootlist, 0, cid.0);
                    assert(es_c[0].children@ =~= rootlist.push(cid.0));
                    lemma_root_children_snoc(full.subrange(0, i as int), full[i as int]);
                    assert(full.subrange(0, i + 1) =~= full.subrange(0, i as int).push(
                        full[i as int],
                    ));
                    assert(child_views(es_c, es_c[0].children@, 0) =~= spec_root_children(
                        full.subrange(0, i + 1),
                    ));
                }
            } else {
                proof {
                    lemma_root_children_snoc(full.subrange(0, i as int), full[i as int]);
                    assert(full.subrange(0, i + 1) =~= full.subrange(0, i as int).push(
                        full[i as int],
                    ));
                    assert(child_views(arena@, arena@[0].children@, 0) =~= spec_root_children(
                        full.subrange(0, i + 1),
                    ));
                }
            }
            i += 1;
        }
        proof {
            assert(full.subrange(0, n as int) =~= full);
            assert(view_at(arena@, 0).children =~= spec_translate(source_code@, *tree).children);
            assert(view_at(arena@, 0) == spec_translate(source_code@, *tree));
        }
        root
    }

    /// Translate a whole concrete syntax tree into an abstract syntax
    /// tree. Translation never fails: unrecognized or malformed
    /// constructs become `Error` nodes instead.
    pub fn translate(source_code: String, tree: CstNode) -> (ast: Ast)
        requires
            cst_wf(tree),
        ensures
            ast.wf(),
            ast.root_id.0 == 0,
            ast.arena@[ast.root_id.0 as int].parent is None,
            forall|j: int|
                0 <= j < ast.arena@.len() ==> (((#[trigger] ast.arena@[j].node.kind) is Root)
                    <==> j == ast.root_id.0 as int),
            forall|j: int|
                0 <= j < ast.arena@.len() && j != ast.root_id.0 as int ==> (#[trigger]
                ast.arena@[j].parent) is Some,
            ast.view_spec() == spec_translate(source_code@, tree),
    {
        let translator = TreesitterTranslator::new(source_code, tree);
        let TreesitterTranslator { arena: mut arena, source_code: src, tree: cst } = translator;
        let root = Self::parse_root(&mut arena, &src, &cst);
        Ast::initialize(arena, root)
    }
}


/// Canonical child order: in any translated declaration node, the
/// `Type` child always precedes the `Name` child, whatever the order
/// of the corresponding roles in source.
pub proof fn lemma_canonical_child_order(c: CstNode, k1: int, k2: int)
    requires
        0 <= k1 < spec_parse_const_dec(c).children.len(),
        0 <= k2 < spec_parse_const_dec(c).children.len(),
        spec_parse_const_dec(c).children[k1].kind is Type,
        spec_parse_const_dec(c).children[k2].kind == NodeKind::Name,
    ensures
        k1 < k2,
{
    let v = spec_parse_const_dec(c);
    let t = spec_child_by_field(c.children@, "type"@);
    let n = spec_child_by_field(c.children@, "name"@);
    if t is Some && n is Some {
        assert(v.children[1].kind == NodeKind::Name);
        assert(v.children.len() <= 3);
        if v.children.len() == 3 {
            assert(v.children[2].kind == NodeKind::Value);
        }
        assert(k1 == 0);
        assert(k2 == 1);
    } else {
        assert(v.children.len() == 0);
    }
}


/// Error isolation: an unparsable or unrecognized statement never
/// costs a recognized one — every constant declaration among the
/// root's children appears, translated, in the translation result.
pub proof fn lemma_no_declaration_dropped(cs: Seq<CstNode>, i: int)
    requires
        0 <= i < cs.len(),
        cs[i].kind@ == "constant_declaration"@,
    ensures
        spec_root_children(cs).contains(spec_parse_const_dec(cs[i])),
    decreases i,
{
    let out = spec_root_children(cs);
    if i == 0 {
        assert(out[0] == spec_parse_const_dec(cs[0]));
    } else {
        let rest = cs.subrange(1, cs.len() as int);
        assert(rest[i - 1] == cs[i]);
        lemma_no_declaration_dropped(rest, i - 1);
        let tail = spec_root_children(rest);
        let idx = choose|m: int|
            0 <= m < tail.len() && tail[m] == spec_parse_const_dec(cs[i]);
        let head = (if cs[0].kind@ == "constant_declaration"@ {
            seq![spec_parse_const_dec(cs[0])]
        } else if cs[0].named && cs[0].kind@ != "comment"@ {
            seq![error_view(cs[0])]
        } else {
            Seq::<AstView>::empty()
        });
        assert(out[head.len() + idx] == spec_parse_const_dec(cs[i]));
    }
}


/// The views stand left-to-right: each one ends at or before the next
/// one starts.
pub open spec fn views_source_ordered(vs: Seq<AstView>) -> bool {
    forall|k: int|
        0 <= k < vs.len() - 1 ==> pos_le((#[trigger] vs[k]).range.end, vs[k + 1].range.start)
}

proof fn lemma_root_children_source_order(parent: crate::position::Range, cs: Seq<CstNode>)
    requires
        crate::cst::cst_children_wf(parent, cs),
    ensures
        views_source_ordered(spec_root_children(cs)),
        spec_root_children(cs).len() > 0 && cs.len() > 0 ==> pos_le(
            cs[0].range.start,
            spec_root_children(cs)[0].range.start,
        ),
    decreases cs,
{
    if cs.len() > 0 {
        let rest = cs.subrange(1, cs.len() as int);
        lemma_root_children_source_order(parent, rest);
        let rec_out = spec_root_children(rest);
        let out = spec_root_children(cs);
        let translated = cs[0].kind@ == "constant_declaration"@ || (cs[0].named && cs[0].kind@
            != "comment"@);
        if translated {
            let v = out[0];
            assert(v.range == cs[0].range);
            assert(forall|k: int| 0 <= k < rec_out.len() ==> out[k + 1] == rec_out[k]);
            assert forall|k: int| 0 <= k < out.len() - 1 implies pos_le(
                (#[trigger] out[k]).range.end,
                out[k + 1].range.start,
            ) by {
                if k == 0 {
                    assert(rest[0] == cs[1]);
                    assert(pos_le(cs[0].range.end, cs[1].range.start));
                    assert(pos_le(cs[1].range.start, rec_out[0].range.start));
                } else {
                    assert(out[k] == rec_out[k - 1] && out[k + 1] == rec_out[k]);
                }
            }
        } else {
            assert(out =~= rec_out);
            if out.len() > 0 {
                assert(rest[0] == cs[1]);
                assert(pos_le(cs[1].range.start, rec_out[0].range.start));
                assert(cst_wf(cs[0]));
                assert(range_wf(cs[0].range));
                assert(pos_le(cs[0].range.end, cs[1].range.start));
            }
        }
    }
}

/// Children keep source order: in any translated document, the root's
/// children stand left-to-right exactly as their statements stand in
/// source. The one stated exception is a declaration node's own
/// children, which stand in the canonical type, name, value order
/// whatever their roles' order in source (`lemma_canonical_child_order`).
pub proof fn lemma_translate_children_source_order(source: Seq<char>, tree: CstNode)
    requires
        cst_wf(tree),
    ensures
        views_source_ordered(spec_translate(source, tree).children),
{
    lemma_root_children_source_order(tree.range, tree.children@);
}

} // verus!
