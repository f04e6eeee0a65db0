use vstd::prelude::*;

use crate::arena::{
    arena_wf, child_views, entries_closed, entry_same_shape, lemma_view_at_frame, view_at, Arena,
    AstView, Entry, NodeId,
};
use crate::cst::CstNode;
use crate::position::{range_contains_pos, range_contains_range, Position, Range};

verus! {

/// Arithmetic operators of expression nodes.
#[derive(Debug, Clone, Copy, PartialEq, Eq)]
pub enum Operator {
    Add,
    Subtract,
    Multiply,
    Divide,
    Modulo,
}

/// The flavour of a type-introducing declaration.
#[derive(Debug, Clone, Copy, PartialEq, Eq)]
pub enum TypeDecType {
    TypeDef,
    HeaderType,
    HeaderUnion,
    Struct,
    Enum,
    Parser,
    Control,
    Package,
}

/// Parameter passing direction.
#[derive(Debug, Clone, Copy, PartialEq, Eq)]
pub enum Direction {
    In,
    Out,
    InOut,
}

/// A base type of the language. The sized variants carry the parsed
/// bit width when one is written; `None` means the width is left
/// unspecified by the source, not zero. A bare `int`, `bit` or
/// `varbit` token classifies as the sized variant with no width, so
/// the plain `Int`, `Bit` and `Varbit` variants are declared by the
/// data model but never produced by classification.
#[derive(Debug, Clone, Copy, PartialEq, Eq)]
pub enum BaseType {
    Bool,
    Int,
    Bit,
    String,
    Varbit,
    Error,
    MatchKind,
    SizedInt(Option<u32>),
    SizedBit(Option<u32>),
    SizedVarbit(Option<u32>),
}

/// The resolved or still-unresolved type attached to a type annotation.
/// The placeholder variants record shapes that are declared by the
/// grammar but not yet reduced to a concrete type.
#[derive(Debug, Clone, Copy, PartialEq, Eq)]
pub enum Type {
    Base(BaseType),
    Name,
    Specialized,
    HeaderStack,
    Tuple,
}

/// The semantic classification of an abstract syntax tree node.
#[derive(Debug, Clone, Copy, PartialEq, Eq)]
pub enum NodeKind {
    Body,
    Root,
    ConstantDec,
    VariableDec,
    ParserDec,
    Type(Type),
    Direction(Direction),
    TypeDec(TypeDecType),
    Expression,
    Name,
    Param,
    Params,
    Error,
    Value,
}

/// A node kind opens a new lexical scope exactly when it is the document
/// root, a parser declaration, or a body block. This predicate is the
/// single source of truth for what introduces a scope.
pub open spec fn spec_is_scope_node(k: NodeKind) -> bool {
    k is Root || k is ParserDec || k is Body
}

impl NodeKind {
    pub fn is_scope_node(&self) -> (r: bool)
        ensures
            r == spec_is_scope_node(*self),
    {
        match self {
            NodeKind::Root => true,
            NodeKind::ParserDec => true,
            NodeKind::Body => true,
            _ => false,
        }
    }
}

fn opt_u32_eq(a: &Option<u32>, b: &Option<u32>) -> (r: bool)
    ensures
        r == (a == b),
{
    match (a, b) {
        (Option::None, Option::None) => true,
        (Option::Some(x), Option::Some(y)) => x == y,
        _ => false,
    }
}

pub fn base_type_eq(a: &BaseType, b: &BaseType) -> (r: bool)
    ensures
        r == (a == b),
{
    match (a, b) {
        (BaseType::Bool, BaseType::Bool) => true,
        (BaseType::Int, BaseType::Int) => true,
        (BaseType::Bit, BaseType::Bit) => true,
        (BaseType::String, BaseType::String) => true,
        (BaseType::Varbit, BaseType::Varbit) => true,
        (BaseType::Error, BaseType::Error) => true,
        (BaseType::MatchKind, BaseType::MatchKind) => true,
        (BaseType::SizedInt(x), BaseType::SizedInt(y)) => opt_u32_eq(x, y),
        (BaseType::SizedBit(x), BaseType::SizedBit(y)) => opt_u32_eq(x, y),
        (BaseType::SizedVarbit(x), BaseType::SizedVarbit(y)) => opt_u32_eq(x, y),
        _ => false,
    }
}

pub fn type_eq(a: &Type, b: &Type) -> (r: bool)
    ensures
        r == (a == b),
{
    match (a, b) {
        (Type::Base(x), Type::Base(y)) => base_type_eq(x, y),
        (Type::Name, Type::Name) => true,
        (Type::Specialized, Type::Specialized) => true,
        (Type::HeaderStack, Type::HeaderStack) => true,
        (Type::Tuple, Type::Tuple) => true,
        _ => false,
    }
}

fn direction_eq(a: &Direction, b: &Direction) -> (r: bool)
    ensures
        r == (a == b),
{
    match (a, b) {
        (Direction::In, Direction::In) => true,
        (Direction::Out, Direction::Out) => true,
        (Direction::InOut, Direction::InOut) => true,
        _ => false,
    }
}

fn type_dec_type_eq(a: &TypeDecType, b: &TypeDecType) -> (r: bool)
    ensures
        r == (a == b),
{
    match (a, b) {
        (TypeDecType::TypeDef, TypeDecType::TypeDef) => true,
        (TypeDecType::HeaderType, TypeDecType::HeaderType) => true,
        (TypeDecType::HeaderUnion, TypeDecType::HeaderUnion) => true,
        (TypeDecType::Struct, TypeDecType::Struct) => true,
        (TypeDecType::Enum, TypeDecType::Enum) => true,
        (TypeDecType::Parser, TypeDecType::Parser) => true,
        (TypeDecType::Control, TypeDecType::Control) => true,
        (TypeDecType::Package, TypeDecType::Package) => true,
        _ => false,
    }
}

pub fn node_kind_eq(a: &NodeKind, b: &NodeKind) -> (r: bool)
    ensures
        r == (a == b),
{
    match (a, b) {
        (NodeKind::Body, NodeKind::Body) => true,
        (NodeKind::Root, NodeKind::Root) => true,
        (NodeKind::ConstantDec, NodeKind::ConstantDec) => true,
        (NodeKind::VariableDec, NodeKind::VariableDec) => true,
        (NodeKind::ParserDec, NodeKind::ParserDec) => true,
        (NodeKind::Type(x), NodeKind::Type(y)) => type_eq(x, y),
        (NodeKind::Direction(x), NodeKind::Direction(y)) => direction_eq(x, y),
        (NodeKind::TypeDec(x), NodeKind::TypeDec(y)) => type_dec_type_eq(x, y),
        (NodeKind::Expression, NodeKind::Expression) => true,
        (NodeKind::Name, NodeKind::Name) => true,
        (NodeKind::Param, NodeKind::Param) => true,
        (NodeKind::Params, NodeKind::Params) => true,
        (NodeKind::Error, NodeKind::Error) => true,
        (NodeKind::Value, NodeKind::Value) => true,
        _ => false,
    }
}

/// One abstract syntax tree node: a semantic kind, the source range it
/// spans, and the verbatim source text it covers. Nodes are immutable
/// once created; edits rebuild the tree they belong to.
#[derive(Debug, PartialEq)]
pub struct Node {
    pub kind: NodeKind,
    pub range: Range,
    pub content: String,
}

impl Node {
    /// Build a node of kind `kind` spanning the given concrete syntax
    /// tree node, keeping its exact range and verbatim text.
    pub fn new(kind: NodeKind, cst: &CstNode) -> (n: Node)
        ensures
            n.kind == kind,
            n.range == cst.range,
            n.content@ == cst.text@,
    {
        Node { kind, range: cst.range, content: cst.text.clone() }
    }

    /// An equal copy of this node.
    pub fn duplicate(&self) -> (n: Node)
        ensures
            n == *self,
    {
        let n = Node { kind: self.kind, range: self.range, content: self.content.clone() };
        proof {
            assert(n.content == self.content);
        }
        n
    }
}

/// The first id in `cs` whose node has kind `kind`.
pub open spec fn spec_child_of_kind(es: Seq<Entry>, cs: Seq<usize>, kind: NodeKind) -> Option<usize>
    decreases cs.len(),
{
    if cs.len() == 0 {
        None
    } else if es[cs[0] as int].node.kind == kind {
        Some(cs[0])
    } else {
        spec_child_of_kind(es, cs.subrange(1, cs.len() as int), kind)
    }
}

/// The subsequence of `cs` whose nodes are scope nodes.
pub open spec fn spec_subscope_ids(es: Seq<Entry>, cs: Seq<usize>) -> Seq<usize>
    decreases cs.len(),
{
    if cs.len() == 0 {
        Seq::<usize>::empty()
    } else {
        (if spec_is_scope_node(es[cs[0] as int].node.kind) {
            seq![cs[0]]
        } else {
            Seq::<usize>::empty()
        }) + spec_subscope_ids(es, cs.subrange(1, cs.len() as int))
    }
}

/// The type carried by the first `Type` child in `cs`, if any.
pub open spec fn spec_type_of(es: Seq<Entry>, cs: Seq<usize>) -> Option<Type>
    decreases cs.len(),
{
    if cs.len() == 0 {
        None
    } else if es[cs[0] as int].node.kind is Type {
        Some(es[cs[0] as int].node.kind->Type_0)
    } else {
        spec_type_of(es, cs.subrange(1, cs.len() as int))
    }
}

/// Every node of kind `Error` in the table from slot `i` on, in table order.
pub open spec fn spec_error_nodes_from(es: Seq<Entry>, i: int) -> Seq<Node>
    decreases es.len() - i,
{
    if i < 0 || i >= es.len() {
        Seq::<Node>::empty()
    } else {
        (if es[i].node.kind is Error {
            seq![es[i].node]
        } else {
            Seq::<Node>::empty()
        }) + spec_error_nodes_from(es, i + 1)
    }
}

/// The first id in `cs` whose node's range contains `pos`.
pub open spec fn spec_first_containing(es: Seq<Entry>, cs: Seq<usize>, pos: Position) -> Option<
    usize,
>
    decreases cs.len(),
{
    if cs.len() == 0 {
        None
    } else if range_contains_pos(es[cs[0] as int].node.range, pos) {
        Some(cs[0])
    } else {
        spec_first_containing(es, cs.subrange(1, cs.len() as int), pos)
    }
}

/// The innermost node reached from slot `i` by repeatedly descending
/// into the first child whose range contains `pos`.
pub open spec fn spec_node_at(es: Seq<Entry>, i: int, pos: Position) -> int
    decreases es.len() - i,
{
    if 0 <= i < es.len() {
        match spec_first_containing(es, es[i].children@, pos) {
            Some(j) => if i < j as int && (j as int) < es.len() {
                spec_node_at(es, j as int, pos)
            } else {
                i
            },
            None => i,
        }
    } else {
        i
    }
}

/// The abstract syntax tree: an arena of nodes plus the id of its
/// designated `Root` node.
#[derive(Debug, PartialEq)]
pub struct Ast {
    pub arena: Arena,
    pub root_id: NodeId,
}

impl Ast {
    /// Structural well-formedness: the arena is well formed and the
    /// root id points into it.
    pub open spec fn wf(self) -> bool {
        arena_wf(self.arena@) && (self.root_id.0 as int) < self.arena@.len()
    }

    /// The tree-shaped abstraction of the whole syntax tree.
    pub open spec fn view_spec(self) -> AstView {
        view_at(self.arena@, self.root_id.0 as int)
    }

    /// Wrap an already-built arena and its root handle.
    pub fn initialize(arena: Arena, root_id: NodeId) -> (ast: Ast)
        requires
            arena_wf(arena@),
            (root_id.0 as int) < arena@.len(),
        ensures
            ast.arena@ == arena@,
            ast.root_id == root_id,
            ast.wf(),
    {
        Ast { arena, root_id }
    }

    pub fn get_root_id(&self) -> (r: NodeId)
        ensures
            r == self.root_id,
    {
        self.root_id
    }

    pub fn get_node(&self, node_id: NodeId) -> (n: &Node)
        requires
            (node_id.0 as int) < self.arena@.len(),
        ensures
            *n == self.arena@[node_id.0 as int].node,
    {
        &self.arena.entries[node_id.0].node
    }

    /// The direct children of a node, in source order.
    pub fn get_child_ids(&self, node_id: NodeId) -> (r: Vec<NodeId>)
        requires
            (node_id.0 as int) < self.arena@.len(),
        ensures
            r@.len() == self.arena@[node_id.0 as int].children@.len(),
            forall|k: int|
                0 <= k < r@.len() ==> (#[trigger] r@[k]).0 == self.arena@[node_id.0 as int
                ].children@[k],
    {
        let list = &self.arena.entries[node_id.0].children;
        let n = list.len();
        let mut r: Vec<NodeId> = Vec::new();
        let mut i: usize = 0;
        while i < n
            invariant
                0 <= i <= n,
                n == list@.len(),
                list@ == self.arena@[node_id.0 as int].children@,
                r@.len() == i,
                forall|k: int| 0 <= k < i ==> (#[trigger] r@[k]).0 == list@[k],
            decreases n - i,
        {
            r.push(NodeId(list[i]));
            i += 1;
        }
        r
    }

    /// The first child of `node_id` whose kind equals `kind`, if any.
    pub fn get_child_of_kind(&self, node_id: NodeId, kind: NodeKind) -> (r: Option<NodeId>)
        requires
            arena_wf(self.arena@),
            (node_id.0 as int) < self.arena@.len(),
        ensures
            match r {
                Some(id) => spec_child_of_kind(
                    self.arena@,
                    self.arena@[node_id.0 as int].children@,
                    kind,
                ) == Some(id.0) && (node_id.0 as int) < (id.0 as int) && (id.0 as int)
                    < self.arena@.len() && self.arena@[id.0 as int].node.kind == kind,
                None => spec_child_of_kind(
                    self.arena@,
                    self.arena@[node_id.0 as int].children@,
                    kind,
                ) is None,
            },
    {
        let list = &self.arena.entries[node_id.0].children;
        let n = list.len();
        proof {
            assert(list@.subrange(0, n as int) =~= list@);
        }
        let mut i: usize = 0;
        while i < n
            invariant
                0 <= i <= n,
                n == list@.len(),
                arena_wf(self.arena@),
                (node_id.0 as int) < self.arena@.len(),
                list@ == self.arena@[node_id.0 as int].children@,
                spec_child_of_kind(self.arena@, list@, kind) == spec_child_of_kind(
                    self.arena@,
                    list@.subrange(i as int, n as int),
                    kind,
                ),
            decreases n - i,
        {
            proof {
                let cur = list@.subrange(i as int, n as int);
                assert(cur[0] == list@[i as int]);
                assert(cur.subrange(1, cur.len() as int) =~= list@.subrange(i + 1, n as int));
                assert((node_id.0 as int) < (list@[i as int] as int) && (list@[i as int] as int)
                    < self.arena@.len());
            }
            let j = list[i];
            if node_kind_eq(&self.arena.entries[j].node.kind, &kind) {
                return Some(NodeId(j));
            }
            i += 1;
        }
        proof {
            assert(list@.subrange(n as int, n as int) =~= Seq::<usize>::empty());
        }
        None
    }
}


fn clone_usize_vec(v: &Vec<usize>) -> (r: Vec<usize>)
    ensures
        r@ == v@,
{
    let n = v.len();
    let mut r: Vec<usize> = Vec::new();
    let mut i: usize = 0;
    while i < n
        invariant
            0 <= i <= n,
            n == v@.len(),
            r@ == v@.subrange(0, i as int),
        decreases n - i,
    {
        r.push(v[i]);
        proof {
            assert(r@ =~= v@.subrange(0, i + 1));
        }
        i += 1;
    }
    proof {
        assert(v@.subrange(0, n as int) =~= v@);
    }
    r
}

impl Ast {
    /// The direct children of `node_id` that open a lexical scope, in
    /// source order.
    pub fn get_subscope_ids(&self, node_id: NodeId) -> (r: Vec<NodeId>)
        requires
            arena_wf(self.arena@),
            (node_id.0 as int) < self.arena@.len(),
        ensures
            r@.map_values(|id: NodeId| id.0) == spec_subscope_ids(
                self.arena@,
                self.arena@[node_id.0 as int].children@,
            ),
    {
        let list = &self.arena.entries[node_id.0].children;
        let n = list.len();
        proof {
            assert(list@.subrange(0, n as int) =~= list@);
        }
        let mut r: Vec<NodeId> = Vec::new();
        let mut i: usize = 0;
        while i < n
            invariant
                0 <= i <= n,
                n == list@.len(),
                arena_wf(self.arena@),
                (node_id.0 as int) < self.arena@.len(),
                list@ == self.arena@[node_id.0 as int].children@,
                spec_subscope_ids(self.arena@, list@) == r@.map_values(|id: NodeId| id.0)
                    + spec_subscope_ids(self.arena@, list@.subrange(i as int, n as int)),
            decreases n - i,
        {
            proof {
                let cur = list@.subrange(i as int, n as int);
                assert(cur[0] == list@[i as int]);
                assert(cur.subrange(1, cur.len() as int) =~= list@.subrange(i + 1, n as int));
                assert((node_id.0 as int) < (list@[i as int] as int) && (list@[i as int] as int)
                    < self.arena@.len());
            }
            let j = list[i];
            let ghost r_old = r@;
            if self.arena.entries[j].node.kind.is_scope_node() {
                r.push(NodeId(j));
                proof {
                    assert(r@.map_values(|id: NodeId| id.0) =~= r_old.map_values(
                        |id: NodeId| id.0,
                    ).push(j));
                    assert(r@.map_values(|id: NodeId| id.0) + spec_subscope_ids(
                        self.arena@,
                        list@.subrange(i + 1, n as int),
                    ) =~= r_old.map_values(|id: NodeId| id.0) + (seq![j] + spec_subscope_ids(
                        self.arena@,
                        list@.subrange(i + 1, n as int),
                    )));
                }
            }
            i += 1;
        }
        proof {
            assert(list@.subrange(n as int, n as int) =~= Seq::<usize>::empty());
            assert(spec_subscope_ids(self.arena@, list@) =~= r@.map_values(|id: NodeId| id.0));
        }
        r
    }

    /// Every `Error` node in the tree, in table order; the protocol
    /// layer turns these into diagnostics.
    pub fn get_error_nodes(&self) -> (r: Vec<Node>)
        ensures
            r@ == spec_error_nodes_from(self.arena@, 0),
    {
        let n = self.arena.entries.len();
        let mut r: Vec<Node> = Vec::new();
        let mut i: usize = 0;
        while i < n
            invariant
                0 <= i <= n,
                n == self.arena@.len(),
                spec_error_nodes_from(self.arena@, 0) == r@ + spec_error_nodes_from(
                    self.arena@,
                    i as int,
                ),
            decreases n - i,
        {
            let ghost r_old = r@;
            let node = &self.arena.entries[i].node;
            let is_err = match node.kind {
                NodeKind::Error => true,
                _ => false,
            };
            if is_err {
                r.push(node.duplicate());
                proof {
                    assert(r@ + spec_error_nodes_from(self.arena@, i + 1) =~= r_old + (seq![
                        self.arena@[i as int].node,
                    ] + spec_error_nodes_from(self.arena@, i + 1)));
                }
            }
            i += 1;
        }
        proof {
            assert(spec_error_nodes_from(self.arena@, n as int) =~= Seq::<Node>::empty());
            assert(spec_error_nodes_from(self.arena@, 0) =~= r@);
        }
        r
    }

    /// The type attached to a declaration's `Type` child, if any.
    pub fn get_type(&self, node_id: NodeId) -> (r: Option<Type>)
        requires
            arena_wf(self.arena@),
            (node_id.0 as int) < self.arena@.len(),
        ensures
            r == spec_type_of(self.arena@, self.arena@[node_id.0 as int].children@),
    {
        let list = &self.arena.entries[node_id.0].children;
        let n = list.len();
        proof {
            assert(list@.subrange(0, n as int) =~= list@);
        }
        let mut i: usize = 0;
        while i < n
            invariant
                0 <= i <= n,
                n == list@.len(),
                arena_wf(self.arena@),
                (node_id.0 as int) < self.arena@.len(),
                list@ == self.arena@[node_id.0 as int].children@,
                spec_type_of(self.arena@, list@) == spec_type_of(
                    self.arena@,
                    list@.subrange(i as int, n as int),
                ),
            decreases n - i,
        {
            proof {
                let cur = list@.subrange(i as int, n as int);
                assert(cur[0] == list@[i as int]);
                assert(cur.subrange(1, cur.len() as int) =~= list@.subrange(i + 1, n as int));
                assert((node_id.0 as int) < (list@[i as int] as int) && (list@[i as int] as int)
                    < self.arena@.len());
            }
            let j = list[i];
            match &self.arena.entries[j].node.kind {
                NodeKind::Type(t) => {
                    return Some(*t);
                },
                _ => {},
            }
            i += 1;
        }
        proof {
            assert(list@.subrange(n as int, n as int) =~= Seq::<usize>::empty());
        }
        None
    }

    /// The first direct child of `id` whose range contains `pos`.
    fn first_child_containing(&self, id: usize, pos: Position) -> (r: Option<usize>)
        requires
            arena_wf(self.arena@),
            (id as int) < self.arena@.len(),
        ensures
            match r {
                Some(j) => spec_first_containing(self.arena@, self.arena@[id as int].children@, pos)
                    == Some(j) && (id as int) < (j as int) && (j as int) < self.arena@.len()
                    && range_contains_pos(self.arena@[j as int].node.range, pos),
                None => spec_first_containing(
                    self.arena@,
                    self.arena@[id as int].children@,
                    pos,
                ) is None,
            },
    {
        let list = &self.arena.entries[id].children;
        let n = list.len();
        proof {
            assert(list@.subrange(0, n as int) =~= list@);
        }
        let mut i: usize = 0;
        while i < n
            invariant
                0 <= i <= n,
                n == list@.len(),
                arena_wf(self.arena@),
                (id as int) < self.arena@.len(),
                list@ == self.arena@[id as int].children@,
                spec_first_containing(self.arena@, list@, pos) == spec_first_containing(
                    self.arena@,
                    list@.subrange(i as int, n as int),
                    pos,
                ),
            decreases n - i,
        {
            proof {
                let cur = list@.subrange(i as int, n as int);
                assert(cur[0] == list@[i as int]);
                assert(cur.subrange(1, cur.len() as int) =~= list@.subrange(i + 1, n as int));
                assert((id as int) < (list@[i as int] as int) && (list@[i as int] as int)
                    < self.arena@.len());
            }
            let j = list[i];
            if self.arena.entries[j].node.range.contains_pos(pos) {
                return Some(j);
            }
            i += 1;
        }
        proof {
            assert(list@.subrange(n as int, n as int) =~= Seq::<usize>::empty());
        }
        None
    }

    /// The innermost node whose range contains `pos`, found by
    /// narrowing from the root; `None` when the position lies outside
    /// the root's range.
    pub fn node_at(&self, pos: Position) -> (r: Option<Node>)
        requires
            self.wf(),
        ensures
            match r {
                Some(n) => range_contains_pos(self.arena@[self.root_id.0 as int].node.range, pos)
                    && n == self.arena@[spec_node_at(self.arena@, self.root_id.0 as int, pos)].node
                    && range_contains_pos(n.range, pos),
                None => !range_contains_pos(self.arena@[self.root_id.0 as int].node.range, pos),
            },
    {
        let root = self.root_id.0;
        if !self.arena.entries[root].node.range.contains_pos(pos) {
            return None;
        }
        let mut cur: usize = root;
        loop
            invariant
                arena_wf(self.arena@),
                (cur as int) < self.arena@.len(),
                spec_node_at(self.arena@, self.root_id.0 as int, pos) == spec_node_at(
                    self.arena@,
                    cur as int,
                    pos,
                ),
                (self.root_id.0 as int) < self.arena@.len(),
                range_contains_pos(self.arena@[self.root_id.0 as int].node.range, pos),
                range_contains_pos(self.arena@[cur as int].node.range, pos),
            decreases self.arena@.len() - cur,
        {
            match self.first_child_containing(cur, pos) {
                Some(j) => {
                    cur = j;
                },
                None => {
                    return Some(self.arena.entries[cur].node.duplicate());
                },
            }
        }
    }
}


impl Ast {
    /// Translate one concrete syntax tree into a fresh abstract syntax
    /// tree.
    pub fn new(source_code: &str, cst: CstNode) -> (r: Option<Ast>)
        requires
            crate::cst::cst_wf(cst),
        ensures
            match r {
                Some(ast) => ast.wf() && ast.view_spec()
                    == crate::translator::spec_translate(source_code@, cst)
                    && ast.arena@[ast.root_id.0 as int].parent is None && (forall|j: int|
                    0 <= j < ast.arena@.len() ==> (((#[trigger] ast.arena@[j].node.kind) is Root)
                        <==> j == ast.root_id.0 as int)) && (forall|j: int|
                    0 <= j < ast.arena@.len() && j != ast.root_id.0 as int ==> (#[trigger]
                    ast.arena@[j].parent) is Some),
                None => false,
            },
    {
        Some(
            crate::translator::TreesitterTranslator::translate(
                <String as vstd::string::StringExecFns>::from_str(source_code),
                cst,
            ),
        )
    }
}

/// Range containment, for every constructed tree: the range of each
/// child node lies fully inside its parent node's range. This is part
/// of the arena's well-formedness, which translation establishes and
/// no query disturbs.
pub proof fn lemma_child_range_containment(ast: Ast, j: int, k: int)
    requires
        ast.wf(),
        0 <= j < ast.arena@.len(),
        0 <= k < ast.arena@[j].children@.len(),
    ensures
        range_contains_range(
            ast.arena@[j].node.range,
            ast.arena@[ast.arena@[j].children@[k] as int].node.range,
        ),
{
}


/// Handle-based read access to a syntax tree.
pub trait Visitable {
    /// The handle denotes a node of this tree.
    spec fn valid_node(&self, node_id: NodeId) -> bool;

    fn get_root_id(&self) -> NodeId;

    fn get_node(&self, node_id: NodeId) -> &Node
        requires
            self.valid_node(node_id),
    ;

    fn get_child_ids(&self, node_id: NodeId) -> Vec<NodeId>
        requires
            self.valid_node(node_id),
    ;

    fn get_child_of_kind(&self, node_id: NodeId, kind: NodeKind) -> Option<NodeId>
        requires
            self.valid_node(node_id),
    ;

    fn get_subscope_ids(&self, node_id: NodeId) -> Vec<NodeId>
        requires
            self.valid_node(node_id),
    ;
}

impl Visitable for Ast {
    open spec fn valid_node(&self, node_id: NodeId) -> bool {
        arena_wf(self.arena@) && (node_id.0 as int) < self.arena@.len()
    }

    fn get_root_id(&self) -> NodeId {
        Ast::get_root_id(self)
    }

    fn get_node(&self, node_id: NodeId) -> &Node {
        Ast::get_node(self, node_id)
    }

    fn get_child_ids(&self, node_id: NodeId) -> Vec<NodeId> {
        Ast::get_child_ids(self, node_id)
    }

    fn get_child_of_kind(&self, node_id: NodeId, kind: NodeKind) -> Option<NodeId> {
        Ast::get_child_of_kind(self, node_id, kind)
    }

    fn get_subscope_ids(&self, node_id: NodeId) -> Vec<NodeId> {
        Ast::get_subscope_ids(self, node_id)
    }
}

/// A cursor pairing an arena with one node in it.
pub struct VisitNode<'a> {
    pub arena: &'a Arena,
    pub id: NodeId,
}

impl<'a> VisitNode<'a> {
    pub fn new(arena: &'a Arena, node_id: NodeId) -> (v: VisitNode<'a>)
        ensures
            v.arena == arena,
            v.id == node_id,
    {
        VisitNode { arena, id: node_id }
    }
}

/// Read access from a cursor.
pub trait TrueVisitable {
    /// The cursor points at a node of a well-formed arena.
    spec fn valid(&self) -> bool;

    fn get(&self) -> &Node
        requires
            self.valid(),
    ;

    fn get_children(&self) -> Vec<VisitNode>
        requires
            self.valid(),
    ;

    fn get_child_of_kind(&self, kind: NodeKind) -> Option<VisitNode>
        requires
            self.valid(),
    ;

    fn get_subscopes(&self) -> Vec<VisitNode>
        requires
            self.valid(),
    ;
}

impl<'x> TrueVisitable for VisitNode<'x> {
    open spec fn valid(&self) -> bool {
        arena_wf(self.arena@) && (self.id.0 as int) < self.arena@.len()
    }

    fn get(&self) -> (n: &Node)
        ensures
            *n == self.arena@[self.id.0 as int].node,
    {
        &self.arena.entries[self.id.0].node
    }

    fn get_children(&self) -> (r: Vec<VisitNode>)
        ensures
            r@.len() == self.arena@[self.id.0 as int].children@.len(),
            forall|k: int|
                0 <= k < r@.len() ==> (#[trigger] r@[k]).id.0 == self.arena@[self.id.0 as int
                ].children@[k] && r@[k].arena == self.arena,
    {
        let list = &self.arena.entries[self.id.0].children;
        let n = list.len();
        let mut r: Vec<VisitNode> = Vec::new();
        let mut i: usize = 0;
        while i < n
            invariant
                0 <= i <= n,
                n == list@.len(),
                list@ == self.arena@[self.id.0 as int].children@,
                r@.len() == i,
                forall|k: int|
                    0 <= k < i ==> (#[trigger] r@[k]).id.0 == list@[k] && r@[k].arena
                        == self.arena,
            decreases n - i,
        {
            r.push(VisitNode { arena: self.arena, id: NodeId(list[i]) });
            i += 1;
        }
        r
    }

    fn get_child_of_kind(&self, kind: NodeKind) -> (r: Option<VisitNode>)
        ensures
            match r {
                Some(v) => spec_child_of_kind(
                    self.arena@,
                    self.arena@[self.id.0 as int].children@,
                    kind,
                ) == Some(v.id.0) && v.arena == self.arena,
                None => spec_child_of_kind(
                    self.arena@,
                    self.arena@[self.id.0 as int].children@,
                    kind,
                ) is None,
            },
    {
        let list = &self.arena.entries[self.id.0].children;
        let n = list.len();
        proof {
            assert(list@.subrange(0, n as int) =~= list@);
        }
        let mut i: usize = 0;
        while i < n
            invariant
                0 <= i <= n,
                n == list@.len(),
                arena_wf(self.arena@),
                (self.id.0 as int) < self.arena@.len(),
                list@ == self.arena@[self.id.0 as int].children@,
                spec_child_of_kind(self.arena@, list@, kind) == spec_child_of_kind(
                    self.arena@,
                    list@.subrange(i as int, n as int),
                    kind,
                ),
            decreases n - i,
        {
            proof {
                let cur = list@.subrange(i as int, n as int);
                assert(cur[0] == list@[i as int]);
                assert(cur.subrange(1, cur.len() as int) =~= list@.subrange(i + 1, n as int));
                assert((self.id.0 as int) < (list@[i as int] as int) && (list@[i as int] as int)
                    < self.arena@.len());
            }
            let j = list[i];
            if node_kind_eq(&self.arena.entries[j].node.kind, &kind) {
                return Some(VisitNode { arena: self.arena, id: NodeId(j) });
            }
            i += 1;
        }
        proof {
            assert(list@.subrange(n as int, n as int) =~= Seq::<usize>::empty());
        }
        None
    }

    fn get_subscopes(&self) -> (r: Vec<VisitNode>)
        ensures
            r@.map_values(|v: VisitNode| v.id.0) == spec_subscope_ids(
                self.arena@,
                self.arena@[self.id.0 as int].children@,
            ),
            forall|k: int| 0 <= k < r@.len() ==> (#[trigger] r@[k]).arena == self.arena,
    {
        let list = &self.arena.entries[self.id.0].children;
        let n = list.len();
        proof {
            assert(list@.subrange(0, n as int) =~= list@);
        }
        let mut r: Vec<VisitNode> = Vec::new();
        let mut i: usize = 0;
        while i < n
            invariant
                0 <= i <= n,
                n == list@.len(),
                arena_wf(self.arena@),
                (self.id.0 as int) < self.arena@.len(),
                list@ == self.arena@[self.id.0 as int].children@,
                spec_subscope_ids(self.arena@, list@) == r@.map_values(|v: VisitNode| v.id.0)
                    + spec_subscope_ids(self.arena@, list@.subrange(i as int, n as int)),
                forall|k: int| 0 <= k < r@.len() ==> (#[trigger] r@[k]).arena == self.arena,
            decreases n - i,
        {
            proof {
                let cur = list@.subrange(i as int, n as int);
                assert(cur[0] == list@[i as int]);
                assert(cur.subrange(1, cur.len() as int) =~= list@.subrange(i + 1, n as int));
                assert((self.id.0 as int) < (list@[i as int] as int) && (list@[i as int] as int)
                    < self.arena@.len());
            }
            let j = list[i];
            let ghost r_old = r@;
            if self.arena.entries[j].node.kind.is_scope_node() {
                r.push(VisitNode { arena: self.arena, id: NodeId(j) });
                proof {
                    assert(r@.map_values(|v: VisitNode| v.id.0) =~= r_old.map_values(
                        |v: VisitNode| v.id.0,
                    ).push(j));
                    assert(r@.map_values(|v: VisitNode| v.id.0) + spec_subscope_ids(
                        self.arena@,
                        list@.subrange(i + 1, n as int),
                    ) =~= r_old.map_values(|v: VisitNode| v.id.0) + (seq![j] + spec_subscope_ids(
                        self.arena@,
                        list@.subrange(i + 1, n as int),
                    )));
                }
            }
            i += 1;
        }
        proof {
            assert(list@.subrange(n as int, n as int) =~= Seq::<usize>::empty());
            assert(spec_subscope_ids(self.arena@, list@) =~= r@.map_values(
                |v: VisitNode| v.id.0,
            ));
        }
        r
    }
}

fn name_of_kind(kind: &NodeKind) -> (r: &'static str) {
    match kind {
        NodeKind::Body => "Body",
        NodeKind::Root => "Root",
        NodeKind::ConstantDec => "ConstantDec",
        NodeKind::VariableDec => "VariableDec",
        NodeKind::ParserDec => "ParserDec",
        NodeKind::Type(_) => "Type",
        NodeKind::Direction(_) => "Direction",
        NodeKind::TypeDec(_) => "TypeDec",
        NodeKind::Expression => "Expression",
        NodeKind::Name => "Name",
        NodeKind::Param => "Param",
        NodeKind::Params => "Params",
        NodeKind::Error => "Error",
        NodeKind::Value => "Value",
    }
}

impl Ast {
    /// A cursor at the tree's root.
    pub fn visit_root(&self) -> (v: VisitNode)
        ensures
            v.arena == &self.arena,
            v.id == self.root_id,
    {
        VisitNode::new(&self.arena, self.root_id)
    }

    /// An equal copy of the arena's contents.
    pub fn get_arena(&self) -> (r: Arena)
        ensures
            r@.len() == self.arena@.len(),
            forall|j: int|
                0 <= j < r@.len() ==> (#[trigger] r@[j]).node == self.arena@[j].node
                    && r@[j].parent == self.arena@[j].parent && r@[j].children@
                    == self.arena@[j].children@,
    {
        let n = self.arena.entries.len();
        let mut entries: Vec<Entry> = Vec::new();
        let mut i: usize = 0;
        while i < n
            invariant
                0 <= i <= n,
                n == self.arena@.len(),
                entries@.len() == i,
                forall|j: int|
                    0 <= j < i ==> (#[trigger] entries@[j]).node == self.arena@[j].node
                        && entries@[j].parent == self.arena@[j].parent && entries@[j].children@
                        == self.arena@[j].children@,
            decreases n - i,
        {
            let e = &self.arena.entries[i];
            entries.push(
                Entry {
                    node: e.node.duplicate(),
                    parent: e.parent,
                    children: clone_usize_vec(&e.children),
                },
            );
            i += 1;
        }
        Arena { entries }
    }

    /// A plain-text sketch of the tree, one node kind per line, purely
    /// a diagnostic aid.
    pub fn get_debug_tree(&self) -> (r: String)
        requires
            self.wf(),
    {
        let mut result = String::new();
        self.debug_tree_at(self.root_id.0, "", true, &mut result);
        result
    }

    fn debug_tree_at(&self, id: usize, indent: &str, last: bool, result: &mut String)
        requires
            arena_wf(self.arena@),
            (id as int) < self.arena@.len(),
        decreases self.arena@.len() - id,
    {
        result.append(indent);
        if last {
            result.append("+- ");
        } else {
            result.append("|- ");
        }
        result.append(name_of_kind(&self.arena.entries[id].node.kind));
        result.append("\n");
        let deeper = if last {
            <String as vstd::string::StringExecFns>::from_str(indent).concat("   ")
        } else {
            <String as vstd::string::StringExecFns>::from_str(indent).concat("|  ")
        };
        let n = self.arena.entries[id].children.len();
        let mut i: usize = 0;
        while i < n
            invariant
                0 <= i <= n,
                arena_wf(self.arena@),
                (id as int) < self.arena@.len(),
                n == self.arena@[id as int].children@.len(),
            decreases n - i,
        {
            proof {
                assert((id as int) < (self.arena@[id as int].children@[i as int] as int) && (
                self.arena@[id as int].children@[i as int] as int) < self.arena@.len());
            }
            let child = self.arena.entries[id].children[i];
            self.debug_tree_at(child, deeper.as_str(), i == n - 1, result);
            i += 1;
        }
    }
}

} // verus!
