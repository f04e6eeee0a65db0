use vstd::prelude::*;

use crate::arena::{Entry, NodeId};
use crate::position::{range_contains_pos, Position, Range};
use crate::text::str_eq;
use crate::tree::{spec_child_of_kind, spec_is_scope_node, Ast, NodeKind};

verus! {

broadcast use vstd::seq::group_seq_axioms, vstd::std_specs::vec::group_vec_axioms;

/// The category a declared name belongs to.
#[derive(Debug, Clone, Copy, PartialEq, Eq)]
pub enum SymbolCategory {
    Type,
    Constant,
    Variable,
    Function,
}

/// The category of symbol a declaration node introduces, if any.
pub open spec fn spec_decl_category(k: NodeKind) -> Option<SymbolCategory> {
    match k {
        NodeKind::ConstantDec => Some(SymbolCategory::Constant),
        NodeKind::VariableDec => Some(SymbolCategory::Variable),
        NodeKind::TypeDec(_) => Some(SymbolCategory::Type),
        _ => None,
    }
}

/// One declared name: its text, category, the declaring node's handle,
/// and the range of the declared name for go-to and hover.
#[derive(Debug, PartialEq)]
pub struct Symbol {
    pub name: String,
    pub category: SymbolCategory,
    pub declaring_node: NodeId,
    pub range: Range,
}

/// The mathematical abstraction of a symbol.
pub struct SymbolV {
    pub name: Seq<char>,
    pub category: SymbolCategory,
    pub declaring_node: int,
    pub range: Range,
}

impl View for Symbol {
    type V = SymbolV;

    open spec fn view(&self) -> SymbolV {
        SymbolV {
            name: self.name@,
            category: self.category,
            declaring_node: self.declaring_node.0 as int,
            range: self.range,
        }
    }
}

pub open spec fn syms_view(v: Seq<Symbol>) -> Seq<SymbolV> {
    v.map_values(|x: Symbol| x@)
}

impl Symbol {
    pub fn get_name(&self) -> (r: String)
        ensures
            r@ == self.name@,
    {
        self.name.clone()
    }

    /// An equal copy of this symbol.
    pub fn duplicate(&self) -> (r: Symbol)
        ensures
            r@ == self@,
    {
        Symbol {
            name: self.name.clone(),
            category: self.category,
            declaring_node: self.declaring_node,
            range: self.range,
        }
    }
}

/// The four buckets of symbols visible somewhere: types, constants,
/// variables and functions.
#[derive(Debug, PartialEq)]
pub struct Symbols {
    pub types: Vec<Symbol>,
    pub constants: Vec<Symbol>,
    pub variables: Vec<Symbol>,
    pub functions: Vec<Symbol>,
}

/// The mathematical abstraction of the four buckets.
pub struct SymbolsV {
    pub types: Seq<SymbolV>,
    pub constants: Seq<SymbolV>,
    pub variables: Seq<SymbolV>,
    pub functions: Seq<SymbolV>,
}

impl View for Symbols {
    type V = SymbolsV;

    open spec fn view(&self) -> SymbolsV {
        SymbolsV {
            types: syms_view(self.types@),
            constants: syms_view(self.constants@),
            variables: syms_view(self.variables@),
            functions: syms_view(self.functions@),
        }
    }
}

/// One lexical scope: the scope node it mirrors, that node's range, the
/// symbols declared directly within it, and its nested scopes.
#[derive(Debug)]
pub struct Scope {
    pub node_id: NodeId,
    pub range: Range,
    pub symbols: Symbols,
    pub children: Vec<Scope>,
}

/// The symbol a declaration node introduces: named by its `Name` child;
/// a declaration without one introduces nothing.
pub open spec fn spec_decl_symbol(es: Seq<Entry>, j: int, cat: SymbolCategory) -> Option<SymbolV> {
    match spec_child_of_kind(es, es[j].children@, NodeKind::Name) {
        Some(nid) => Some(
            SymbolV {
                name: es[nid as int].node.content@,
                category: cat,
                declaring_node: j,
                range: es[nid as int].node.range,
            },
        ),
        None => None,
    }
}

/// The symbols of category `cat` declared in the scope that owns the
/// child list `cs` of node `i`: the walk records declaration-shaped
/// nodes and continues below them, but does not descend into nested
/// scope nodes, which collect their own symbols.
pub open spec fn spec_syms(es: Seq<Entry>, cs: Seq<usize>, i: int, cat: SymbolCategory) -> Seq<
    SymbolV,
>
    decreases es.len() - i, cs.len(),
{
    if cs.len() == 0 {
        Seq::<SymbolV>::empty()
    } else {
        let j = cs[0] as int;
        (if i < j && j < es.len() && !spec_is_scope_node(es[j].node.kind) {
            (if spec_decl_category(es[j].node.kind) == Some(cat) && spec_decl_symbol(
                es,
                j,
                cat,
            ) is Some {
                seq![spec_decl_symbol(es, j, cat)->0]
            } else {
                Seq::<SymbolV>::empty()
            }) + spec_syms(es, es[j].children@, j, cat)
        } else {
            Seq::<SymbolV>::empty()
        }) + spec_syms(es, cs.subrange(1, cs.len() as int), i, cat)
    }
}

/// The scope nodes that become child scopes of the scope owning child
/// list `cs` of node `i`: scope nodes met during the walk, without
/// descending below them.
pub open spec fn spec_child_scopes(es: Seq<Entry>, cs: Seq<usize>, i: int) -> Seq<int>
    decreases es.len() - i, cs.len(),
{
    if cs.len() == 0 {
        Seq::<int>::empty()
    } else {
        let j = cs[0] as int;
        (if i < j && j < es.len() {
            if spec_is_scope_node(es[j].node.kind) {
                seq![j]
            } else {
                spec_child_scopes(es, es[j].children@, j)
            }
        } else {
            Seq::<int>::empty()
        }) + spec_child_scopes(es, cs.subrange(1, cs.len() as int), i)
    }
}

/// The scope `s` is exactly the scope that node `i` of the arena owns:
/// right node, right range, the four buckets collected by the scope
/// walk, and child scopes matching recursively.
pub open spec fn scope_ok(es: Seq<Entry>, s: Scope, i: int) -> bool
    decreases s,
{
    &&& s.node_id.0 as int == i
    &&& 0 <= i < es.len()
    &&& s.range == es[i].node.range
    &&& syms_view(s.symbols.types@) == spec_syms(es, es[i].children@, i, SymbolCategory::Type)
    &&& syms_view(s.symbols.constants@) == spec_syms(
        es,
        es[i].children@,
        i,
        SymbolCategory::Constant,
    )
    &&& syms_view(s.symbols.variables@) == spec_syms(
        es,
        es[i].children@,
        i,
        SymbolCategory::Variable,
    )
    &&& syms_view(s.symbols.functions@) == spec_syms(
        es,
        es[i].children@,
        i,
        SymbolCategory::Function,
    )
    &&& scopes_ok(es, s.children@, spec_child_scopes(es, es[i].children@, i))
}

pub open spec fn scopes_ok(es: Seq<Entry>, ss: Seq<Scope>, ids: Seq<int>) -> bool
    decreases ss,
{
    &&& ss.len() == ids.len()
    &&& (ss.len() == 0 || {
        &&& scope_ok(es, ss[0], ids[0])
        &&& scopes_ok(es, ss.subrange(1, ss.len() as int), ids.subrange(1, ids.len() as int))
    })
}

proof fn lemma_scopes_ok_snoc(es: Seq<Entry>, ss: Seq<Scope>, ids: Seq<int>, s: Scope, id: int)
    requires
        scopes_ok(es, ss, ids),
        scope_ok(es, s, id),
    ensures
        scopes_ok(es, ss.push(s), ids.push(id)),
    decreases ss.len(),
{
    let ps = ss.push(s);
    let pi = ids.push(id);
    assert(scopes_ok(es, Seq::<Scope>::empty(), Seq::<int>::empty()));
    if ss.len() == 0 {
        assert(ps[0] == s);
        assert(pi[0] == id);
        assert(ps.len() == pi.len());
        assert(scope_ok(es, ps[0], pi[0]));
        assert(ps.subrange(1, ps.len() as int) =~= Seq::<Scope>::empty());
        assert(pi.subrange(1, pi.len() as int) =~= Seq::<int>::empty());
    } else {
        assert(ps[0] == ss[0]);
        assert(pi[0] == ids[0]);
        assert(ps.subrange(1, ps.len() as int) =~= ss.subrange(1, ss.len() as int).push(s));
        assert(pi.subrange(1, pi.len() as int) =~= ids.subrange(1, ids.len() as int).push(id));
        lemma_scopes_ok_snoc(
            es,
            ss.subrange(1, ss.len() as int),
            ids.subrange(1, ids.len() as int),
            s,
            id,
        );
    }
}


proof fn lemma_scopes_ok_concat(es: Seq<Entry>, ss1: Seq<Scope>, ids1: Seq<int>, ss2: Seq<Scope>, ids2: Seq<int>)
    requires
        scopes_ok(es, ss1, ids1),
        scopes_ok(es, ss2, ids2),
    ensures
        scopes_ok(es, ss1 + ss2, ids1 + ids2),
    decreases ss1.len(),
{
    let cs = ss1 + ss2;
    let ci = ids1 + ids2;
    assert(scopes_ok(es, Seq::<Scope>::empty(), Seq::<int>::empty()));
    if ss1.len() == 0 {
        assert(cs =~= ss2);
        assert(ci =~= ids2);
    } else {
        assert(cs[0] == ss1[0]);
        assert(ci[0] == ids1[0]);
        assert(cs.subrange(1, cs.len() as int) =~= ss1.subrange(1, ss1.len() as int) + ss2);
        assert(ci.subrange(1, ci.len() as int) =~= ids1.subrange(1, ids1.len() as int) + ids2);
        lemma_scopes_ok_concat(
            es,
            ss1.subrange(1, ss1.len() as int),
            ids1.subrange(1, ids1.len() as int),
            ss2,
            ids2,
        );
    }
}

/// Map a declaration node kind to the category it declares, if any.
fn decl_category(k: &NodeKind) -> (r: Option<SymbolCategory>)
    ensures
        r == spec_decl_category(*k),
{
    match k {
        NodeKind::ConstantDec => Some(SymbolCategory::Constant),
        NodeKind::VariableDec => Some(SymbolCategory::Variable),
        NodeKind::TypeDec(_) => Some(SymbolCategory::Type),
        _ => None,
    }
}

/// Walk the subtree below node `id` for the scope that owns it:
/// declarations feed the four buckets, nested scope nodes become child
/// scopes built recursively, and the walk continues below
/// non-scope nodes.
#[verifier::rlimit(60)]
fn collect_under(
    ast: &Ast,
    id: usize,
    types: &mut Vec<Symbol>,
    constants: &mut Vec<Symbol>,
    variables: &mut Vec<Symbol>,
    functions: &mut Vec<Symbol>,
    scopes: &mut Vec<Scope>,
)
    requires
        ast.wf(),
        (id as int) < ast.arena@.len(),
    ensures
        syms_view(final(types)@) == syms_view(old(types)@) + spec_syms(
            ast.arena@,
            ast.arena@[id as int].children@,
            id as int,
            SymbolCategory::Type,
        ),
        syms_view(final(constants)@) == syms_view(old(constants)@) + spec_syms(
            ast.arena@,
            ast.arena@[id as int].children@,
            id as int,
            SymbolCategory::Constant,
        ),
        syms_view(final(variables)@) == syms_view(old(variables)@) + spec_syms(
            ast.arena@,
            ast.arena@[id as int].children@,
            id as int,
            SymbolCategory::Variable,
        ),
        syms_view(final(functions)@) == syms_view(old(functions)@) + spec_syms(
            ast.arena@,
            ast.arena@[id as int].children@,
            id as int,
            SymbolCategory::Function,
        ),
        final(scopes)@.len() >= old(scopes)@.len(),
        final(scopes)@.subrange(0, old(scopes)@.len() as int) == old(scopes)@,
        scopes_ok(
            ast.arena@,
            final(scopes)@.subrange(old(scopes)@.len() as int, final(scopes)@.len() as int),
            spec_child_scopes(ast.arena@, ast.arena@[id as int].children@, id as int),
        ),
    decreases ast.arena@.len() - id, 0int,
{
    let ghost es = ast.arena@;
    let list = &ast.arena.entries[id].children;
    let n = list.len();
    let ghost l0 = scopes@.len() as int;
    let ghost built_ids = Seq::<int>::empty();
    let mut built_ids_g: Ghost<Seq<int>> = Ghost(built_ids);
    proof {
        assert(list@.subrange(0, n as int) =~= list@);
        assert(scopes@.subrange(l0, l0) =~= Seq::<Scope>::empty());
    }
    let mut k: usize = 0;
    while k < n
        invariant
            ast.wf(),
            (id as int) < es.len(),
            es == ast.arena@,
            0 <= k <= n,
            n == list@.len(),
            list@ == es[id as int].children@,
            l0 == old(scopes)@.len() as int,
            syms_view(old(types)@) + spec_syms(es, list@, id as int, SymbolCategory::Type)
                == syms_view(types@) + spec_syms(
                es,
                list@.subrange(k as int, n as int),
                id as int,
                SymbolCategory::Type,
            ),
            syms_view(old(constants)@) + spec_syms(es, list@, id as int, SymbolCategory::Constant)
                == syms_view(constants@) + spec_syms(
                es,
                list@.subrange(k as int, n as int),
                id as int,
                SymbolCategory::Constant,
            ),
            syms_view(old(variables)@) + spec_syms(es, list@, id as int, SymbolCategory::Variable)
                == syms_view(variables@) + spec_syms(
                es,
                list@.subrange(k as int, n as int),
                id as int,
                SymbolCategory::Variable,
            ),
            syms_view(old(functions)@) + spec_syms(es, list@, id as int, SymbolCategory::Function)
                == syms_view(functions@) + spec_syms(
                es,
                list@.subrange(k as int, n as int),
                id as int,
                SymbolCategory::Function,
            ),
            scopes@.len() >= l0,
            scopes@.subrange(0, l0) == old(scopes)@,
            spec_child_scopes(es, list@, id as int) == built_ids_g@ + spec_child_scopes(
                es,
                list@.subrange(k as int, n as int),
                id as int,
            ),
            scopes_ok(es, scopes@.subrange(l0, scopes@.len() as int), built_ids_g@),
        decreases n - k,
    {
        proof {
            let cur = list@.subrange(k as int, n as int);
            assert(cur[0] == list@[k as int]);
            assert(cur.subrange(1, cur.len() as int) =~= list@.subrange(k + 1, n as int));
            assert((id as int) < (list@[k as int] as int) && (list@[k as int] as int) < es.len());
        }
        let j = list[k];
        let node_kind = &ast.arena.entries[j].node.kind;
        if node_kind.is_scope_node() {
            let ghost pre_scopes = scopes@;
            let sub = build_scope(ast, j);
            scopes.push(sub);
            proof {
                assert(scopes@.subrange(0, l0) =~= pre_scopes.subrange(0, l0));
                assert(scopes@.subrange(l0, scopes@.len() as int) =~= pre_scopes.subrange(
                    l0,
                    pre_scopes.len() as int,
                ).push(sub));
                lemma_scopes_ok_snoc(
                    es,
                    pre_scopes.subrange(l0, pre_scopes.len() as int),
                    built_ids_g@,
                    sub,
                    j as int,
                );
                built_ids_g@ = built_ids_g@.push(j as int);
                assert(built_ids_g@ + spec_child_scopes(
                    es,
                    list@.subrange(k + 1, n as int),
                    id as int,
                ) =~= (built_ids_g@.drop_last() + seq![j as int]) + spec_child_scopes(
                    es,
                    list@.subrange(k + 1, n as int),
                    id as int,
                ));
                assert((built_ids_g@.drop_last() + seq![j as int]) + spec_child_scopes(
                    es,
                    list@.subrange(k + 1, n as int),
                    id as int,
                ) =~= built_ids_g@.drop_last() + (seq![j as int] + spec_child_scopes(
                    es,
                    list@.subrange(k + 1, n as int),
                    id as int,
                )));
            }
        } else {
            let cat_opt = decl_category(node_kind);
            match cat_opt {
                Some(cat) => {
                    match ast.get_child_of_kind(NodeId(j), NodeKind::Name) {
                        Some(nid) => {
                            let name_node = ast.get_node(nid);
                            let sym = Symbol {
                                name: name_node.content.clone(),
                                category: cat,
                                declaring_node: NodeId(j),
                                range: name_node.range,
                            };
                            proof {
                                assert(sym@ == spec_decl_symbol(es, j as int, cat)->0);
                            }
                            let ghost pre_t = types@;
                            let ghost pre_c = constants@;
                            let ghost pre_v = variables@;
                            let ghost pre_f = functions@;
                            match cat {
                                SymbolCategory::Type => types.push(sym),
                                SymbolCategory::Constant => constants.push(sym),
                                SymbolCategory::Variable => variables.push(sym),
                                SymbolCategory::Function => functions.push(sym),
                            }
                            proof {
                                assert(syms_view(pre_t.push(sym)) =~= syms_view(pre_t).push(sym@));
                                assert(syms_view(pre_c.push(sym)) =~= syms_view(pre_c).push(sym@));
                                assert(syms_view(pre_v.push(sym)) =~= syms_view(pre_v).push(sym@));
                                assert(syms_view(pre_f.push(sym)) =~= syms_view(pre_f).push(sym@));
                            }
                        },
                        None => {},
                    }
                },
                None => {},
            }
            let ghost mid_t = types@;
            let ghost mid_c = constants@;
            let ghost mid_v = variables@;
            let ghost mid_f = functions@;
            let ghost mid_scopes = scopes@;
            collect_under(ast, j, types, constants, variables, functions, scopes);
            proof {
                let jj = j as int;
                let inner_t = spec_syms(es, es[jj].children@, jj, SymbolCategory::Type);
                let inner_c = spec_syms(es, es[jj].children@, jj, SymbolCategory::Constant);
                let inner_v = spec_syms(es, es[jj].children@, jj, SymbolCategory::Variable);
                let inner_f = spec_syms(es, es[jj].children@, jj, SymbolCategory::Function);
                assert(syms_view(types@) =~= syms_view(mid_t) + inner_t);
                assert(syms_view(constants@) =~= syms_view(mid_c) + inner_c);
                assert(syms_view(variables@) =~= syms_view(mid_v) + inner_v);
                assert(syms_view(functions@) =~= syms_view(mid_f) + inner_f);
                let rest = spec_syms(es, list@.subrange(k + 1, n as int), id as int, SymbolCategory::Type);
                // re-associate: (pre + here) + rest == pre + (here + rest), per bucket
                assert forall|a: Seq<SymbolV>, b: Seq<SymbolV>, c: Seq<SymbolV>| true implies (a
                    + b) + c =~= a + (b + c) by {}
                // child scopes accumulated by the recursive walk
                let inner_ids = spec_child_scopes(es, es[jj].children@, jj);
                let old_delta = mid_scopes.subrange(l0, mid_scopes.len() as int);
                let new_delta = scopes@.subrange(mid_scopes.len() as int, scopes@.len() as int);
                assert forall|m: int| 0 <= m < mid_scopes.len() implies scopes@[m]
                    == mid_scopes[m] by {
                    assert(scopes@.subrange(0, mid_scopes.len() as int)[m] == scopes@[m]);
                }
                assert(scopes@.subrange(0, l0) =~= mid_scopes.subrange(0, l0));
                lemma_scopes_ok_concat(es, old_delta, built_ids_g@, new_delta, inner_ids);
                assert(scopes@.subrange(l0, scopes@.len() as int) =~= old_delta + new_delta);
                built_ids_g@ = built_ids_g@ + inner_ids;
            }
        }
        k += 1;
    }
    proof {
        assert(list@.subrange(n as int, n as int) =~= Seq::<usize>::empty());
        assert(syms_view(types@) + Seq::<SymbolV>::empty() =~= syms_view(types@));
        assert(syms_view(constants@) + Seq::<SymbolV>::empty() =~= syms_view(constants@));
        assert(syms_view(variables@) + Seq::<SymbolV>::empty() =~= syms_view(variables@));
        assert(syms_view(functions@) + Seq::<SymbolV>::empty() =~= syms_view(functions@));
        assert(built_ids_g@ + Seq::<int>::empty() =~= built_ids_g@);
    }
}

/// Build the scope owned by the scope node `i`, its symbols and its
/// nested scopes.
fn build_scope(ast: &Ast, i: usize) -> (s: Scope)
    requires
        ast.wf(),
        (i as int) < ast.arena@.len(),
    ensures
        scope_ok(ast.arena@, s, i as int),
    decreases ast.arena@.len() - i, 1int,
{
    let mut types: Vec<Symbol> = Vec::new();
    let mut constants: Vec<Symbol> = Vec::new();
    let mut variables: Vec<Symbol> = Vec::new();
    let mut functions: Vec<Symbol> = Vec::new();
    let mut scopes: Vec<Scope> = Vec::new();
    collect_under(ast, i, &mut types, &mut constants, &mut variables, &mut functions, &mut scopes);
    let range = ast.arena.entries[i].node.range;
    proof {
        assert(syms_view(Seq::<Symbol>::empty()) =~= Seq::<SymbolV>::empty());
        assert(scopes@.subrange(0, scopes@.len() as int) =~= scopes@);
    }
    Scope {
        node_id: NodeId(i),
        range,
        symbols: Symbols { types, constants, variables, functions },
        children: scopes,
    }
}


/// A non-fatal diagnostic: the same name declared twice in one scope
/// and category; the range is the later declaration's.
#[derive(Debug, PartialEq)]
pub struct Redeclaration {
    pub name: String,
    pub range: Range,
}

pub struct RedeclarationV {
    pub name: Seq<char>,
    pub range: Range,
}

impl View for Redeclaration {
    type V = RedeclarationV;

    open spec fn view(&self) -> RedeclarationV {
        RedeclarationV { name: self.name@, range: self.range }
    }
}

pub open spec fn redecls_view(v: Seq<Redeclaration>) -> Seq<RedeclarationV> {
    v.map_values(|x: Redeclaration| x@)
}

/// Symbol `k` of a bucket repeats the name of an earlier symbol in the
/// same bucket.
pub open spec fn dup_at(b: Seq<SymbolV>, k: int) -> bool {
    exists|m: int| 0 <= m < k && (#[trigger] b[m]).name == b[k].name
}

/// The redeclarations in one bucket from index `k` on: every symbol
/// whose name already appeared earlier in the bucket.
pub open spec fn spec_bucket_redecls(b: Seq<SymbolV>, k: int) -> Seq<RedeclarationV>
    decreases b.len() - k,
{
    if k < 0 || k >= b.len() {
        Seq::<RedeclarationV>::empty()
    } else {
        (if dup_at(b, k) {
            seq![RedeclarationV { name: b[k].name, range: b[k].range }]
        } else {
            Seq::<RedeclarationV>::empty()
        }) + spec_bucket_redecls(b, k + 1)
    }
}

/// All redeclarations of a scope and its nested scopes, bucket by
/// bucket, outer scope first.
pub open spec fn spec_scope_redecls(s: Scope) -> Seq<RedeclarationV>
    decreases s,
{
    spec_bucket_redecls(syms_view(s.symbols.types@), 0) + spec_bucket_redecls(
        syms_view(s.symbols.constants@),
        0,
    ) + spec_bucket_redecls(syms_view(s.symbols.variables@), 0) + spec_bucket_redecls(
        syms_view(s.symbols.functions@),
        0,
    ) + spec_scopes_redecls(s.children@)
}

pub open spec fn spec_scopes_redecls(ss: Seq<Scope>) -> Seq<RedeclarationV>
    decreases ss,
{
    if ss.len() == 0 {
        Seq::<RedeclarationV>::empty()
    } else {
        spec_scope_redecls(ss[0]) + spec_scopes_redecls(ss.subrange(1, ss.len() as int))
    }
}

/// Does symbol `k` of `b` repeat an earlier name?
fn has_earlier_name(b: &Vec<Symbol>, k: usize) -> (r: bool)
    requires
        (k as int) < b@.len(),
    ensures
        r == dup_at(syms_view(b@), k as int),
{
    let mut m: usize = 0;
    while m < k
        invariant
            0 <= m <= k,
            (k as int) < b@.len(),
            forall|q: int| 0 <= q < m ==> syms_view(b@)[q].name != syms_view(b@)[k as int].name,
        decreases k - m,
    {
        if str_eq(b[m].name.as_str(), b[k].name.as_str()) {
            proof {
                assert(syms_view(b@)[m as int].name == syms_view(b@)[k as int].name);
            }
            return true;
        }
        proof {
            assert(syms_view(b@)[m as int].name == b@[m as int].name@);
        }
        m += 1;
    }
    false
}

/// Collect the redeclarations of one bucket, in order.
fn bucket_redecls(b: &Vec<Symbol>, out: &mut Vec<Redeclaration>)
    ensures
        redecls_view(final(out)@) == redecls_view(old(out)@) + spec_bucket_redecls(
            syms_view(b@),
            0,
        ),
{
    let n = b.len();
    let ghost bv = syms_view(b@);
    let mut k: usize = 0;
    while k < n
        invariant
            0 <= k <= n,
            n == b@.len(),
            bv == syms_view(b@),
            redecls_view(old(out)@) + spec_bucket_redecls(bv, 0) == redecls_view(out@)
                + spec_bucket_redecls(bv, k as int),
        decreases n - k,
    {
        if has_earlier_name(b, k) {
            let ghost pre = out@;
            out.push(
                Redeclaration { name: b[k].name.clone(), range: b[k].range },
            );
            proof {
                assert(redecls_view(out@) =~= redecls_view(pre).push(
                    RedeclarationV { name: bv[k as int].name, range: bv[k as int].range },
                ));
                assert(redecls_view(out@) + spec_bucket_redecls(bv, k + 1) =~= redecls_view(pre)
                    + spec_bucket_redecls(bv, k as int));
            }
        }
        k += 1;
    }
    proof {
        assert(spec_bucket_redecls(bv, n as int) =~= Seq::<RedeclarationV>::empty());
        assert(redecls_view(out@) + Seq::<RedeclarationV>::empty() =~= redecls_view(out@));
    }
}

/// Collect the redeclarations of a scope and, below it, of its nested
/// scopes.
fn scope_redecls(s: &Scope, out: &mut Vec<Redeclaration>)
    ensures
        redecls_view(final(out)@) == redecls_view(old(out)@) + spec_scope_redecls(*s),
    decreases *s,
{
    bucket_redecls(&s.symbols.types, out);
    bucket_redecls(&s.symbols.constants, out);
    bucket_redecls(&s.symbols.variables, out);
    bucket_redecls(&s.symbols.functions, out);
    let n = s.children.len();
    let ghost base = out@;
    proof {
        assert(redecls_view(base) =~= redecls_view(old(out)@) + spec_bucket_redecls(
            syms_view(s.symbols.types@),
            0,
        ) + spec_bucket_redecls(syms_view(s.symbols.constants@), 0) + spec_bucket_redecls(
            syms_view(s.symbols.variables@),
            0,
        ) + spec_bucket_redecls(syms_view(s.symbols.functions@), 0));
        assert(s.children@.subrange(0, n as int) =~= s.children@);
    }
    let mut k: usize = 0;
    while k < n
        invariant
            0 <= k <= n,
            n == s.children@.len(),
            redecls_view(base) + spec_scopes_redecls(s.children@) == redecls_view(out@)
                + spec_scopes_redecls(s.children@.subrange(k as int, n as int)),
        decreases n - k,
    {
        proof {
            let cur = s.children@.subrange(k as int, n as int);
            assert(cur[0] == s.children@[k as int]);
            assert(cur.subrange(1, cur.len() as int) =~= s.children@.subrange(k + 1, n as int));
        }
        let ghost pre = out@;
        scope_redecls(&s.children[k], out);
        proof {
            assert(redecls_view(out@) + spec_scopes_redecls(
                s.children@.subrange(k + 1, n as int),
            ) =~= redecls_view(pre) + (spec_scope_redecls(s.children@[k as int])
                + spec_scopes_redecls(s.children@.subrange(k + 1, n as int))));
        }
        k += 1;
    }
    proof {
        assert(s.children@.subrange(0, n as int) =~= s.children@);
        assert(s.children@.subrange(n as int, n as int) =~= Seq::<Scope>::empty());
        assert(spec_scopes_redecls(s.children@.subrange(n as int, n as int)) =~= Seq::<
            RedeclarationV,
        >::empty());
        assert(redecls_view(out@) + Seq::<RedeclarationV>::empty() =~= redecls_view(out@));
    }
}

/// The per-document symbol table: a tree of scopes mirroring the scope
/// nodes of the abstract syntax tree, plus the redeclaration
/// diagnostics found while building it.
#[derive(Debug)]
pub struct SymbolTable {
    pub root: Scope,
    pub diagnostics: Vec<Redeclaration>,
}

impl SymbolTable {
    /// Derive the scope tree of an abstract syntax tree in one pass.
    pub fn new(ast: &Ast) -> (t: SymbolTable)
        requires
            ast.wf(),
        ensures
            scope_ok(ast.arena@, t.root, ast.root_id.0 as int),
            redecls_view(t.diagnostics@) == spec_scope_redecls(t.root),
    {
        let root = build_scope(ast, ast.get_root_id().0);
        let mut diagnostics: Vec<Redeclaration> = Vec::new();
        scope_redecls(&root, &mut diagnostics);
        proof {
            assert(redecls_view(Seq::<Redeclaration>::empty()) =~= Seq::<RedeclarationV>::empty());
            assert(Seq::<RedeclarationV>::empty() + spec_scope_redecls(root) =~=
                spec_scope_redecls(root));
        }
        SymbolTable { root, diagnostics }
    }
}


pub open spec fn empty_symbols() -> SymbolsV {
    SymbolsV {
        types: Seq::<SymbolV>::empty(),
        constants: Seq::<SymbolV>::empty(),
        variables: Seq::<SymbolV>::empty(),
        functions: Seq::<SymbolV>::empty(),
    }
}

pub open spec fn symbols_concat(a: SymbolsV, b: SymbolsV) -> SymbolsV {
    SymbolsV {
        types: a.types + b.types,
        constants: a.constants + b.constants,
        variables: a.variables + b.variables,
        functions: a.functions + b.functions,
    }
}

/// The first child scope, from index `k` on, whose range contains `pos`.
pub open spec fn spec_first_scope_from(ss: Seq<Scope>, pos: Position, k: int) -> Option<int>
    decreases ss.len() - k,
{
    if k < 0 || k >= ss.len() {
        None
    } else if range_contains_pos(ss[k].range, pos) {
        Some(k)
    } else {
        spec_first_scope_from(ss, pos, k + 1)
    }
}

/// The symbols visible at `pos` from scope `s` downward: the scope's
/// own buckets joined with those of the innermost chain of child
/// scopes containing `pos`. Shadowing is not applied: duplicates from
/// different scopes are all returned, outer scopes first.
pub open spec fn spec_visible(s: Scope, pos: Position) -> SymbolsV
    decreases s,
{
    let below = match spec_first_scope_from(s.children@, pos, 0) {
        Some(k) => if 0 <= k < s.children@.len() {
            spec_visible(s.children@[k], pos)
        } else {
            empty_symbols()
        },
        None => empty_symbols(),
    };
    symbols_concat(s.symbols@, below)
}

/// What `symbols_visible_at` returns: the union along the innermost
/// scope chain when the root scope contains `pos`, nothing otherwise.
pub open spec fn spec_symbols_visible_at(t: SymbolTable, pos: Position) -> Option<SymbolsV> {
    if range_contains_pos(t.root.range, pos) {
        Some(spec_visible(t.root, pos))
    } else {
        None
    }
}

fn first_scope_containing(ss: &Vec<Scope>, pos: Position) -> (r: Option<usize>)
    ensures
        match r {
            Some(k) => spec_first_scope_from(ss@, pos, 0) == Some(k as int) && (k as int)
                < ss@.len(),
            None => spec_first_scope_from(ss@, pos, 0) is None,
        },
{
    let n = ss.len();
    let mut k: usize = 0;
    while k < n
        invariant
            0 <= k <= n,
            n == ss@.len(),
            spec_first_scope_from(ss@, pos, 0) == spec_first_scope_from(ss@, pos, k as int),
        decreases n - k,
    {
        if ss[k].range.contains_pos(pos) {
            return Some(k);
        }
        k += 1;
    }
    None
}

/// Push an equal copy of every symbol of `src` onto `dst`.
fn append_symbol_copies(dst: &mut Vec<Symbol>, src: &Vec<Symbol>)
    ensures
        syms_view(final(dst)@) == syms_view(old(dst)@) + syms_view(src@),
{
    let n = src.len();
    let mut k: usize = 0;
    while k < n
        invariant
            0 <= k <= n,
            n == src@.len(),
            syms_view(dst@) == syms_view(old(dst)@) + syms_view(src@.subrange(0, k as int)),
        decreases n - k,
    {
        let ghost pre = dst@;
        dst.push(src[k].duplicate());
        proof {
            assert(syms_view(dst@) =~= syms_view(pre).push(src@[k as int]@));
            assert(syms_view(src@.subrange(0, k + 1)) =~= syms_view(
                src@.subrange(0, k as int),
            ).push(src@[k as int]@));
            assert(syms_view(dst@) =~= syms_view(old(dst)@) + syms_view(src@.subrange(0, k + 1)));
        }
        k += 1;
    }
    proof {
        assert(syms_view(Seq::<Symbol>::empty()) =~= Seq::<SymbolV>::empty());
        assert(src@.subrange(0, n as int) =~= src@);
    }
}

/// The symbols visible from scope `s` downward at `pos`.
fn visible_from(s: &Scope, pos: Position) -> (r: Symbols)
    ensures
        r@ == spec_visible(*s, pos),
    decreases *s,
{
    let mut types: Vec<Symbol> = Vec::new();
    let mut constants: Vec<Symbol> = Vec::new();
    let mut variables: Vec<Symbol> = Vec::new();
    let mut functions: Vec<Symbol> = Vec::new();
    append_symbol_copies(&mut types, &s.symbols.types);
    append_symbol_copies(&mut constants, &s.symbols.constants);
    append_symbol_copies(&mut variables, &s.symbols.variables);
    append_symbol_copies(&mut functions, &s.symbols.functions);
    proof {
        assert(syms_view(Seq::<Symbol>::empty()) =~= Seq::<SymbolV>::empty());
    }
    match first_scope_containing(&s.children, pos) {
        Some(k) => {
            let mut below = visible_from(&s.children[k], pos);
            types.append(&mut below.types);
            constants.append(&mut below.constants);
            variables.append(&mut below.variables);
            functions.append(&mut below.functions);
            proof {
                assert(syms_view(types@) =~= spec_visible(*s, pos).types);
                assert(syms_view(constants@) =~= spec_visible(*s, pos).constants);
                assert(syms_view(variables@) =~= spec_visible(*s, pos).variables);
                assert(syms_view(functions@) =~= spec_visible(*s, pos).functions);
            }
            Symbols { types, constants, variables, functions }
        },
        None => {
            proof {
                assert(syms_view(types@) =~= spec_visible(*s, pos).types);
                assert(syms_view(constants@) =~= spec_visible(*s, pos).constants);
                assert(syms_view(variables@) =~= spec_visible(*s, pos).variables);
                assert(syms_view(functions@) =~= spec_visible(*s, pos).functions);
            }
            Symbols { types, constants, variables, functions }
        },
    }
}

/// Position-based access to a document's symbols.
pub trait SymbolTableQuery {
    spec fn spec_symbols_at(&self, pos: Position) -> Option<SymbolsV>;

    fn get_symbols_at_pos(&self, pos: Position) -> (r: Option<Symbols>)
        ensures
            match r {
                Some(sy) => self.spec_symbols_at(pos) == Some(sy@),
                None => self.spec_symbols_at(pos) is None,
            },
    ;
}

impl SymbolTable {
    /// The symbols visible at `pos`: the innermost scope containing the
    /// position joined with all its ancestors. Returns nothing exactly
    /// when the position lies outside the root scope's range.
    pub fn symbols_visible_at(&self, pos: Position) -> (r: Option<Symbols>)
        ensures
            match r {
                Some(sy) => spec_symbols_visible_at(*self, pos) == Some(sy@),
                None => spec_symbols_visible_at(*self, pos) is None,
            },
            r is Some <==> range_contains_pos(self.root.range, pos),
    {
        if self.root.range.contains_pos(pos) {
            Some(visible_from(&self.root, pos))
        } else {
            None
        }
    }
}

impl SymbolTableQuery for SymbolTable {
    open spec fn spec_symbols_at(&self, pos: Position) -> Option<SymbolsV> {
        spec_symbols_visible_at(*self, pos)
    }

    fn get_symbols_at_pos(&self, pos: Position) -> (r: Option<Symbols>) {
        self.symbols_visible_at(pos)
    }
}

/// Scope containment is idempotent: with no intervening edit, the
/// visible-symbol query is a function of the table and position alone,
/// so two results of it for the same table and position are identical.
pub proof fn lemma_symbols_visible_at_idempotent(
    t: SymbolTable,
    pos: Position,
    r1: Option<SymbolsV>,
    r2: Option<SymbolsV>,
)
    requires
        r1 == spec_symbols_visible_at(t, pos),
        r2 == spec_symbols_visible_at(t, pos),
    ensures
        r1 == r2,
{
}


/// Redeclaration is reported: whenever two symbols of one scope bucket
/// carry the same name, the diagnostics of that bucket hold an entry
/// for the later declaration, at its range.
pub proof fn lemma_redeclaration_reported(b: Seq<SymbolV>, m: int, k: int)
    requires
        0 <= m < k < b.len(),
        b[m].name == b[k].name,
    ensures
        spec_bucket_redecls(b, 0).contains(RedeclarationV { name: b[k].name, range: b[k].range }),
{
    assert(dup_at(b, k));
    lemma_bucket_redecls_contains(b, 0, k);
}

proof fn lemma_bucket_redecls_contains(b: Seq<SymbolV>, k0: int, k: int)
    requires
        0 <= k0 <= k < b.len(),
        dup_at(b, k),
    ensures
        spec_bucket_redecls(b, k0).contains(RedeclarationV { name: b[k].name, range: b[k].range }),
    decreases k - k0,
{
    let entry = RedeclarationV { name: b[k].name, range: b[k].range };
    if k0 == k {
        assert(spec_bucket_redecls(b, k0)[0] == entry);
    } else {
        lemma_bucket_redecls_contains(b, k0 + 1, k);
        let tail = spec_bucket_redecls(b, k0 + 1);
        let idx = choose|i: int| 0 <= i < tail.len() && tail[i] == entry;
        let head = if dup_at(b, k0) {
            seq![RedeclarationV { name: b[k0].name, range: b[k0].range }]
        } else {
            Seq::<RedeclarationV>::empty()
        };
        assert(spec_bucket_redecls(b, k0)[head.len() + idx] == entry);
    }
}

/// Redeclaration retains both: a scope's own bucket entries all stay
/// queryable at any position resolved inside that scope; a later
/// declaration never displaces an earlier one of the same name.
pub proof fn lemma_own_symbols_stay_visible(s: Scope, pos: Position, i: int)
    requires
        0 <= i < s.symbols@.constants.len(),
    ensures
        spec_visible(s, pos).constants.len() >= s.symbols@.constants.len(),
        spec_visible(s, pos).constants[i] == s.symbols@.constants[i],
{
}


/// The source-to-bucket step: a declaration-shaped, non-scope node
/// standing in a scope's child list puts its symbol into that scope's
/// bucket for its category. Two same-named declarations in one scope
/// therefore yield two bucket entries (their `declaring_node` handles
/// differ), and with `lemma_redeclaration_reported` a recorded
/// diagnostic: the later declaration never displaces the earlier one.
pub proof fn lemma_declared_symbol_in_bucket(
    es: Seq<Entry>,
    cs: Seq<usize>,
    i: int,
    m: int,
    cat: SymbolCategory,
)
    requires
        0 <= m < cs.len(),
        i < cs[m] as int,
        (cs[m] as int) < es.len(),
        !spec_is_scope_node(es[cs[m] as int].node.kind),
        spec_decl_category(es[cs[m] as int].node.kind) == Some(cat),
        spec_decl_symbol(es, cs[m] as int, cat) is Some,
    ensures
        spec_syms(es, cs, i, cat).contains(spec_decl_symbol(es, cs[m] as int, cat)->0),
    decreases m,
{
    let out = spec_syms(es, cs, i, cat);
    let sym = spec_decl_symbol(es, cs[m] as int, cat)->0;
    if m == 0 {
        assert(out[0] == sym);
    } else {
        let rest = cs.subrange(1, cs.len() as int);
        assert(rest[m - 1] == cs[m]);
        lemma_declared_symbol_in_bucket(es, rest, i, m - 1, cat);
        let rest_out = spec_syms(es, rest, i, cat);
        let idx = choose|q: int| 0 <= q < rest_out.len() && rest_out[q] == sym;
        let j0 = cs[0] as int;
        let head = (if i < j0 && j0 < es.len() && !spec_is_scope_node(es[j0].node.kind) {
            (if spec_decl_category(es[j0].node.kind) == Some(cat) && spec_decl_symbol(
                es,
                j0,
                cat,
            ) is Some {
                seq![spec_decl_symbol(es, j0, cat)->0]
            } else {
                Seq::<SymbolV>::empty()
            }) + spec_syms(es, es[j0].children@, j0, cat)
        } else {
            Seq::<SymbolV>::empty()
        });
        assert(out == head + rest_out);
        assert(out[head.len() + idx] == sym);
    }
}

proof fn lemma_bucket_redecls_empty(b: Seq<SymbolV>, k0: int)
    requires
        0 <= k0,
        forall|k2: int| k0 <= k2 < b.len() ==> !dup_at(b, k2),
    ensures
        spec_bucket_redecls(b, k0) == Seq::<RedeclarationV>::empty(),
    decreases b.len() - k0,
{
    if k0 < b.len() {
        assert(!dup_at(b, k0));
        lemma_bucket_redecls_empty(b, k0 + 1);
        assert(spec_bucket_redecls(b, k0) =~= Seq::<RedeclarationV>::empty());
    }
}

proof fn lemma_bucket_redecls_single(b: Seq<SymbolV>, k: int, k0: int)
    requires
        0 <= k0 <= k < b.len(),
        dup_at(b, k),
        forall|k2: int| k0 <= k2 < b.len() && k2 != k ==> !dup_at(b, k2),
    ensures
        spec_bucket_redecls(b, k0) == seq![RedeclarationV { name: b[k].name, range: b[k].range }],
    decreases k - k0,
{
    if k0 == k {
        lemma_bucket_redecls_empty(b, k + 1);
        assert(spec_bucket_redecls(b, k0) =~= seq![
            RedeclarationV { name: b[k].name, range: b[k].range },
        ]);
    } else {
        assert(!dup_at(b, k0));
        lemma_bucket_redecls_single(b, k, k0 + 1);
        assert(spec_bucket_redecls(b, k0) =~= seq![
            RedeclarationV { name: b[k].name, range: b[k].range },
        ]);
    }
}

/// Exactly one diagnostic: when one bucket position is the only one
/// that repeats an earlier name, the bucket's diagnostics are exactly
/// one entry, named after and placed at the later declaration.
pub proof fn lemma_redeclaration_exactly_one(b: Seq<SymbolV>, m: int, k: int)
    requires
        0 <= m < k < b.len(),
        b[m].name == b[k].name,
        forall|k2: int| 0 <= k2 < b.len() && k2 != k ==> !dup_at(b, k2),
    ensures
        spec_bucket_redecls(b, 0) == seq![RedeclarationV { name: b[k].name, range: b[k].range }],
{
    assert(dup_at(b, k));
    lemma_bucket_redecls_single(b, k, 0);
}

} // verus!
