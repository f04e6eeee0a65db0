use vstd::prelude::*;

use crate::position::Position;
use crate::symbol_table::{SymbolTableQuery, Symbols, SymbolsV};

verus! {

broadcast use vstd::seq::group_seq_axioms, vstd::std_specs::vec::group_vec_axioms;

/// The flavour a completion entry is shown as.
#[derive(Debug, Clone, Copy, PartialEq, Eq)]
pub enum CompletionItemKind {
    TypeParameter,
    Constant,
    Variable,
    Function,
}

/// One completion entry: a label and its flavour. The protocol layer
/// turns these into its own wire representation.
#[derive(Debug)]
pub struct CompletionItem {
    pub label: String,
    pub kind: CompletionItemKind,
}

/// The mathematical abstraction of a completion entry.
pub struct CompletionItemV {
    pub label: Seq<char>,
    pub kind: CompletionItemKind,
}

impl View for CompletionItem {
    type V = CompletionItemV;

    open spec fn view(&self) -> CompletionItemV {
        CompletionItemV { label: self.label@, kind: self.kind }
    }
}

pub open spec fn items_view(v: Seq<CompletionItem>) -> Seq<CompletionItemV> {
    v.map_values(|x: CompletionItem| x@)
}

pub open spec fn labels_as_items(labels: Seq<Seq<char>>, kind: CompletionItemKind) -> Seq<
    CompletionItemV,
> {
    labels.map_values(|l: Seq<char>| CompletionItemV { label: l, kind })
}

/// The completion list for a set of visible symbols: the four buckets
/// flattened into labeled entries, types first, then constants,
/// variables and functions.
pub open spec fn spec_completion_list(sy: SymbolsV) -> Seq<CompletionItemV> {
    labels_as_items(sy.types.map_values(|s: crate::symbol_table::SymbolV| s.name), CompletionItemKind::TypeParameter)
        + labels_as_items(sy.constants.map_values(|s: crate::symbol_table::SymbolV| s.name), CompletionItemKind::Constant)
        + labels_as_items(sy.variables.map_values(|s: crate::symbol_table::SymbolV| s.name), CompletionItemKind::Variable)
        + labels_as_items(sy.functions.map_values(|s: crate::symbol_table::SymbolV| s.name), CompletionItemKind::Function)
}

/// Accumulates completion entries bucket by bucket.
pub struct CompletionBuilder {
    pub items: Vec<CompletionItem>,
}

impl CompletionBuilder {
    pub fn new() -> (b: CompletionBuilder)
        ensures
            items_view(b.items@) == Seq::<CompletionItemV>::empty(),
    {
        let b = CompletionBuilder { items: Vec::new() };
        proof {
            assert(items_view(b.items@) =~= Seq::<CompletionItemV>::empty());
        }
        b
    }

    /// Add one entry per label, all of the given flavour.
    pub fn add(self, new_items: &[String], completion_type: CompletionItemKind) -> (b:
        CompletionBuilder)
        ensures
            items_view(b.items@) == items_view(self.items@) + labels_as_items(
                new_items@.map_values(|l: String| l@),
                completion_type,
            ),
    {
        let mut items = self.items;
        let n = new_items.len();
        let ghost base = items@;
        let mut k: usize = 0;
        while k < n
            invariant
                0 <= k <= n,
                n == new_items@.len(),
                items_view(items@) == items_view(base) + labels_as_items(
                    new_items@.subrange(0, k as int).map_values(|l: String| l@),
                    completion_type,
                ),
            decreases n - k,
        {
            let ghost pre = items@;
            let label = new_items[k].clone();
            items.push(CompletionItem { label, kind: completion_type });
            proof {
                assert(items_view(items@) =~= items_view(pre).push(
                    CompletionItemV { label: new_items@[k as int]@, kind: completion_type },
                ));
                assert(labels_as_items(
                    new_items@.subrange(0, k + 1).map_values(|l: String| l@),
                    completion_type,
                ) =~= labels_as_items(
                    new_items@.subrange(0, k as int).map_values(|l: String| l@),
                    completion_type,
                ).push(CompletionItemV { label: new_items@[k as int]@, kind: completion_type }));
                assert(items_view(items@) =~= items_view(base) + labels_as_items(
                    new_items@.subrange(0, k + 1).map_values(|l: String| l@),
                    completion_type,
                ));
            }
            k += 1;
        }
        proof {
            assert(new_items@.subrange(0, n as int) =~= new_items@);
        }
        CompletionBuilder { items }
    }

    pub fn build(self) -> (r: Vec<CompletionItem>)
        ensures
            r@ == self.items@,
    {
        self.items
    }
}

fn names_of(bucket: &Vec<crate::symbol_table::Symbol>) -> (r: Vec<String>)
    ensures
        r@.map_values(|l: String| l@) == crate::symbol_table::syms_view(bucket@).map_values(
            |s: crate::symbol_table::SymbolV| s.name,
        ),
{
    let n = bucket.len();
    let mut r: Vec<String> = Vec::new();
    let mut k: usize = 0;
    while k < n
        invariant
            0 <= k <= n,
            n == bucket@.len(),
            r@.map_values(|l: String| l@) == crate::symbol_table::syms_view(
                bucket@.subrange(0, k as int),
            ).map_values(|s: crate::symbol_table::SymbolV| s.name),
        decreases n - k,
    {
        let ghost pre = r@;
        r.push(bucket[k].get_name());
        proof {
            assert(r@.map_values(|l: String| l@) =~= pre.map_values(|l: String| l@).push(
                bucket@[k as int]@.name,
            ));
            assert(crate::symbol_table::syms_view(bucket@.subrange(0, k + 1)).map_values(
                |s: crate::symbol_table::SymbolV| s.name,
            ) =~= crate::symbol_table::syms_view(bucket@.subrange(0, k as int)).map_values(
                |s: crate::symbol_table::SymbolV| s.name,
            ).push(bucket@[k as int]@.name));
        }
        k += 1;
    }
    proof {
        assert(bucket@.subrange(0, n as int) =~= bucket@);
    }
    r
}

/// The completion list visible at a position, or nothing when the
/// position lies in no known scope.
pub fn get_list<Q: SymbolTableQuery>(position: Position, query: &Q) -> (r: Option<
    Vec<CompletionItem>,
>)
    ensures
        match r {
            Some(items) => match query.spec_symbols_at(position) {
                Some(sy) => items_view(items@) == spec_completion_list(sy),
                None => false,
            },
            None => query.spec_symbols_at(position) is None,
        },
{
    let symbols: Symbols = match query.get_symbols_at_pos(position) {
        Some(sy) => sy,
        None => {
            return None;
        },
    };
    let type_names = names_of(&symbols.types);
    let constant_names = names_of(&symbols.constants);
    let variable_names = names_of(&symbols.variables);
    let function_names = names_of(&symbols.functions);
    let items = CompletionBuilder::new()
        .add(type_names.as_slice(), CompletionItemKind::TypeParameter)
        .add(constant_names.as_slice(), CompletionItemKind::Constant)
        .add(variable_names.as_slice(), CompletionItemKind::Variable)
        .add(function_names.as_slice(), CompletionItemKind::Function)
        .build();
    proof {
        assert(Seq::<CompletionItemV>::empty() + labels_as_items(
            type_names@.map_values(|l: String| l@),
            CompletionItemKind::TypeParameter,
        ) =~= labels_as_items(
            type_names@.map_values(|l: String| l@),
            CompletionItemKind::TypeParameter,
        ));
    }
    Some(items)
}

} // verus!
