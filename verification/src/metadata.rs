use vstd::prelude::*;

use crate::cst::{cst_wf, CstNode};
use crate::symbol_table::{redecls_view, scope_ok, spec_scope_redecls, SymbolTable};
use crate::translator::spec_translate;
use crate::tree::Ast;

verus! {

/// The bundle the protocol layer works with: one document's abstract
/// syntax tree and the symbol table derived from it, always built and
/// replaced together.
pub struct Metadata {
    pub ast: Ast,
    pub symbol_table: SymbolTable,
}

/// `m` is exactly the analysis of `source` as parsed into `cst`: its
/// tree is the translation of the concrete tree, and its symbol table
/// is derived from that tree.
pub open spec fn metadata_ok(m: Metadata, source: Seq<char>, cst: CstNode) -> bool {
    &&& m.ast.wf()
    &&& m.ast.view_spec() == spec_translate(source, cst)
    &&& scope_ok(m.ast.arena@, m.symbol_table.root, m.ast.root_id.0 as int)
    &&& redecls_view(m.symbol_table.diagnostics@) == spec_scope_redecls(m.symbol_table.root)
}

impl Metadata {
    /// The single entry point bundling translation and scope
    /// resolution for one document.
    pub fn new(source_code: &str, cst: CstNode) -> (r: Option<Metadata>)
        requires
            cst_wf(cst),
        ensures
            match r {
                Some(m) => metadata_ok(m, source_code@, cst),
                None => false,
            },
    {
        let ast = match Ast::new(source_code, cst) {
            Some(a) => a,
            None => {
                return None;
            },
        };
        let symbol_table = SymbolTable::new(&ast);
        Some(Metadata { ast, symbol_table })
    }
}

} // verus!
