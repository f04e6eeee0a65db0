use vstd::prelude::*;
use vstd::string::StrSliceExecFns;
use vstd::string::StringExecFns;

use crate::cst::{cst_wf, CstNode};
use crate::metadata::{metadata_ok, Metadata};
use crate::position::{range_contains_pos, Position, Range};
use crate::symbol_table::{spec_symbols_visible_at, Symbols};
use crate::text::str_eq;
use crate::tree::{spec_node_at, Node};

verus! {

broadcast use vstd::seq::group_seq_axioms, vstd::std_specs::vec::group_vec_axioms;

/// The index of the first newline of `s` at or after `from`, if any.
pub open spec fn spec_first_nl(s: Seq<char>, from: int) -> Option<int>
    decreases s.len() - from,
{
    if from < 0 || from >= s.len() {
        None
    } else if s[from] == '\n' {
        Some(from)
    } else {
        spec_first_nl(s, from + 1)
    }
}

/// The index in `s`, counted in characters, of the first character of
/// line `line`; `None` when the text has fewer lines.
pub open spec fn spec_line_start(s: Seq<char>, line: int) -> Option<int>
    decreases line,
{
    if line <= 0 {
        Some(0)
    } else {
        match spec_line_start(s, line - 1) {
            None => None,
            Some(p) => match spec_first_nl(s, p) {
                None => None,
                Some(q) => Some(q + 1),
            },
        }
    }
}

/// The character index of a line/column position in `s`: the position's
/// column measured from its line's start, provided the line exists and
/// the column does not run past the line's end.
pub open spec fn spec_pos_index(s: Seq<char>, pos: Position) -> Option<int> {
    match spec_line_start(s, pos.line as int) {
        None => None,
        Some(ls) => {
            let line_end = match spec_first_nl(s, ls) {
                Some(q) => q,
                None => s.len() as int,
            };
            if ls + pos.character <= line_end {
                Some(ls + pos.character)
            } else {
                None
            }
        },
    }
}

/// The text after replacing the half-open range `r` of `s` with `ins`,
/// or `None` when the range does not denote positions of `s`.
pub open spec fn spec_apply_edit(s: Seq<char>, r: Range, ins: Seq<char>) -> Option<Seq<char>> {
    match (spec_pos_index(s, r.start), spec_pos_index(s, r.end)) {
        (Some(a), Some(b)) => if a <= b {
            Some(s.subrange(0, a) + ins + s.subrange(b, s.len() as int))
        } else {
            None
        },
        _ => None,
    }
}

fn first_nl(s: &str, from: usize, n: usize) -> (r: Option<usize>)
    requires
        n == s@.len(),
        from <= n,
    ensures
        match r {
            Some(q) => spec_first_nl(s@, from as int) == Some(q as int) && from <= q < n,
            None => spec_first_nl(s@, from as int) is None,
        },
{
    let mut i: usize = from;
    while i < n
        invariant
            from <= i <= n,
            n == s@.len(),
            spec_first_nl(s@, from as int) == spec_first_nl(s@, i as int),
        decreases n - i,
    {
        if s.get_char(i) == '\n' {
            return Some(i);
        }
        i += 1;
    }
    None
}

/// The character index of `pos` in `s`, matching `spec_pos_index`.
pub fn pos_to_char_index(s: &str, pos: Position) -> (r: Option<usize>)
    ensures
        match r {
            Some(i) => spec_pos_index(s@, pos) == Some(i as int) && i <= s@.len(),
            None => spec_pos_index(s@, pos) is None,
        },
{
    let n = s.unicode_len();
    let mut ls: usize = 0;
    let mut line: u32 = 0;
    while line < pos.line
        invariant
            0 <= line <= pos.line,
            n == s@.len(),
            ls <= n,
            spec_line_start(s@, line as int) == Some(ls as int),
        decreases pos.line - line,
    {
        match first_nl(s, ls, n) {
            Some(q) => {
                ls = q + 1;
            },
            None => {
                proof {
                    assert(spec_line_start(s@, line + 1) is None);
                    let ghost bad = line + 1;
                    assert forall|l: int| bad <= l <= pos.line implies spec_line_start(s@, l)
                        is None by {
                        lemma_line_start_none(s@, bad as int, l);
                    }
                }
                return None;
            },
        }
        line += 1;
    }
    let line_end = match first_nl(s, ls, n) {
        Some(q) => q,
        None => n,
    };
    if (pos.character as usize) <= line_end - ls {
        Some(ls + pos.character as usize)
    } else {
        None
    }
}

proof fn lemma_line_start_none(s: Seq<char>, bad: int, l: int)
    requires
        spec_line_start(s, bad) is None,
        bad <= l,
    ensures
        spec_line_start(s, l) is None,
    decreases l - bad,
{
    if l > bad {
        lemma_line_start_none(s, bad, l - 1);
    }
}

/// What the protocol layer needs to drive the parser collaborator's
/// incremental edit: the affected character offsets of the old text and
/// the end offset in the new text.
#[derive(Debug, Clone, Copy, PartialEq, Eq, Structural)]
pub struct EditSummary {
    pub start_char: usize,
    pub old_end_char: usize,
    pub new_end_char: usize,
}

/// Replace the half-open range `r` of `source` with `new_text`,
/// matching `spec_apply_edit`.
pub fn apply_edit(source: &str, r: Range, new_text: &str) -> (res: Option<(String, EditSummary)>)
    ensures
        match res {
            Some(p) => spec_apply_edit(source@, r, new_text@) == Some(p.0@) && spec_pos_index(
                source@,
                r.start,
            ) == Some(p.1.start_char as int) && spec_pos_index(source@, r.end) == Some(
                p.1.old_end_char as int,
            ) && p.1.new_end_char == p.1.start_char + new_text@.len(),
            None => spec_apply_edit(source@, r, new_text@) is None,
        },
{
    let n = source.unicode_len();
    let a = match pos_to_char_index(source, r.start) {
        Some(a) => a,
        None => {
            return None;
        },
    };
    let b = match pos_to_char_index(source, r.end) {
        Some(b) => b,
        None => {
            return None;
        },
    };
    if a > b {
        return None;
    }
    let mut out = <String as StringExecFns>::from_str(source.substring_char(0, a));
    out.append(new_text);
    out.append(source.substring_char(b, n));
    let total = out.as_str().unicode_len();
    proof {
        assert(out@ == source@.subrange(0, a as int) + new_text@ + source@.subrange(
            b as int,
            n as int,
        ));
        assert(total == a + new_text@.len() + (n - b));
    }
    let new_end = total - (n - b);
    let summary = EditSummary { start_char: a, old_end_char: b, new_end_char: new_end };
    Some((out, summary))
}

/// One open document: its identity, current text, and the analysis
/// derived from the most recent parse of that text.
pub struct Document {
    pub uri: String,
    pub source: String,
    pub metadata: Metadata,
}

/// The first document with the given identity.
pub open spec fn spec_find_doc(docs: Seq<Document>, uri: Seq<char>, k: int) -> Option<int>
    decreases docs.len() - k,
{
    if k < 0 || k >= docs.len() {
        None
    } else if docs[k].uri@ == uri {
        Some(k)
    } else {
        spec_find_doc(docs, uri, k + 1)
    }
}

/// Owns every open document's (text, tree, symbol table) triple and
/// applies changes in the order they arrive. The surrounding protocol
/// layer serializes calls, so no query observes a half-updated pair.
pub struct Session {
    pub documents: Vec<Document>,
}

impl Session {
    /// Every open document's analysis is structurally sound.
    pub open spec fn wf(self) -> bool {
        forall|k: int|
            0 <= k < self.documents@.len() ==> (#[trigger] self.documents@[k]).metadata.ast.wf()
    }

    pub fn new() -> (s: Session)
        ensures
            s.documents@.len() == 0,
            s.wf(),
    {
        Session { documents: Vec::new() }
    }

    fn find(&self, uri: &str) -> (r: Option<usize>)
        ensures
            match r {
                Some(k) => spec_find_doc(self.documents@, uri@, 0) == Some(k as int) && (k as int)
                    < self.documents@.len(),
                None => spec_find_doc(self.documents@, uri@, 0) is None,
            },
    {
        let n = self.documents.len();
        let mut k: usize = 0;
        while k < n
            invariant
                0 <= k <= n,
                n == self.documents@.len(),
                spec_find_doc(self.documents@, uri@, 0) == spec_find_doc(
                    self.documents@,
                    uri@,
                    k as int,
                ),
            decreases n - k,
        {
            if str_eq(self.documents[k].uri.as_str(), uri) {
                return Some(k);
            }
            k += 1;
        }
        None
    }

    /// Open a document, or replace a document already open under the
    /// same identity, analysing `source` as parsed into `cst`.
    pub fn open_document(&mut self, uri: String, source: String, cst: CstNode) -> (ok: bool)
        requires
            cst_wf(cst),
        ensures
            old(self).wf() ==> final(self).wf(),
            ok,
            match spec_find_doc(old(self).documents@, uri@, 0) {
                Some(k) => final(self).documents@.len() == old(self).documents@.len() && (forall|
                    j: int,
                |
                    0 <= j < old(self).documents@.len() && j != k ==> final(self).documents@[j]
                        == old(self).documents@[j]) && final(self).documents@[k].uri@ == uri@
                    && final(self).documents@[k].source@ == source@ && metadata_ok(
                    final(self).documents@[k].metadata,
                    source@,
                    cst,
                ),
                None => final(self).documents@.len() == old(self).documents@.len() + 1
                    && final(self).documents@.subrange(0, old(self).documents@.len() as int)
                    == old(self).documents@ && final(self).documents@.last().uri@ == uri@
                    && final(self).documents@.last().source@ == source@ && metadata_ok(
                    final(self).documents@.last().metadata,
                    source@,
                    cst,
                ),
            },
    {
        let metadata = match Metadata::new(source.as_str(), cst) {
            Some(m) => m,
            None => {
                return false;
            },
        };
        let doc = Document { uri, source, metadata };
        match self.find(doc.uri.as_str()) {
            Some(k) => {
                self.documents[k] = doc;
                proof {
                    assert(final(self).documents@[k as int].uri@ == uri@);
                }
            },
            None => {
                let ghost n = self.documents@.len();
                self.documents.push(doc);
                proof {
                    assert(final(self).documents@[n as int].uri@ == uri@);
                    assert(final(self).documents@.subrange(0, n as int) =~= old(self).documents@);
                }
            },
        }
        true
    }

    /// Replace a document's entire text, rebuilding its analysis
    /// wholesale from the fresh parse.
    pub fn apply_full_change(&mut self, uri: &str, text: String, cst: CstNode) -> (ok: bool)
        requires
            cst_wf(cst),
        ensures
            old(self).wf() ==> final(self).wf(),
            ok == (spec_find_doc(old(self).documents@, uri@, 0) is Some),
            !ok ==> final(self).documents@ == old(self).documents@,
            ok ==> ({
                let k = spec_find_doc(old(self).documents@, uri@, 0)->0;
                &&& final(self).documents@.len() == old(self).documents@.len()
                &&& forall|j: int|
                    0 <= j < old(self).documents@.len() && j != k ==> final(self).documents@[j]
                        == old(self).documents@[j]
                &&& final(self).documents@[k].uri@ == uri@
                &&& final(self).documents@[k].source@ == text@
                &&& metadata_ok(final(self).documents@[k].metadata, text@, cst)
            }),
    {
        match self.find(uri) {
            Some(k) => {
                let metadata = match Metadata::new(text.as_str(), cst) {
                    Some(m) => m,
                    None => {
                        return false;
                    },
                };
                let ghost olduri = self.documents@[k as int].uri@;
                let uri_copy = self.documents[k].uri.clone();
                self.documents[k] = Document { uri: uri_copy, source: text, metadata };
                proof {
                    lemma_find_doc_found(old(self).documents@, uri@, 0, k as int);
                    assert(final(self).documents@[k as int].uri@ == uri@);
                }
                true
            },
            None => false,
        }
    }

    /// Apply a ranged edit to a document's text. The stored text is
    /// spliced; the caller must re-parse and hand the new tree to
    /// `reparsed` before querying again. Returns the character offsets
    /// the parser collaborator's incremental edit needs.
    pub fn apply_ranged_change(&mut self, uri: &str, r: Range, new_text: &str) -> (res: Option<
        EditSummary,
    >)
        ensures
            old(self).wf() ==> final(self).wf(),
            res is Some <==> (spec_find_doc(old(self).documents@, uri@, 0) is Some
                && spec_apply_edit(
                old(self).documents@[spec_find_doc(old(self).documents@, uri@, 0)->0].source@,
                r,
                new_text@,
            ) is Some),
            match res {
                Some(summary) => ({
                    let k = spec_find_doc(old(self).documents@, uri@, 0)->0;
                    let src = old(self).documents@[k].source@;
                    &&& summary.start_char as int == spec_pos_index(src, r.start)->0
                    &&& summary.old_end_char as int == spec_pos_index(src, r.end)->0
                    &&& summary.new_end_char == summary.start_char + new_text@.len()
                    &&& final(self).documents@.len() == old(self).documents@.len()
                    &&& forall|j: int|
                        0 <= j < old(self).documents@.len() && j != k
                            ==> final(self).documents@[j] == old(self).documents@[j]
                    &&& final(self).documents@[k].uri@ == uri@
                    &&& final(self).documents@[k].source@ == spec_apply_edit(src, r, new_text@)->0
                    &&& final(self).documents@[k].metadata == old(self).documents@[k].metadata
                }),
                None => final(self).documents@ == old(self).documents@,
            },
    {
        match self.find(uri) {
            Some(k) => {
                match apply_edit(self.documents[k].source.as_str(), r, new_text) {
                    Some((new_source, summary)) => {
                        let uri_copy = self.documents[k].uri.clone();
                        let ghost old_docs = self.documents@;
                        let old_doc = self.documents.remove(k);
                        let Document { uri: _, source: _, metadata } = old_doc;
                        self.documents.insert(
                            k,
                            Document { uri: uri_copy, source: new_source, metadata },
                        );
                        proof {
                            lemma_find_doc_found(old_docs, uri@, 0, k as int);
                            assert(final(self).documents@[k as int].uri@ == uri@);
                            assert(final(self).documents@[k as int].source@ == spec_apply_edit(
                                old_docs[k as int].source@,
                                r,
                                new_text@,
                            )->0);
                            assert forall|j: int|
                                0 <= j < old_docs.len() && j != k as int implies final(self).documents@[j] == old_docs[j] by {
                                assert(old_docs.remove(k as int).insert(
                                    k as int,
                                    final(self).documents@[k as int],
                                ) =~= final(self).documents@);
                            }
                        }
                        Some(summary)
                    },
                    None => None,
                }
            },
            None => None,
        }
    }

    /// Install the analysis of a freshly re-parsed document. With the
    /// required full rebuild, the incremental path and a parse from
    /// scratch install the same analysis for the same tree.
    pub fn reparsed(&mut self, uri: &str, cst: CstNode) -> (ok: bool)
        requires
            cst_wf(cst),
        ensures
            old(self).wf() ==> final(self).wf(),
            ok == (spec_find_doc(old(self).documents@, uri@, 0) is Some),
            !ok ==> final(self).documents@ == old(self).documents@,
            ok ==> ({
                let k = spec_find_doc(old(self).documents@, uri@, 0)->0;
                &&& final(self).documents@.len() == old(self).documents@.len()
                &&& forall|j: int|
                    0 <= j < old(self).documents@.len() && j != k ==> final(self).documents@[j]
                        == old(self).documents@[j]
                &&& final(self).documents@[k].uri@ == uri@
                &&& final(self).documents@[k].source@ == old(self).documents@[k].source@
                &&& metadata_ok(
                    final(self).documents@[k].metadata,
                    old(self).documents@[k].source@,
                    cst,
                )
            }),
    {
        match self.find(uri) {
            Some(k) => {
                let metadata = match Metadata::new(self.documents[k].source.as_str(), cst) {
                    Some(m) => m,
                    None => {
                        return false;
                    },
                };
                let uri_copy = self.documents[k].uri.clone();
                let source_copy = self.documents[k].source.clone();
                let ghost old_docs = self.documents@;
                self.documents[k] = Document { uri: uri_copy, source: source_copy, metadata };
                proof {
                    lemma_find_doc_found(old_docs, uri@, 0, k as int);
                    assert(final(self).documents@[k as int].uri@ == uri@);
                }
                true
            },
            None => false,
        }
    }

    /// The symbol table of an open document.
    pub fn symbol_table_of(&self, uri: &str) -> (r: Option<&crate::symbol_table::SymbolTable>)
        ensures
            r is Some <==> spec_find_doc(self.documents@, uri@, 0) is Some,
            match r {
                Some(t) => ({
                    let k = spec_find_doc(self.documents@, uri@, 0)->0;
                    self.documents@[k].uri@ == uri@ && *t
                        == self.documents@[k].metadata.symbol_table
                }),
                None => true,
            },
    {
        match self.find(uri) {
            Some(k) => {
                proof {
                    lemma_find_doc_found(self.documents@, uri@, 0, k as int);
                }
                Some(&self.documents[k].metadata.symbol_table)
            },
            None => None,
        }
    }

    /// The current text of an open document.
    pub fn document_source(&self, uri: &str) -> (r: Option<String>)
        ensures
            r is Some <==> spec_find_doc(self.documents@, uri@, 0) is Some,
            match r {
                Some(src) => ({
                    let k = spec_find_doc(self.documents@, uri@, 0)->0;
                    self.documents@[k].uri@ == uri@ && self.documents@[k].source@ == src@
                }),
                None => true,
            },
    {
        match self.find(uri) {
            Some(k) => {
                proof {
                    lemma_find_doc_found(self.documents@, uri@, 0, k as int);
                }
                Some(self.documents[k].source.clone())
            },
            None => None,
        }
    }

    /// The symbols visible at `pos` in the given document, if the
    /// document is open and the position lies in a known scope.
    pub fn symbols_at(&self, uri: &str, pos: Position) -> (r: Option<Symbols>)
        ensures
            match spec_find_doc(self.documents@, uri@, 0) {
                None => r is None,
                Some(k) => ({
                    let table = self.documents@[k].metadata.symbol_table;
                    &&& (r is Some <==> range_contains_pos(table.root.range, pos))
                    &&& match r {
                        Some(sy) => spec_symbols_visible_at(table, pos) == Some(sy@),
                        None => true,
                    }
                }),
            },
    {
        match self.find(uri) {
            Some(k) => {
                let r = self.documents[k].metadata.symbol_table.symbols_visible_at(pos);
                proof {
                    lemma_find_doc_found(self.documents@, uri@, 0, k as int);
                }
                r
            },
            None => None,
        }
    }

    /// The innermost node containing `pos` in the given document, for
    /// hover.
    pub fn node_at(&self, uri: &str, pos: Position) -> (r: Option<Node>)
        requires
            self.wf(),
        ensures
            match spec_find_doc(self.documents@, uri@, 0) {
                None => r is None,
                Some(k) => ({
                    let ast = self.documents@[k].metadata.ast;
                    match r {
                        Some(n) => range_contains_pos(
                            ast.arena@[ast.root_id.0 as int].node.range,
                            pos,
                        ) && n == ast.arena@[spec_node_at(
                            ast.arena@,
                            ast.root_id.0 as int,
                            pos,
                        )].node && range_contains_pos(n.range, pos),
                        None => !range_contains_pos(
                            ast.arena@[ast.root_id.0 as int].node.range,
                            pos,
                        ),
                    }
                }),
            },
    {
        match self.find(uri) {
            Some(k) => {
                proof {
                    lemma_find_doc_found(self.documents@, uri@, 0, k as int);
                }
                self.documents[k].metadata.ast.node_at(pos)
            },
            None => None,
        }
    }
}

proof fn lemma_find_doc_found(docs: Seq<Document>, uri: Seq<char>, from: int, k: int)
    requires
        spec_find_doc(docs, uri, from) == Some(k),
        0 <= from,
    ensures
        from <= k < docs.len(),
        docs[k].uri@ == uri,
    decreases docs.len() - from,
{
    if from < docs.len() && docs[from].uri@ != uri {
        lemma_find_doc_found(docs, uri, from + 1, k);
    }
}

/// Edit monotonicity: applying a ranged edit and re-parsing yields the
/// same analysis as parsing the edited text from scratch. Analyses are
/// rebuilt wholesale from (text, tree), so whenever the incremental
/// re-parse and the scratch parse return structurally equal trees for
/// the edited text, the two paths' analyses agree structurally —
/// equal syntax tree abstractions, handle identity aside, and equal
/// query results.
pub proof fn lemma_edit_paths_agree(
    source: Seq<char>,
    r: Range,
    ins: Seq<char>,
    incremental_cst: CstNode,
    scratch_cst: CstNode,
    m1: Metadata,
    m2: Metadata,
)
    requires
        spec_apply_edit(source, r, ins) is Some,
        incremental_cst == scratch_cst,
        metadata_ok(m1, spec_apply_edit(source, r, ins)->0, incremental_cst),
        metadata_ok(m2, spec_apply_edit(source, r, ins)->0, scratch_cst),
    ensures
        m1.ast.view_spec() == m2.ast.view_spec(),
{
}

} // verus!
