use vstd::prelude::*;

use crate::position::{pos_le, range_contains_range, range_wf, Range};
use crate::text::str_eq;

verus! {

broadcast use vstd::seq::group_seq_axioms, vstd::std_specs::vec::group_vec_axioms;

/// One node of the concrete syntax tree handed over by the grammar-driven
/// parser collaborator: a grammar kind tag, the source range and verbatim
/// text it spans, whether the grammar counts it as a named rule, the
/// structural role (field name) its parent gives it, and its children in
/// source order.
#[derive(Debug)]
pub struct CstNode {
    pub kind: String,
    pub named: bool,
    pub field: Option<String>,
    pub range: Range,
    pub text: String,
    pub children: Vec<CstNode>,
}

/// Well-formedness of a concrete syntax tree, as the parser collaborator
/// guarantees it: every range is ordered, every child's range lies
/// inside its parent's range, and siblings stand left-to-right in
/// source order (each child ends at or before the next one starts).
pub open spec fn cst_wf(c: CstNode) -> bool
    decreases c,
{
    range_wf(c.range) && cst_children_wf(c.range, c.children@)
}

pub open spec fn cst_children_wf(parent: Range, cs: Seq<CstNode>) -> bool
    decreases cs,
{
    cs.len() == 0 || {
        &&& range_contains_range(parent, cs[0].range)
        &&& cst_wf(cs[0])
        &&& (cs.len() == 1 || pos_le(cs[0].range.end, cs[1].range.start))
        &&& cst_children_wf(parent, cs.subrange(1, cs.len() as int))
    }
}

pub proof fn lemma_cst_children_wf_index(parent: Range, cs: Seq<CstNode>, i: int)
    requires
        cst_children_wf(parent, cs),
        0 <= i < cs.len(),
    ensures
        range_contains_range(parent, cs[i].range),
        cst_wf(cs[i]),
    decreases i,
{
    if i > 0 {
        let rest = cs.subrange(1, cs.len() as int);
        lemma_cst_children_wf_index(parent, rest, i - 1);
        assert(rest[i - 1] == cs[i]);
    }
}

/// The first child carrying the structural role `name`, if any.
pub open spec fn spec_child_by_field(cs: Seq<CstNode>, name: Seq<char>) -> Option<CstNode>
    decreases cs.len(),
{
    if cs.len() == 0 {
        None
    } else if cs[0].field is Some && cs[0].field->0@ == name {
        Some(cs[0])
    } else {
        spec_child_by_field(cs.subrange(1, cs.len() as int), name)
    }
}

/// The first child the grammar counts as a named rule, if any.
pub open spec fn spec_first_named(cs: Seq<CstNode>) -> Option<CstNode>
    decreases cs.len(),
{
    if cs.len() == 0 {
        None
    } else if cs[0].named {
        Some(cs[0])
    } else {
        spec_first_named(cs.subrange(1, cs.len() as int))
    }
}

impl CstNode {
    /// The first child whose structural role is `name`, as the parser
    /// collaborator's field lookup reports it.
    pub fn child_by_field_name(&self, name: &str) -> (r: Option<&CstNode>)
        ensures
            match r {
                Some(c) => spec_child_by_field(self.children@, name@) == Some(*c),
                None => spec_child_by_field(self.children@, name@) is None,
            },
    {
        let n = self.children.len();
        proof {
            assert(self.children@.subrange(0, n as int) =~= self.children@);
        }
        let mut i: usize = 0;
        while i < n
            invariant
                0 <= i <= n,
                n == self.children@.len(),
                spec_child_by_field(self.children@, name@) == spec_child_by_field(
                    self.children@.subrange(i as int, n as int),
                    name@,
                ),
            decreases n - i,
        {
            let c = &self.children[i];
            proof {
                let cur = self.children@.subrange(i as int, n as int);
                assert(cur[0] == self.children@[i as int]);
                assert(cur.subrange(1, cur.len() as int) =~= self.children@.subrange(
                    i + 1,
                    n as int,
                ));
            }
            let matches_field = match &c.field {
                Some(f) => str_eq(f.as_str(), name),
                None => false,
            };
            if matches_field {
                return Some(c);
            }
            i += 1;
        }
        proof {
            assert(self.children@.subrange(n as int, n as int) =~= Seq::<CstNode>::empty());
        }
        None
    }

    /// The first named child, as the parser collaborator's accessor reports it.
    pub fn first_named_child(&self) -> (r: Option<&CstNode>)
        ensures
            match r {
                Some(c) => spec_first_named(self.children@) == Some(*c),
                None => spec_first_named(self.children@) is None,
            },
    {
        let n = self.children.len();
        proof {
            assert(self.children@.subrange(0, n as int) =~= self.children@);
        }
        let mut i: usize = 0;
        while i < n
            invariant
                0 <= i <= n,
                n == self.children@.len(),
                spec_first_named(self.children@) == spec_first_named(
                    self.children@.subrange(i as int, n as int),
                ),
            decreases n - i,
        {
            let c = &self.children[i];
            proof {
                let cur = self.children@.subrange(i as int, n as int);
                assert(cur[0] == self.children@[i as int]);
                assert(cur.subrange(1, cur.len() as int) =~= self.children@.subrange(
                    i + 1,
                    n as int,
                ));
            }
            if c.named {
                return Some(c);
            }
            i += 1;
        }
        proof {
            assert(self.children@.subrange(n as int, n as int) =~= Seq::<CstNode>::empty());
        }
        None
    }
}


/// A child found by field lookup is itself well formed and contained in
/// the parent's range.
pub proof fn lemma_child_by_field_wf(parent: Range, cs: Seq<CstNode>, name: Seq<char>)
    requires
        cst_children_wf(parent, cs),
        spec_child_by_field(cs, name) is Some,
    ensures
        cst_wf(spec_child_by_field(cs, name)->0),
        range_contains_range(parent, spec_child_by_field(cs, name)->0.range),
    decreases cs.len(),
{
    if cs.len() > 0 {
        if cs[0].field is Some && cs[0].field->0@ == name {
        } else {
            lemma_child_by_field_wf(parent, cs.subrange(1, cs.len() as int), name);
        }
    }
}

/// A first named child is itself well formed and contained in the
/// parent's range.
pub proof fn lemma_first_named_wf(parent: Range, cs: Seq<CstNode>)
    requires
        cst_children_wf(parent, cs),
        spec_first_named(cs) is Some,
    ensures
        cst_wf(spec_first_named(cs)->0),
        range_contains_range(parent, spec_first_named(cs)->0.range),
    decreases cs.len(),
{
    if cs.len() > 0 {
        if cs[0].named {
        } else {
            lemma_first_named_wf(parent, cs.subrange(1, cs.len() as int));
        }
    }
}

} // verus!
