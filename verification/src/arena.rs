use vstd::prelude::*;

use crate::position::{range_contains_range, range_wf, Position, Range};
use crate::tree::{Node, NodeKind};

verus! {

broadcast use vstd::seq::group_seq_axioms, vstd::std_specs::vec::group_vec_axioms;

/// A stable, opaque handle to a node held by an `Arena`.
#[derive(Debug, Clone, Copy, PartialEq, Eq, Hash, Structural)]
pub struct NodeId(pub usize);

/// One slot of the arena: the node itself plus its links. Children are
/// kept in source order; every child index is strictly greater than its
/// parent's index, so the arena is laid out in creation (pre)order.
#[derive(Debug, PartialEq)]
pub struct Entry {
    pub node: Node,
    pub parent: Option<usize>,
    pub children: Vec<usize>,
}

/// The flat node store: a table of entries addressed by index, owning
/// every abstract syntax tree node.
#[derive(Debug, PartialEq)]
pub struct Arena {
    pub entries: Vec<Entry>,
}

impl View for Arena {
    type V = Seq<Entry>;

    open spec fn view(&self) -> Seq<Entry> {
        self.entries@
    }
}

/// Every child index points past its parent and stays inside the table.
pub open spec fn entries_closed(es: Seq<Entry>) -> bool {
    forall|j: int, k: int|
        0 <= j < es.len() && 0 <= k < es[j].children@.len() ==> j < (
        #[trigger] es[j].children@[k]) as int && (es[j].children@[k] as int) < es.len()
}

/// Structural well-formedness of the arena: closed child links, parent
/// back-links consistent with child lists, ordered ranges, and every
/// child's range contained in its parent's range.
pub open spec fn arena_wf(es: Seq<Entry>) -> bool {
    &&& entries_closed(es)
    &&& forall|j: int, k: int|
        0 <= j < es.len() && 0 <= k < es[j].children@.len() ==> es[(
        #[trigger] es[j].children@[k]) as int].parent is Some
        && es[es[j].children@[k] as int].parent->0 == j
    &&& forall|j: int| 0 <= j < es.len() ==> range_wf(#[trigger] es[j].node.range)
    &&& forall|j: int, k: int|
        0 <= j < es.len() && 0 <= k < es[j].children@.len() ==> range_contains_range(
            es[j].node.range,
            es[(#[trigger] es[j].children@[k]) as int].node.range,
        )
}

/// The node and child list of slot `j` agree between `e1` and `e2`
/// (the parent link is allowed to differ).
pub open spec fn entry_same_shape(e1: Seq<Entry>, e2: Seq<Entry>, j: int) -> bool {
    e2[j].node == e1[j].node && e2[j].children@ == e1[j].children@
}

/// The tree-shaped abstraction of one arena node: its kind, range and
/// text together with the abstractions of its children, in order.
pub struct AstView {
    pub kind: NodeKind,
    pub range: Range,
    pub content: Seq<char>,
    pub children: Seq<AstView>,
}

pub open spec fn empty_view() -> AstView {
    AstView {
        kind: NodeKind::Error,
        range: Range {
            start: Position { line: 0, character: 0 },
            end: Position { line: 0, character: 0 },
        },
        content: Seq::<char>::empty(),
        children: Seq::<AstView>::empty(),
    }
}

/// The abstraction of the subtree rooted at slot `i`.
pub open spec fn view_at(es: Seq<Entry>, i: int) -> AstView
    decreases es.len() - i, 1int, 0int,
{
    if 0 <= i < es.len() {
        AstView {
            kind: es[i].node.kind,
            range: es[i].node.range,
            content: es[i].node.content@,
            children: child_views(es, es[i].children@, i),
        }
    } else {
        empty_view()
    }
}

/// The abstractions of the slots listed in `cs`, all of which must lie
/// strictly between `i` and the end of the table to be meaningful.
pub open spec fn child_views(es: Seq<Entry>, cs: Seq<usize>, i: int) -> Seq<AstView>
    decreases es.len() - i, 0int, cs.len(),
{
    if cs.len() == 0 {
        Seq::<AstView>::empty()
    } else {
        let j = cs[0] as int;
        (if i < j < es.len() {
            seq![view_at(es, j)]
        } else {
            seq![empty_view()]
        }) + child_views(es, cs.subrange(1, cs.len() as int), i)
    }
}

/// A subtree's abstraction does not change when the table grows at the
/// end or when slots before the subtree's root change, as long as every
/// slot from the root onward keeps its node and child list.
pub proof fn lemma_view_at_frame(e1: Seq<Entry>, e2: Seq<Entry>, i: int)
    requires
        entries_closed(e1),
        0 <= i < e1.len(),
        e1.len() <= e2.len(),
        forall|j: int| i <= j < e1.len() ==> entry_same_shape(e1, e2, j),
    ensures
        view_at(e1, i) == view_at(e2, i),
    decreases e1.len() - i, 1int, 0int,
{
    assert(entry_same_shape(e1, e2, i));
    lemma_child_views_frame(e1, e2, e1[i].children@, i);
    assert(view_at(e1, i) == view_at(e2, i));
}

pub proof fn lemma_child_views_frame(e1: Seq<Entry>, e2: Seq<Entry>, cs: Seq<usize>, i: int)
    requires
        entries_closed(e1),
        0 <= i,
        e1.len() <= e2.len(),
        forall|k: int|
            0 <= k < cs.len() ==> i < (#[trigger] cs[k]) as int && (cs[k] as int) < e1.len(),
        forall|j: int| i < j < e1.len() ==> entry_same_shape(e1, e2, j),
    ensures
        child_views(e1, cs, i) == child_views(e2, cs, i),
    decreases e1.len() - i, 0int, cs.len(),
{
    if cs.len() > 0 {
        let j = cs[0] as int;
        assert(i < j < e1.len());
        lemma_view_at_frame(e1, e2, j);
        lemma_child_views_frame(e1, e2, cs.subrange(1, cs.len() as int), i);
        assert(child_views(e1, cs, i) == child_views(e2, cs, i));
    }
}

/// Appending one more child id at the end of a child list appends that
/// child's abstraction at the end of the abstraction list.
pub proof fn lemma_child_views_push(es: Seq<Entry>, cs: Seq<usize>, i: int, j: usize)
    requires
        i < j as int,
        (j as int) < es.len(),
    ensures
        child_views(es, cs.push(j), i) == child_views(es, cs, i) + seq![view_at(es, j as int)],
    decreases cs.len(),
{
    reveal_with_fuel(child_views, 3);
    let pushed = cs.push(j);
    if cs.len() == 0 {
        assert(pushed[0] == j);
        assert(pushed.subrange(1, pushed.len() as int) =~= Seq::<usize>::empty());
        assert(child_views(es, cs.push(j), i) =~= child_views(es, cs, i) + seq![
            view_at(es, j as int),
        ]);
    } else {
        assert(pushed[0] == cs[0]);
        assert(pushed.subrange(1, pushed.len() as int) =~= cs.subrange(1, cs.len() as int).push(j));
        lemma_child_views_push(es, cs.subrange(1, cs.len() as int), i, j);
        assert(child_views(es, cs.push(j), i) =~= child_views(es, cs, i) + seq![
            view_at(es, j as int),
        ]);
    }
}

impl Arena {
    /// A fresh, empty arena.
    pub fn new() -> (a: Arena)
        ensures
            a@ == Seq::<Entry>::empty(),
            arena_wf(a@),
    {
        Arena { entries: Vec::new() }
    }

    pub fn len(&self) -> (n: usize)
        ensures
            n == self@.len(),
    {
        self.entries.len()
    }

    /// Store a new node, without links yet, and hand back its id.
    pub fn new_node(&mut self, node: Node) -> (id: NodeId)
        requires
            arena_wf(old(self)@),
            range_wf(node.range),
        ensures
            arena_wf(final(self)@),
            id.0 == old(self)@.len(),
            final(self)@.len() == old(self)@.len() + 1,
            final(self)@.subrange(0, old(self)@.len() as int) == old(self)@,
            final(self)@[id.0 as int].node == node,
            final(self)@[id.0 as int].parent is None,
            final(self)@[id.0 as int].children@ == Seq::<usize>::empty(),
    {
        let id = self.entries.len();
        self.entries.push(Entry { node, parent: None, children: Vec::new() });
        proof {
            assert(final(self)@.subrange(0, old(self)@.len() as int) =~= old(self)@);
            assert forall|j: int| 0 <= j < final(self)@.len() implies range_wf(
                #[trigger] final(self)@[j].node.range,
            ) by {
                if j < old(self)@.len() {
                    assert(final(self)@[j] == old(self)@[j]);
                }
            }
            assert(arena_wf(final(self)@));
        }
        NodeId(id)
    }

    /// Link `child` as the last child of `parent`. The child must not
    /// have a parent yet, must come after `parent` in the table, and its
    /// range must lie inside the parent's range.
    pub fn append(&mut self, parent: NodeId, child: NodeId)
        requires
            arena_wf(old(self)@),
            parent.0 < child.0 < old(self)@.len(),
            old(self)@[child.0 as int].parent is None,
            range_contains_range(
                old(self)@[parent.0 as int].node.range,
                old(self)@[child.0 as int].node.range,
            ),
        ensures
            arena_wf(final(self)@),
            final(self)@.len() == old(self)@.len(),
            final(self)@[parent.0 as int].node == old(self)@[parent.0 as int].node,
            final(self)@[parent.0 as int].parent == old(self)@[parent.0 as int].parent,
            final(self)@[parent.0 as int].children@ == old(self)@[parent.0 as int].children@.push(
                child.0,
            ),
            final(self)@[child.0 as int].node == old(self)@[child.0 as int].node,
            final(self)@[child.0 as int].children@ == old(self)@[child.0 as int].children@,
            final(self)@[child.0 as int].parent == Some(parent.0),
            forall|j: int|
                0 <= j < old(self)@.len() && j != parent.0 as int && j != child.0 as int
                    ==> final(self)@[j] == old(self)@[j],
    {
        let p = parent.0;
        let c = child.0;
        let entry = &mut self.entries[p];
        entry.children.push(c);
        let centry = &mut self.entries[c];
        centry.parent = Some(p);
        proof {
            let es0 = old(self)@;
            let es = final(self)@;
            assert forall|j: int, k: int|
                0 <= j < es.len() && 0 <= k < es[j].children@.len() implies j < (
            #[trigger] es[j].children@[k]) as int && (es[j].children@[k] as int) < es.len() by {
                if j == p as int && k == es[j].children@.len() - 1 {
                } else {
                    assert(es[j].children@[k] == es0[j].children@[k]);
                }
            }
            assert forall|j: int, k: int|
                0 <= j < es.len() && 0 <= k < es[j].children@.len() implies es[(
            #[trigger] es[j].children@[k]) as int].parent is Some && es[es[
                j
            ].children@[k] as int].parent->0 == j by {
                if j == p as int && k == es[j].children@.len() - 1 {
                    assert(es[j].children@[k] == c);
                } else {
                    let t = es0[j].children@[k] as int;
                    assert(es[j].children@[k] == es0[j].children@[k]);
                    assert(es0[t].parent is Some && es0[t].parent->0 == j);
                    assert(t != c as int);
                    assert(es[t].parent == es0[t].parent);
                }
            }
            assert forall|j: int| 0 <= j < es.len() implies range_wf(
                #[trigger] es[j].node.range,
            ) by {
                assert(es[j].node == es0[j].node);
            }
            assert forall|j: int, k: int|
                0 <= j < es.len() && 0 <= k < es[j].children@.len() implies range_contains_range(
                es[j].node.range,
                es[(#[trigger] es[j].children@[k]) as int].node.range,
            ) by {
                if j == p as int && k == es[j].children@.len() - 1 {
                    assert(es[j].children@[k] == c);
                } else {
                    assert(es[j].children@[k] == es0[j].children@[k]);
                }
            }
        }
    }
}

} // verus!
