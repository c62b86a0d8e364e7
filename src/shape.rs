use vstd::prelude::*;
use crate::node::Node;
use crate::selection::MetricsList;
use crate::spaces::{masked, node_tally, tadd, tzero};

verus! {

/// The first node at or after `j` that opens a space (`nodes.len()` if none).
pub open spec fn first_from(nodes: Seq<Node>, j: int) -> int
    decreases nodes.len() - j,
{
    if j < 0 || j >= nodes.len() {
        nodes.len() as int
    } else if nodes[j].opens_space {
        j
    } else {
        first_from(nodes, j + 1)
    }
}

/// The first node at or after `j` no deeper than node `k` (`nodes.len()` if
/// none).
pub open spec fn scan_end(nodes: Seq<Node>, k: int, j: int) -> int
    decreases nodes.len() - j,
{
    if j < 0 || j >= nodes.len() {
        nodes.len() as int
    } else if nodes[j].depth <= nodes[k].depth {
        j
    } else {
        scan_end(nodes, k, j + 1)
    }
}

/// The end of the node range of the space opened at `k`: the next node no
/// deeper than `k`. The first space opened is the root and takes every
/// node that follows.
pub open spec fn scope_end(nodes: Seq<Node>, k: int) -> int {
    if k == first_from(nodes, 0) {
        nodes.len() as int
    } else {
        scan_end(nodes, k, k + 1)
    }
}

/// Where the scan for direct subspaces goes on after node `a`: past the
/// range of the space `a` opens, or to the next node.
pub open spec fn step(nodes: Seq<Node>, a: int) -> int {
    if 0 <= a < nodes.len() && nodes[a].opens_space && scope_end(nodes, a) > a {
        scope_end(nodes, a)
    } else {
        a + 1
    }
}

/// The nodes in `[a, e)` that open a space not inside another one opened
/// in `[a, e)`: the direct subspaces, in document order.
pub open spec fn child_starts(nodes: Seq<Node>, a: int, e: int) -> Seq<int>
    decreases e - a,
{
    if a >= e || a < 0 || a >= nodes.len() {
        Seq::empty()
    } else if nodes[a].opens_space {
        let s = step(nodes, a);
        if s <= a || s >= e {
            seq![a]
        } else {
            seq![a] + child_starts(nodes, s, e)
        }
    } else {
        child_starts(nodes, a + 1, e)
    }
}

/// The scan for direct subspaces from `a` stops at `b`.
pub open spec fn reaches(nodes: Seq<Node>, a: int, b: int) -> bool
    decreases b - a,
{
    if a == b {
        true
    } else if a > b {
        false
    } else {
        let s = step(nodes, a);
        if s <= a || s > b {
            false
        } else {
            reaches(nodes, s, b)
        }
    }
}

/// The counters the selected metrics see over the nodes in `[a, b)`.
pub open spec fn range_sum(
    nodes: Seq<Node>,
    chosen: Option<Seq<MetricsList>>,
    a: int,
    b: int,
) -> Seq<int>
    decreases b - a,
{
    if b <= a {
        tzero()
    } else {
        tadd(range_sum(nodes, chosen, a, b - 1), masked(node_tally(nodes[b - 1].counts), chosen))
    }
}

pub(crate) proof fn lemma_range_split(
    nodes: Seq<Node>,
    chosen: Option<Seq<MetricsList>>,
    a: int,
    b: int,
    c: int,
)
    requires
        a <= b <= c,
    ensures
        range_sum(nodes, chosen, a, c) =~= tadd(
            range_sum(nodes, chosen, a, b),
            range_sum(nodes, chosen, b, c),
        ),
    decreases c - b,
{
    if b < c {
        lemma_range_split(nodes, chosen, a, b, c - 1);
    } else {
        assert(range_sum(nodes, chosen, b, c) == tzero());
    }
}

pub(crate) proof fn lemma_reaches_step(nodes: Seq<Node>, a: int, b: int)
    requires
        reaches(nodes, a, b),
        step(nodes, b) > b,
    ensures
        reaches(nodes, a, step(nodes, b)),
    decreases b - a,
{
    let s = step(nodes, a);
    assert(s > a);
    if a < b {
        lemma_reaches_step(nodes, s, b);
    } else {
        assert(reaches(nodes, s, s));
    }
}

pub(crate) proof fn lemma_child_starts_split(nodes: Seq<Node>, a: int, b: int, e: int)
    requires
        reaches(nodes, a, b),
        0 <= a,
        b <= e,
        b <= nodes.len(),
    ensures
        child_starts(nodes, a, e) == child_starts(nodes, a, b) + child_starts(nodes, b, e),
    decreases b - a,
{
    if a < b {
        assert(step(nodes, a) > a);
        lemma_child_starts_split(nodes, step(nodes, a), b, e);
        if nodes[a].opens_space {
            assert(child_starts(nodes, a, e) == seq![a] + child_starts(nodes, step(nodes, a), e));
            assert(child_starts(nodes, a, b) == seq![a] + child_starts(nodes, step(nodes, a), b));
            assert(child_starts(nodes, a, e) =~= child_starts(nodes, a, b) + child_starts(nodes, b, e));
        } else {
            assert(step(nodes, a) == a + 1);
        }
    } else {
        assert(child_starts(nodes, a, b) =~= Seq::<int>::empty());
        assert(child_starts(nodes, a, e) =~= child_starts(nodes, a, b) + child_starts(nodes, b, e));
    }
}

/// Past `j`, every node up to `i` is deeper than `k`: the range of `k`
/// reaches `i` at least, and ends at `i` when node `i` is no deeper.
pub(crate) proof fn lemma_scan_end(nodes: Seq<Node>, k: int, j: int, i: int)
    requires
        0 <= k < nodes.len(),
        k < j <= i <= nodes.len(),
        forall|m: int| j <= m < i ==> nodes[m].depth > nodes[k].depth,
    ensures
        scan_end(nodes, k, j) >= i,
        i < nodes.len() && nodes[i].depth <= nodes[k].depth ==> scan_end(nodes, k, j) == i,
        i == nodes.len() ==> scan_end(nodes, k, j) == i,
    decreases i - j,
{
    if j < i {
        lemma_scan_end(nodes, k, j + 1, i);
    } else {
        lemma_scan_end_ge(nodes, k, j);
    }
}

proof fn lemma_scan_end_ge(nodes: Seq<Node>, k: int, j: int)
    requires
        0 <= j <= nodes.len(),
    ensures
        j <= scan_end(nodes, k, j) <= nodes.len(),
    decreases nodes.len() - j,
{
    if j < nodes.len() {
        lemma_scan_end_ge(nodes, k, j + 1);
    }
}

/// No node before `i` opens a space, node `i` does: it is the first.
pub(crate) proof fn lemma_first_from(nodes: Seq<Node>, j: int, i: int)
    requires
        0 <= j <= i < nodes.len(),
        nodes[i].opens_space,
        forall|m: int| j <= m < i ==> !nodes[m].opens_space,
    ensures
        first_from(nodes, j) == i,
    decreases i - j,
{
    if j < i {
        lemma_first_from(nodes, j + 1, i);
    }
}

/// The direct subspaces of a range are opened in document order: their
/// opening nodes come at strictly increasing positions, all inside the range.
pub proof fn lemma_children_in_document_order(nodes: Seq<Node>, a: int, e: int)
    ensures
        forall|p: int, q: int|
            0 <= p < q < child_starts(nodes, a, e).len() ==> child_starts(nodes, a, e)[p]
                < child_starts(nodes, a, e)[q],
        forall|p: int|
            0 <= p < child_starts(nodes, a, e).len() ==> a <= #[trigger] child_starts(nodes, a, e)[p]
                < e,
    decreases e - a,
{
    let cs = child_starts(nodes, a, e);
    if a >= e || a < 0 || a >= nodes.len() {
        assert(cs.len() == 0);
    } else if nodes[a].opens_space {
        let st = step(nodes, a);
        if st <= a || st >= e {
            assert(cs =~= seq![a]);
        } else {
            lemma_children_in_document_order(nodes, st, e);
            let rest = child_starts(nodes, st, e);
            assert(cs == seq![a] + rest);
            assert forall|p: int| 0 <= p < cs.len() implies a <= #[trigger] cs[p] < e by {
                if p > 0 {
                    assert(cs[p] == rest[p - 1]);
                }
            }
            assert forall|p: int, q: int| 0 <= p < q < cs.len() implies cs[p] < cs[q] by {
                assert(cs[q] == rest[q - 1]);
                if p > 0 {
                    assert(cs[p] == rest[p - 1]);
                }
            }
        }
    } else {
        lemma_children_in_document_order(nodes, a + 1, e);
        assert(cs == child_starts(nodes, a + 1, e));
    }
}

} // verus!
