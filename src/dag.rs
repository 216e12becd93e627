//! The mathematical model of the block DAG: blocks are numbered in the order
//! in which they were accepted, and every parent of a block has a smaller number.
use vstd::prelude::*;

verus! {

/// Every parent index is smaller than the index of its child.
pub open spec fn parents_wf(par: Seq<Seq<usize>>) -> bool {
    forall|i: int, j: int| 0 <= i < par.len() && 0 <= j < par[i].len() ==> #[trigger] par[i][j] < i
}

/// `a` reaches `b` by following zero or more parent-to-child edges
/// (equivalently: `a` is in the past of `b`, or is `b` itself).
pub open spec fn is_ancestor(par: Seq<Seq<usize>>, a: int, b: int) -> bool
    decreases b,
{
    if 0 <= b < par.len() {
        a == b || exists|j: int|
            0 <= j < par[b].len() && #[trigger] par[b][j] < b && is_ancestor(par, a, par[b][j] as int)
    } else {
        false
    }
}

/// A parent step: an ancestor of a parent of `b` is an ancestor of `b`.
pub proof fn lemma_ancestor_step(par: Seq<Seq<usize>>, a: int, b: int, j: int)
    requires
        parents_wf(par),
        0 <= b < par.len(),
        0 <= j < par[b].len(),
        is_ancestor(par, a, par[b][j] as int),
    ensures
        is_ancestor(par, a, b),
{
    assert(par[b][j] < b);
}

/// Ancestors never carry a larger index than their descendants.
pub proof fn lemma_ancestor_le(par: Seq<Seq<usize>>, a: int, b: int)
    requires
        parents_wf(par),
        is_ancestor(par, a, b),
    ensures
        a <= b,
        0 <= b < par.len(),
    decreases b,
{
    if a != b {
        let j = choose|j: int|
            0 <= j < par[b].len() && #[trigger] par[b][j] < b && is_ancestor(par, a, par[b][j] as int);
        lemma_ancestor_le(par, a, par[b][j] as int);
    }
}

/// Appending a block changes no ancestry among the blocks already present.
pub proof fn lemma_ancestor_extend(par: Seq<Seq<usize>>, ps: Seq<usize>, a: int, b: int)
    requires
        0 <= b < par.len(),
    ensures
        is_ancestor(par.push(ps), a, b) == is_ancestor(par, a, b),
    decreases b,
{
    let q = par.push(ps);
    assert(q[b] == par[b]);
    if a != b {
        if is_ancestor(par, a, b) {
            let j = choose|j: int|
                0 <= j < par[b].len() && #[trigger] par[b][j] < b && is_ancestor(par, a, par[b][j] as int);
            lemma_ancestor_extend(par, ps, a, par[b][j] as int);
            assert(q[b][j] < b && is_ancestor(q, a, q[b][j] as int));
        }
        if is_ancestor(q, a, b) {
            let j = choose|j: int|
                0 <= j < q[b].len() && #[trigger] q[b][j] < b && is_ancestor(q, a, q[b][j] as int);
            lemma_ancestor_extend(par, ps, a, q[b][j] as int);
            assert(par[b][j] < b && is_ancestor(par, a, par[b][j] as int));
        }
    }
}

/// Ancestry is transitive.
pub proof fn lemma_ancestor_trans(par: Seq<Seq<usize>>, a: int, b: int, c: int)
    requires
        parents_wf(par),
        is_ancestor(par, a, b),
        is_ancestor(par, b, c),
    ensures
        is_ancestor(par, a, c),
    decreases c,
{
    if b != c {
        let j = choose|j: int|
            0 <= j < par[c].len() && #[trigger] par[c][j] < c && is_ancestor(par, b, par[c][j] as int);
        lemma_ancestor_trans(par, a, b, par[c][j] as int);
        lemma_ancestor_step(par, a, c, j);
    }
}

} // verus!
