//! Reachability index: a spanning tree of the DAG labelled with nested
//! intervals, plus for each block a future covering set (FCS) of descendants
//! that the tree does not capture.
//!
//! Each block owns the interval `[start, end)`. The point `start` is its own,
//! `[start + 1, next)` is handed out to its tree children, and `[next, end)` is
//! still free. A tree child is always a proper sub-interval of its tree parent.
use vstd::prelude::*;
use crate::dag::{
    is_ancestor, lemma_ancestor_extend, lemma_ancestor_le, lemma_ancestor_step, lemma_ancestor_trans,
    parents_wf,
};

verus! {

/// Amount of room that one reindex adds to an exhausted tree parent.
pub const REINDEX_SLACK: u64 = 1048576;

/// Free room a tree parent needs to hand a child an interval that has free
/// room of its own while keeping some for itself.
pub const MIN_ROOM: u64 = 4;

/// End of the interval given to the root of the tree.
pub const ROOT_END: u64 = 4611686018427387904;

/// Interval label of one block; see the module documentation.
#[derive(Clone, Copy, Debug, PartialEq, Eq, Structural)]
pub struct Interval {
    pub start: u64,
    pub next: u64,
    pub end: u64,
}

#[derive(Clone, Copy, Debug, PartialEq, Eq, Structural)]
pub enum ReachabilityError {
    /// The numbering space is used up: no reindex can make more room.
    CapacityExhausted,
}

/// The per-block reachability records, indexed by block number.
pub struct ReachabilityStore {
    pub intervals: Vec<Interval>,
    pub future_covering_sets: Vec<Vec<usize>>,
    pub tree_parents: Vec<Option<usize>>,
    pub tree_children: Vec<Vec<usize>>,
    /// No interval ends beyond this point.
    pub bound: u64,
}

/// `x`'s interval contains `y`'s interval.
pub open spec fn contains(iv: Seq<Interval>, x: int, y: int) -> bool {
    iv[x].start <= iv[y].start && iv[y].end <= iv[x].end
}

/// Two distinct intervals are either nested (the inner one inside the part
/// handed out by the outer one) or disjoint.
pub open spec fn nested_or_disjoint(iv: Seq<Interval>, x: int, y: int) -> bool {
    (iv[x].start < iv[y].start && iv[y].end <= iv[x].next)
    || (iv[y].start < iv[x].start && iv[x].end <= iv[y].next)
    || iv[x].end <= iv[y].start
    || iv[y].end <= iv[x].start
}

pub open spec fn interval_ok(i: Interval, bound: u64) -> bool {
    i.start < i.next < i.end <= bound
}

/// What the index answers for "is `a` an ancestor of `b`": tree containment,
/// or containment under a member of `a`'s future covering set.
pub open spec fn indexed(iv: Seq<Interval>, fcs: Seq<Vec<usize>>, a: int, b: int) -> bool {
    contains(iv, a, b) || exists|i: int|
        0 <= i < fcs[a]@.len() && #[trigger] fcs[a]@[i] < iv.len() && contains(iv, fcs[a]@[i] as int, b)
}

/// The members of a future covering set lie left to right, pairwise disjoint.
pub open spec fn fcs_ordered(iv: Seq<Interval>, f: Seq<usize>) -> bool {
    forall|i: int, j: int| 0 <= i < j < f.len() ==> iv[#[trigger] f[i] as int].end <= iv[#[trigger] f[j] as int].start
}

/// The strict containment that a tree child has in its tree parent.
pub open spec fn strictly_inside(iv: Seq<Interval>, p: int, x: int) -> bool {
    iv[p].start < iv[x].start && iv[x].end <= iv[p].end
}

pub open spec fn shift_point(v: u64, at: u64, by: u64) -> u64 {
    if v < at { v } else { (v + by) as u64 }
}

pub open spec fn shift_interval(i: Interval, at: u64, by: u64) -> Interval {
    Interval {
        start: shift_point(i.start, at, by),
        next: shift_point(i.next, at, by),
        end: shift_point(i.end, at, by),
    }
}

impl ReachabilityStore {
    pub open spec fn len(&self) -> int {
        self.intervals@.len() as int
    }

    /// The intervals form a laminar family with nonempty free ranges.
    pub open spec fn labels_wf(&self) -> bool {
        let iv = self.intervals@;
        &&& forall|x: int| 0 <= x < iv.len() ==> interval_ok(#[trigger] iv[x], self.bound)
        &&& forall|x: int, y: int|
            0 <= x < iv.len() && 0 <= y < iv.len() && x != y ==> #[trigger] nested_or_disjoint(iv, x, y)
    }

    /// Every tree child lies strictly inside its tree parent.
    pub open spec fn tree_wf(&self) -> bool {
        let iv = self.intervals@;
        &&& self.tree_parents@.len() == iv.len()
        &&& self.tree_children@.len() == iv.len()
        &&& forall|x: int, j: int| 0 <= x < iv.len() && 0 <= j < self.tree_children@[x]@.len()
            ==> #[trigger] self.tree_children@[x]@[j] < iv.len()
        &&& forall|x: int, y: int| 0 <= x < iv.len() && 0 <= y < iv.len()
            ==> (#[trigger] self.tree_children@[x]@.contains(y as usize) <==> #[trigger] self.tree_parents@[y] == Some(
            x as usize))
        &&& forall|x: int| 0 <= x < iv.len() && (#[trigger] self.tree_parents@[x]).is_some() ==> {
            let p = self.tree_parents@[x].unwrap() as int;
            0 <= p < iv.len() && strictly_inside(iv, p, x)
        }
    }

    /// The index agrees with ancestry in the DAG whose parent lists are `par`.
    pub open spec fn wf(&self, par: Seq<Seq<usize>>) -> bool {
        let iv = self.intervals@;
        let fcs = self.future_covering_sets@;
        &&& parents_wf(par)
        &&& iv.len() == par.len()
        &&& fcs.len() == par.len()
        &&& self.labels_wf()
        &&& self.tree_wf()
        &&& forall|x: int, y: int|
            0 <= x < iv.len() && 0 <= y < iv.len() && #[trigger] contains(iv, x, y) ==> is_ancestor(par, x, y)
        &&& forall|a: int, i: int| 0 <= a < fcs.len() && 0 <= i < fcs[a]@.len() ==> {
            &&& (#[trigger] fcs[a]@[i]) < iv.len()
            &&& is_ancestor(par, a, fcs[a]@[i] as int)
        }
        &&& forall|a: int, b: int|
            0 <= a < iv.len() && 0 <= b < iv.len() && #[trigger] is_ancestor(par, a, b) ==> indexed(iv, fcs, a, b)
        &&& forall|a: int| 0 <= a < fcs.len() ==> fcs_ordered(iv, #[trigger] fcs[a]@)
    }

    /// The index of a DAG that holds the root block alone.
    pub fn new_with_root() -> (r: Self)
        ensures
            r.wf(seq![Seq::<usize>::empty()]),
            r.intervals@.len() == 1,
            r.tree_parents@[0].is_none(),
            r.bound == ROOT_END,
    {
        let root = Interval { start: 1, next: 2, end: ROOT_END };
        let mut fcs: Vec<Vec<usize>> = Vec::new();
        fcs.push(Vec::new());
        let mut tc: Vec<Vec<usize>> = Vec::new();
        tc.push(Vec::new());
        let r = ReachabilityStore {
            intervals: vec![root],
            future_covering_sets: fcs,
            tree_parents: vec![None],
            tree_children: tc,
            bound: ROOT_END,
        };
        let ghost par = seq![Seq::<usize>::empty()];
        proof {
            assert(is_ancestor(par, 0, 0));
            assert forall|a: int, b: int|
                0 <= a < 1 && 0 <= b < 1 && #[trigger] is_ancestor(par, a, b) implies indexed(
                    r.intervals@, r.future_covering_sets@, a, b) by {
                assert(contains(r.intervals@, a, b));
            }
        }
        r
    }

    /// When the last member starting at or before `b` does not contain `b`
    /// (or there is none), no member does.
    proof fn lemma_no_cover(&self, par: Seq<Seq<usize>>, a: int, b: int, lo: int)
        requires
            self.wf(par),
            0 <= a < par.len(),
            0 <= b < par.len(),
            0 <= lo <= self.future_covering_sets@[a]@.len(),
            !contains(self.intervals@, a, b),
            forall|j: int| lo <= j < self.future_covering_sets@[a]@.len()
                ==> self.intervals@[#[trigger] self.future_covering_sets@[a]@[j] as int].start > self.intervals@[b].start,
            forall|j: int| 0 <= j < lo
                ==> self.intervals@[#[trigger] self.future_covering_sets@[a]@[j] as int].start <= self.intervals@[b].start,
            lo > 0 ==> !contains(self.intervals@, self.future_covering_sets@[a]@[lo - 1] as int, b),
        ensures
            !is_ancestor(par, a, b),
    {
        let iv = self.intervals@;
        let f = self.future_covering_sets@[a]@;
        if is_ancestor(par, a, b) {
            assert(indexed(iv, self.future_covering_sets@, a, b));
            let k = choose|k: int| 0 <= k < f.len() && #[trigger] f[k] < iv.len() && contains(iv, f[k] as int, b);
            assert(k < lo);
            assert(fcs_ordered(iv, f));
            assert(f[lo - 1] < iv.len());
            assert(iv[f[lo - 1] as int].start <= iv[b].start);
            assert(interval_ok(iv[b], self.bound));
            assert(iv[f[k] as int].end <= iv[f[lo - 1] as int].start);
        }
    }

    fn contains_exec(&self, x: usize, y: usize) -> (r: bool)
        requires
            x < self.intervals@.len(),
            y < self.intervals@.len(),
        ensures
            r == contains(self.intervals@, x as int, y as int),
    {
        let ix = self.intervals[x];
        let iy = self.intervals[y];
        ix.start <= iy.start && iy.end <= ix.end
    }

    /// Whether block `a` is in the past of block `b` (or is `b`).
    pub fn is_dag_ancestor_of(&self, Ghost(par): Ghost<Seq<Seq<usize>>>, a: usize, b: usize) -> (r: bool)
        requires
            self.wf(par),
            a < par.len(),
            b < par.len(),
        ensures
            r == is_ancestor(par, a as int, b as int),
    {
        let ghost iv = self.intervals@;
        let ghost fcs = self.future_covering_sets@;
        if self.contains_exec(a, b) {
            return true;
        }
        let list = &self.future_covering_sets[a];
        let sb = self.intervals[b].start;
        proof {
            assert(fcs_ordered(iv, fcs[a as int]@));
            assert(interval_ok(iv[b as int], self.bound));
        }
        let mut lo: usize = 0;
        let mut hi: usize = list.len();
        while lo < hi
            invariant
                self.wf(par),
                a < par.len(),
                b < par.len(),
                list@ == fcs[a as int]@,
                iv == self.intervals@,
                fcs == self.future_covering_sets@,
                sb == iv[b as int].start,
                lo <= hi <= list@.len(),
                forall|j: int| 0 <= j < lo ==> iv[#[trigger] list@[j] as int].start <= sb,
                forall|j: int| hi <= j < list@.len() ==> iv[#[trigger] list@[j] as int].start > sb,
            decreases hi - lo,
        {
            let mid = lo + (hi - lo) / 2;
            let y = list[mid];
            proof {
                assert(fcs[a as int]@[mid as int] < iv.len());
            }
            if self.intervals[y].start <= sb {
                proof {
                    assert forall|j: int| 0 <= j < mid + 1 implies iv[#[trigger] list@[j] as int].start <= sb by {
                        if j < mid {
                            assert(fcs[a as int]@[j] < iv.len());
                            assert(interval_ok(iv[list@[j] as int], self.bound));
                        }
                    }
                }
                lo = mid + 1;
            } else {
                proof {
                    assert forall|j: int| mid <= j < list@.len() implies iv[#[trigger] list@[j] as int].start > sb by {
                        if j > mid {
                            assert(interval_ok(iv[list@[mid as int] as int], self.bound));
                        }
                    }
                }
                hi = mid;
            }
        }
        if lo == 0 {
            proof {
                self.lemma_no_cover(par, a as int, b as int, lo as int);
            }
            return false;
        }
        let y = list[lo - 1];
        assert(fcs[a as int]@[lo - 1] < iv.len());
        if self.contains_exec(y, b) {
            proof {
                assert(is_ancestor(par, a as int, y as int));
                assert(is_ancestor(par, y as int, b as int));
                lemma_ancestor_trans(par, a as int, y as int, b as int);
            }
            return true;
        }
        proof {
            self.lemma_no_cover(par, a as int, b as int, lo as int);
        }
        false
    }

    /// Free room left in the interval of block `t`.
    pub open spec fn free(&self, t: int) -> int {
        self.intervals@[t].end - self.intervals@[t].next
    }

    /// Makes `REINDEX_SLACK` more room in block `t`'s free range by moving
    /// every label at or beyond `t`'s end up by `REINDEX_SLACK`: the ends of `t`
    /// and of its tree ancestors, and every interval that lies wholly after
    /// `t`. Labels before that point, among them `t`'s whole subtree, keep
    /// their values. The move is one strictly increasing map on all labels,
    /// so every containment and disjointness between two blocks is kept
    /// without looking at the tree; only the numbering moves, not any
    /// relation. Since each reindex adds a fixed amount of room, at most one
    /// reindex happens per insertion.
    fn reindex(&mut self, Ghost(par): Ghost<Seq<Seq<usize>>>, t: usize) -> (r: Result<(), ReachabilityError>)
        requires
            old(self).wf(par),
            t < old(self).len(),
        ensures
            r.is_err() <==> old(self).bound > u64::MAX - REINDEX_SLACK,
            r.is_err() ==> *final(self) == *old(self),
            r.is_ok() ==> final(self).wf(par),
            r.is_ok() ==> final(self).free(t as int) == old(self).free(t as int) + REINDEX_SLACK,
            r.is_ok() ==> final(self).tree_parents@ == old(self).tree_parents@,
            r.is_ok() ==> final(self).bound == old(self).bound + REINDEX_SLACK,
            r.is_ok() ==> forall|x: int| 0 <= x < old(self).len() ==> #[trigger] final(self).intervals@[x]
                == shift_interval(old(self).intervals@[x], old(self).intervals@[t as int].end, REINDEX_SLACK),
    {
        if self.bound > u64::MAX - REINDEX_SLACK {
            return Err(ReachabilityError::CapacityExhausted);
        }
        let ghost iv0 = self.intervals@;
        let at = self.intervals[t].end;
        let bound = self.bound;
        let mut i: usize = 0;
        while i < self.intervals.len()
            invariant
                self.intervals@.len() == iv0.len(),
                self.bound == bound,
                bound <= u64::MAX - REINDEX_SLACK,
                self.future_covering_sets == old(self).future_covering_sets,
                self.tree_parents == old(self).tree_parents,
                self.tree_children == old(self).tree_children,
                old(self).labels_wf(),
                iv0 == old(self).intervals@,
                bound == old(self).bound,
                forall|k: int| 0 <= k < i ==> #[trigger] self.intervals@[k] == shift_interval(iv0[k], at, REINDEX_SLACK),
                forall|k: int| i <= k < iv0.len() ==> #[trigger] self.intervals@[k] == iv0[k],
            decreases iv0.len() - i,
        {
            let v = self.intervals[i];
            assert(interval_ok(iv0[i as int], bound));
            let w = Interval {
                start: if v.start < at { v.start } else { v.start + REINDEX_SLACK },
                next: if v.next < at { v.next } else { v.next + REINDEX_SLACK },
                end: if v.end < at { v.end } else { v.end + REINDEX_SLACK },
            };
            self.intervals.set(i, w);
            i = i + 1;
        }
        self.bound = bound + REINDEX_SLACK;
        proof {
            let iv = self.intervals@;
            lemma_shift_monotone(at, REINDEX_SLACK, bound);
            assert forall|x: int| 0 <= x < iv.len() implies interval_ok(#[trigger] iv[x], self.bound) by {
                assert(interval_ok(iv0[x], bound));
                assert(iv[x] == shift_interval(iv0[x], at, REINDEX_SLACK));
            }
            assert forall|x: int, y: int| 0 <= x < iv.len() && 0 <= y < iv.len()
                implies #[trigger] contains(iv, x, y) == contains(iv0, x, y)
                    && strictly_inside(iv, x, y) == strictly_inside(iv0, x, y) by {
                assert(interval_ok(iv0[x], bound));
                assert(interval_ok(iv0[y], bound));
                assert(iv[x] == shift_interval(iv0[x], at, REINDEX_SLACK));
                assert(iv[y] == shift_interval(iv0[y], at, REINDEX_SLACK));
            }
            assert forall|x: int, y: int| 0 <= x < iv.len() && 0 <= y < iv.len() && x != y
                implies #[trigger] nested_or_disjoint(iv, x, y) by {
                assert(interval_ok(iv0[x], bound));
                assert(interval_ok(iv0[y], bound));
                assert(nested_or_disjoint(iv0, x, y));
                assert(iv[x] == shift_interval(iv0[x], at, REINDEX_SLACK));
                assert(iv[y] == shift_interval(iv0[y], at, REINDEX_SLACK));
            }
            assert forall|x: int| 0 <= x < iv.len() && (#[trigger] self.tree_parents@[x]).is_some() implies {
                let p = self.tree_parents@[x].unwrap() as int;
                0 <= p < iv.len() && strictly_inside(iv, p, x)
            } by {
                let p = self.tree_parents@[x].unwrap() as int;
                assert(strictly_inside(iv0, p, x));
                assert(contains(iv, p, x) == contains(iv0, p, x));
            }
            let fcs = self.future_covering_sets@;
            assert forall|a: int, b: int| 0 <= a < iv.len() && 0 <= b < iv.len() && #[trigger] is_ancestor(par, a, b)
                implies indexed(iv, fcs, a, b) by {
                assert(indexed(iv0, fcs, a, b));
                assert(contains(iv, a, b) == contains(iv0, a, b));
                if !contains(iv0, a, b) {
                    let k = choose|k: int|
                        0 <= k < fcs[a]@.len() && #[trigger] fcs[a]@[k] < iv0.len() && contains(iv0, fcs[a]@[k] as int, b);
                    assert(contains(iv, fcs[a]@[k] as int, b) == contains(iv0, fcs[a]@[k] as int, b));
                }
            }
            assert forall|a: int| 0 <= a < fcs.len() implies fcs_ordered(iv, #[trigger] fcs[a]@) by {
                assert(fcs_ordered(iv0, fcs[a]@));
                assert forall|i: int, j: int| 0 <= i < j < fcs[a]@.len()
                    implies iv[#[trigger] fcs[a]@[i] as int].end <= iv[#[trigger] fcs[a]@[j] as int].start by {
                    let x = fcs[a]@[i] as int;
                    let y = fcs[a]@[j] as int;
                    assert(interval_ok(iv0[x], bound));
                    assert(interval_ok(iv0[y], bound));
                    assert(iv[x] == shift_interval(iv0[x], at, REINDEX_SLACK));
                    assert(iv[y] == shift_interval(iv0[y], at, REINDEX_SLACK));
                }
            }
            assert(iv[t as int] == shift_interval(iv0[t as int], at, REINDEX_SLACK));
            assert(interval_ok(iv0[t as int], bound));
        }
        Ok(())
    }
}

impl ReachabilityStore {
    /// Whether the index adds a new block to `a`'s future covering set: `a`
    /// is an ancestor of a parent that is not the tree parent.
    pub open spec fn covers_new(par: Seq<Seq<usize>>, parents: Seq<usize>, tree_parent: usize, a: int) -> bool {
        exists|j: int| 0 <= j < parents.len() && #[trigger] parents[j] != tree_parent
            && is_ancestor(par, a, parents[j] as int)
    }

    fn covering_marks(&self, Ghost(par): Ghost<Seq<Seq<usize>>>, parents: &Vec<usize>, tree_parent: usize) -> (r: Vec<bool>)
        requires
            self.wf(par),
            forall|j: int| 0 <= j < parents@.len() ==> #[trigger] parents@[j] < par.len(),
        ensures
            r@.len() == par.len(),
            forall|a: int| 0 <= a < par.len() ==> #[trigger] r@[a] == Self::covers_new(par, parents@, tree_parent, a),
    {
        let n = self.intervals.len();
        let mut marks: Vec<bool> = Vec::new();
        let mut a: usize = 0;
        while a < n
            invariant
                self.wf(par),
                n == par.len(),
                forall|j: int| 0 <= j < parents@.len() ==> #[trigger] parents@[j] < par.len(),
                marks@.len() == a,
                a <= n,
                forall|k: int| 0 <= k < a ==> #[trigger] marks@[k] == Self::covers_new(par, parents@, tree_parent, k),
            decreases n - a,
        {
            let mut m = false;
            let mut j: usize = 0;
            while j < parents.len()
                invariant
                    self.wf(par),
                    a < n,
                    n == par.len(),
                    forall|j: int| 0 <= j < parents@.len() ==> #[trigger] parents@[j] < par.len(),
                    j <= parents@.len(),
                    m == exists|jj: int| 0 <= jj < j && #[trigger] parents@[jj] != tree_parent
                        && is_ancestor(par, a as int, parents@[jj] as int),
                decreases parents.len() - j,
            {
                let p = parents[j];
                if p != tree_parent && self.is_dag_ancestor_of(Ghost(par), a, p) {
                    m = true;
                }
                j = j + 1;
            }
            marks.push(m);
            a = a + 1;
        }
        marks
    }

    /// Adds block `c` to the future covering set of block `a`, keeping it
    /// ordered, unless a member already contains `c`. Block `c` hands out
    /// nothing yet, so its interval is disjoint from every interval that does
    /// not contain it.
    fn insert_covering(&mut self, a: usize, c: usize)
        requires
            old(self).labels_wf(),
            a < old(self).future_covering_sets@.len(),
            c < old(self).intervals@.len(),
            old(self).intervals@[c as int].next == old(self).intervals@[c as int].start + 1,
            forall|i: int| 0 <= i < old(self).future_covering_sets@[a as int]@.len()
                ==> (#[trigger] old(self).future_covering_sets@[a as int]@[i]) < old(self).intervals@.len(),
            fcs_ordered(old(self).intervals@, old(self).future_covering_sets@[a as int]@),
        ensures
            final(self).intervals == old(self).intervals,
            final(self).bound == old(self).bound,
            final(self).tree_parents == old(self).tree_parents,
            final(self).tree_children == old(self).tree_children,
            final(self).future_covering_sets@.len() == old(self).future_covering_sets@.len(),
            forall|k: int| 0 <= k < old(self).future_covering_sets@.len() && k != a
                ==> #[trigger] final(self).future_covering_sets@[k] == old(self).future_covering_sets@[k],
            fcs_ordered(final(self).intervals@, final(self).future_covering_sets@[a as int]@),
            forall|i: int| 0 <= i < final(self).future_covering_sets@[a as int]@.len() ==> {
                let y = #[trigger] final(self).future_covering_sets@[a as int]@[i];
                y == c || old(self).future_covering_sets@[a as int]@.contains(y)
            },
            forall|i: int| 0 <= i < old(self).future_covering_sets@[a as int]@.len()
                ==> final(self).future_covering_sets@[a as int]@.contains(
                    #[trigger] old(self).future_covering_sets@[a as int]@[i]),
            exists|i: int| 0 <= i < final(self).future_covering_sets@[a as int]@.len()
                && contains(final(self).intervals@, #[trigger] final(self).future_covering_sets@[a as int]@[i] as int, c as int),
    {
        let ghost iv = self.intervals@;
        let mut list = self.future_covering_sets[a].clone();
        let ghost f = list@;
        assert(f == self.future_covering_sets@[a as int]@);
        let sc = self.intervals[c].start;
        let mut lo: usize = 0;
        let mut hi: usize = list.len();
        while lo < hi
            invariant
                self.labels_wf(),
                iv == self.intervals@,
                list@ == f,
                c < iv.len(),
                forall|i: int| 0 <= i < f.len() ==> (#[trigger] f[i]) < iv.len(),
                fcs_ordered(iv, f),
                sc == iv[c as int].start,
                lo <= hi <= f.len(),
                forall|j: int| 0 <= j < lo ==> iv[#[trigger] f[j] as int].start <= sc,
                forall|j: int| hi <= j < f.len() ==> iv[#[trigger] f[j] as int].start > sc,
            decreases hi - lo,
        {
            let mid = lo + (hi - lo) / 2;
            let y = list[mid];
            assert(f[mid as int] < iv.len());
            if self.intervals[y].start <= sc {
                proof {
                    assert forall|j: int| 0 <= j < mid + 1 implies iv[#[trigger] f[j] as int].start <= sc by {
                        if j < mid {
                            assert(f[j] < iv.len());
                            assert(interval_ok(iv[f[j] as int], self.bound));
                        }
                    }
                }
                lo = mid + 1;
            } else {
                proof {
                    assert forall|j: int| mid <= j < f.len() implies iv[#[trigger] f[j] as int].start > sc by {
                        if j > mid {
                            assert(interval_ok(iv[f[mid as int] as int], self.bound));
                        }
                    }
                }
                hi = mid;
            }
        }
        if lo > 0 {
            let y = list[lo - 1];
            assert(f[lo - 1] < iv.len());
            if self.contains_exec(y, c) {
                proof {
                    assert forall|i: int| 0 <= i < f.len() implies f.contains(#[trigger] f[i]) by {}
                    assert(self.future_covering_sets@[a as int]@[lo - 1] == y);
                }
                return;
            }
        }
        proof {
            assert(interval_ok(iv[c as int], self.bound));
            assert forall|j: int| 0 <= j < f.len() implies
                (j < lo ==> iv[#[trigger] f[j] as int].end <= sc) && (j >= lo ==> iv[c as int].end <= iv[f[j] as int].start) by {
                let y = f[j] as int;
                assert(interval_ok(iv[y], self.bound));
                if y != c as int {
                    assert(nested_or_disjoint(iv, y, c as int));
                }
                if j < lo - 1 {
                    assert(f[lo - 1] < iv.len());
                    assert(interval_ok(iv[f[lo - 1] as int], self.bound));
                }
            }
        }
        list.insert(lo, c);
        proof {
            let g = list@;
            assert(g == f.insert(lo as int, c));
            assert forall|i: int, j: int| 0 <= i < j < g.len() implies iv[#[trigger] g[i] as int].end <= iv[#[trigger] g[j] as int].start by {
                if i < lo && j > lo {
                    assert(g[j] == f[j - 1]);
                    assert(interval_ok(iv[f[j - 1] as int], self.bound));
                    assert(iv[f[i] as int].end <= iv[c as int].start);
                }
                else if i < lo && j < lo {
                    assert(g[i] == f[i] && g[j] == f[j]);
                } else if i > lo {
                    assert(g[i] == f[i - 1] && g[j] == f[j - 1]);
                }
            }
            assert forall|i: int| 0 <= i < g.len() implies {
                let y = #[trigger] g[i];
                y == c || f.contains(y)
            } by {
                if i < lo {
                    assert(g[i] == f[i]);
                } else if i > lo {
                    assert(g[i] == f[i - 1]);
                }
            }
            assert forall|i: int| 0 <= i < f.len() implies g.contains(#[trigger] f[i]) by {
                if i < lo {
                    assert(g[i] == f[i]);
                } else {
                    assert(g[i + 1] == f[i]);
                }
            }
            assert(g[lo as int] == c);
            assert(contains(iv, c as int, c as int));
        }
        self.future_covering_sets.set(a, list);
        assert(self.future_covering_sets@[a as int]@[lo as int] == c);
    }

    /// The index is well formed after `add_block` has labelled the new block
    /// and updated the future covering sets.
    proof fn lemma_extended_wf(
        &self,
        par: Seq<Seq<usize>>,
        ps: Seq<usize>,
        t: usize,
        iv0: Seq<Interval>,
        fcs0: Seq<Vec<usize>>,
        marks: Seq<bool>,
        old_bound: u64,
    )
        requires
            parents_wf(par),
            parents_wf(par.push(ps)),
            ps.contains(t),
            t < par.len(),
            iv0.len() == par.len(),
            fcs0.len() == par.len(),
            marks.len() == par.len(),
            forall|k: int| 0 <= k < par.len() ==> #[trigger] marks[k] == Self::covers_new(par, ps, t, k),
            forall|x: int| 0 <= x < iv0.len() ==> interval_ok(#[trigger] iv0[x], old_bound),
            forall|x: int, y: int|
                0 <= x < iv0.len() && 0 <= y < iv0.len() && x != y ==> #[trigger] nested_or_disjoint(iv0, x, y),
            forall|x: int, y: int| 0 <= x < par.len() && 0 <= y < par.len() && #[trigger] contains(iv0, x, y)
                ==> is_ancestor(par, x, y),
            forall|a: int, b: int| 0 <= a < par.len() && 0 <= b < par.len() && #[trigger] is_ancestor(par, a, b)
                ==> indexed(iv0, fcs0, a, b),
            forall|a: int, i: int| 0 <= a < par.len() && 0 <= i < fcs0[a]@.len() ==> {
                &&& (#[trigger] fcs0[a]@[i]) < par.len()
                &&& is_ancestor(par, a, fcs0[a]@[i] as int)
            },
            self.labels_wf(),
            self.tree_wf(),
            self.bound == old_bound,
            self.intervals@.len() == par.len() + 1,
            forall|x: int| 0 <= x < par.len() && x != t ==> #[trigger] self.intervals@[x] == iv0[x],
            self.intervals@[t as int].start == iv0[t as int].start,
            self.intervals@[t as int].end == iv0[t as int].end,
            self.intervals@[par.len() as int].start == iv0[t as int].next,
            self.intervals@[par.len() as int].end <= iv0[t as int].end,
            self.intervals@[par.len() as int].next == self.intervals@[par.len() as int].start + 1,
            self.future_covering_sets@.len() == par.len() + 1,
            self.future_covering_sets@[par.len() as int]@.len() == 0,
            forall|k: int| 0 <= k < par.len() && !marks[k] ==> #[trigger] self.future_covering_sets@[k] == fcs0[k],
            forall|k: int| 0 <= k < par.len() ==> fcs_ordered(self.intervals@, #[trigger] self.future_covering_sets@[k]@),
            forall|k: int, i: int| 0 <= k < par.len() && 0 <= i < self.future_covering_sets@[k]@.len() ==> {
                let y = #[trigger] self.future_covering_sets@[k]@[i];
                y == par.len() || fcs0[k]@.contains(y)
            },
            forall|k: int, i: int| 0 <= k < par.len() && 0 <= i < fcs0[k]@.len()
                ==> self.future_covering_sets@[k]@.contains(#[trigger] fcs0[k]@[i]),
            forall|k: int| 0 <= k < par.len() && #[trigger] marks[k] ==> exists|i: int|
                0 <= i < self.future_covering_sets@[k]@.len()
                && contains(self.intervals@, #[trigger] self.future_covering_sets@[k]@[i] as int, par.len() as int),
        ensures
            self.wf(par.push(ps)),
    {
        let n = par.len();
        let iv = self.intervals@;
        let par2 = par.push(ps);
        assert(ps.contains(t));
        let jt0 = choose|j: int| 0 <= j < ps.len() && ps[j] == t;
        assert(par2[n as int] == ps);
        let cc = n as int;
        assert(interval_ok(iv[cc], self.bound));
        assert(interval_ok(iv[t as int], self.bound));
        let fcs = self.future_covering_sets@;
        assert forall|x: int, y: int| 0 <= x < n && 0 <= y < n
            implies #[trigger] is_ancestor(par2, x, y) == is_ancestor(par, x, y) by {
            lemma_ancestor_extend(par, ps, x, y);
        }
        assert(is_ancestor(par2, t as int, t as int));
        lemma_ancestor_step(par2, t as int, cc, jt0);
        assert(is_ancestor(par2, cc, cc));
        assert forall|x: int, y: int| 0 <= x < iv.len() && 0 <= y < iv.len() && #[trigger] contains(iv, x, y)
            implies is_ancestor(par2, x, y) by {
            if x < n && y < n {
                assert(contains(iv0, x, y));
            } else if y == cc && x < n && x != t {
                assert(iv[x] == iv0[x]);
                assert(nested_or_disjoint(iv0, x, t as int));
                assert(interval_ok(iv0[x], old_bound));
                assert(contains(iv0, x, t as int));
                assert(is_ancestor(par, x, t as int));
                lemma_ancestor_trans(par2, x, t as int, cc);
            } else if x == cc && y < n {
                assert(nested_or_disjoint(iv, x, y));
                assert(interval_ok(iv[y], self.bound));
            }
        }
        assert forall|a: int, i: int| 0 <= a < fcs.len() && 0 <= i < fcs[a]@.len() implies {
            &&& (#[trigger] fcs[a]@[i]) < iv.len()
            &&& is_ancestor(par2, a, fcs[a]@[i] as int)
        } by {
            if a == n {
            } else if !marks[a] {
                assert(fcs[a] == fcs0[a]);
            } else if fcs0[a]@.contains(fcs[a]@[i]) {
                let q = choose|q: int| 0 <= q < fcs0[a]@.len() && fcs0[a]@[q] == fcs[a]@[i];
                assert(fcs0[a]@[q] < n);
            } else {
                assert(fcs[a]@[i] as int == cc);
                let j = choose|j: int| 0 <= j < ps.len() && #[trigger] ps[j] != t
                    && is_ancestor(par, a, ps[j] as int);
                lemma_ancestor_step(par2, a, cc, j);
            }
        }
        assert forall|a: int, b: int| 0 <= a < iv.len() && 0 <= b < iv.len() && #[trigger] is_ancestor(par2, a, b)
            implies indexed(iv, fcs, a, b) by {
            if a == b {
                assert(contains(iv, a, b));
            } else if b < n && a < n {
                assert(indexed(iv0, fcs0, a, b));
                if !contains(iv0, a, b) {
                    let k = choose|k: int| 0 <= k < fcs0[a]@.len() && #[trigger] fcs0[a]@[k] < iv0.len()
                        && contains(iv0, fcs0[a]@[k] as int, b);
                    assert(fcs[a]@.contains(fcs0[a]@[k]));
                    let q = choose|q: int| 0 <= q < fcs[a]@.len() && fcs[a]@[q] == fcs0[a]@[k];
                    assert(fcs[a]@[q] < iv.len());
                }
            } else if b < n {
                lemma_ancestor_le(par2, a, b);
            } else if a < n {
                let j = choose|j: int| 0 <= j < par2[b].len() && #[trigger] par2[b][j] < b
                    && is_ancestor(par2, a, par2[b][j] as int);
                let p = ps[j] as int;
                assert(is_ancestor(par, a, p));
                if p != t {
                    assert(marks[a]);
                    let q = choose|q: int| 0 <= q < fcs[a]@.len() && contains(iv, #[trigger] fcs[a]@[q] as int, cc);
                    assert(fcs[a]@[q] < iv.len());
                } else {
                    assert(indexed(iv0, fcs0, a, p));
                    if contains(iv0, a, p) {
                        assert(contains(iv, a, b));
                    } else {
                        let k = choose|k: int| 0 <= k < fcs0[a]@.len() && #[trigger] fcs0[a]@[k] < iv0.len()
                            && contains(iv0, fcs0[a]@[k] as int, p);
                        assert(fcs[a]@.contains(fcs0[a]@[k]));
                        let q = choose|q: int| 0 <= q < fcs[a]@.len() && fcs[a]@[q] == fcs0[a]@[k];
                        assert(fcs[a]@[q] < iv.len());
                        assert(contains(iv, fcs[a]@[q] as int, b));
                    }
                }
            }
        }
        assert forall|a: int| 0 <= a < fcs.len() implies fcs_ordered(iv, #[trigger] fcs[a]@) by {
            if a == n {
                assert(fcs[a]@.len() == 0);
            }
        }
    }

    /// Registers a new block, numbered `par.len()`, whose DAG parents are
    /// `parents` and whose tree parent is `tree_parent`. It receives a proper
    /// sub-interval of its tree parent's free range (after a reindex when that
    /// range is nearly used up), and joins the future covering set of every
    /// ancestor of its other parents. Fails only when no reindex can make room.
    pub fn add_block(&mut self, Ghost(par): Ghost<Seq<Seq<usize>>>, parents: &Vec<usize>, tree_parent: usize)
        -> (r: Result<(), ReachabilityError>)
        requires
            old(self).wf(par),
            parents_wf(par.push(parents@)),
            parents@.contains(tree_parent),
        ensures
            r.is_err() <==> (old(self).free(tree_parent as int) < MIN_ROOM && old(self).bound > u64::MAX - REINDEX_SLACK),
            r.is_err() ==> *final(self) == *old(self),
            r.is_ok() ==> final(self).wf(par.push(parents@)),
            r.is_ok() ==> final(self).tree_parents@ == old(self).tree_parents@.push(Some(tree_parent)),
            r.is_ok() ==> final(self).bound <= old(self).bound + REINDEX_SLACK,
    {
        let ghost par2 = par.push(parents@);
        let ghost n = par.len();
        proof {
            assert forall|j: int| 0 <= j < parents@.len() implies #[trigger] parents@[j] < par.len() by {
                assert(par2[n as int][j] < n);
            }
            let j = choose|j: int| 0 <= j < parents@.len() && parents@[j] == tree_parent;
            assert(parents@[j] < par.len());
        }
        let marks = self.covering_marks(Ghost(par), parents, tree_parent);
        let t = tree_parent;
        if self.intervals[t].end - self.intervals[t].next < MIN_ROOM {
            let rr = self.reindex(Ghost(par), t);
            if rr.is_err() {
                return Err(ReachabilityError::CapacityExhausted);
            }
        }
        let ghost iv0 = self.intervals@;
        let ghost fcs0 = self.future_covering_sets@;
        let ghost tp0 = self.tree_parents@;
        let ghost tc0 = self.tree_children@;
        let ghost old_bound = self.bound;
        proof {
            assert(self.tree_wf());
        }
        proof {
            assert(self.wf(par));
            assert forall|x: int, y: int| 0 <= x < n && 0 <= y < n && #[trigger] contains(iv0, x, y)
                implies is_ancestor(par, x, y) by {}
            assert forall|a: int, b: int| 0 <= a < n && 0 <= b < n && #[trigger] is_ancestor(par, a, b)
                implies indexed(iv0, fcs0, a, b) by {}
            assert forall|a: int, i: int| 0 <= a < n && 0 <= i < fcs0[a]@.len() implies {
                &&& (#[trigger] fcs0[a]@[i]) < n
                &&& is_ancestor(par, a, fcs0[a]@[i] as int)
            } by {}
            assert forall|a: int| 0 <= a < n implies fcs_ordered(iv0, #[trigger] fcs0[a]@) by {}
        }
        let c = self.intervals.len();
        let it = self.intervals[t];
        assert(interval_ok(iv0[t as int], self.bound));
        let size = (it.end - it.next) / 2;
        let fresh = Interval { start: it.next, next: it.next + 1, end: it.next + size };
        self.intervals.set(t, Interval { start: it.start, next: it.next + size, end: it.end });
        self.intervals.push(fresh);
        self.future_covering_sets.push(Vec::new());
        self.tree_parents.push(Some(t));
        let mut kids = self.tree_children[t].clone();
        kids.push(c);
        self.tree_children.set(t, kids);
        self.tree_children.push(Vec::new());
        let ghost iv = self.intervals@;
        proof {
            assert(iv.len() == n + 1);
            assert forall|x: int| 0 <= x < iv.len() implies interval_ok(#[trigger] iv[x], self.bound) by {
                if x < n && x != t {
                    assert(iv[x] == iv0[x]);
                    assert(interval_ok(iv0[x], self.bound));
                }
            }
            assert forall|x: int, y: int| 0 <= x < iv.len() && 0 <= y < iv.len() && x != y
                implies #[trigger] nested_or_disjoint(iv, x, y) by {
                if x < n && y < n {
                    assert(nested_or_disjoint(iv0, x, y));
                } else if x == n && y != t {
                    assert(nested_or_disjoint(iv0, y, t as int));
                    assert(interval_ok(iv0[y], self.bound));
                } else if y == n && x != t {
                    assert(nested_or_disjoint(iv0, x, t as int));
                    assert(interval_ok(iv0[x], self.bound));
                }
            }
            assert forall|x: int| 0 <= x < iv.len() && (#[trigger] self.tree_parents@[x]).is_some() implies {
                let p = self.tree_parents@[x].unwrap() as int;
                0 <= p < iv.len() && strictly_inside(iv, p, x)
            } by {
                if x < n {
                    assert(tp0[x] == self.tree_parents@[x]);
                    let p = self.tree_parents@[x].unwrap() as int;
                    assert(strictly_inside(iv0, p, x));
                }
            }
            let tc = self.tree_children@;
            let tp = self.tree_parents@;
            assert forall|x: int, j: int| 0 <= x < iv.len() && 0 <= j < tc[x]@.len() implies #[trigger] tc[x]@[j] < iv.len() by {
                if x < n && x != t {
                    assert(tc[x] == tc0[x]);
                } else if x == t && j < tc0[x]@.len() {
                    assert(tc[x]@[j] == tc0[x]@[j]);
                }
            }
            assert forall|x: int, y: int| 0 <= x < iv.len() && 0 <= y < iv.len()
                implies (#[trigger] tc[x]@.contains(y as usize) <==> #[trigger] tp[y] == Some(x as usize)) by {
                if x == n {
                    assert(tc[x]@.len() == 0);
                    if y < n {
                        assert(tp[y] == tp0[y]);
                        if tp0[y] == Some(x as usize) {
                            assert(strictly_inside(iv0, x, y));
                        }
                    }
                } else if x != t {
                    assert(tc[x] == tc0[x]);
                    if y < n {
                        assert(tp[y] == tp0[y]);
                    } else if tc0[x]@.contains(y as usize) {
                        let q = choose|q: int| 0 <= q < tc0[x]@.len() && tc0[x]@[q] == y as usize;
                        assert(tc0[x]@[q] < n);
                    }
                } else {
                    assert(tc[x]@ == tc0[x]@.push(c));
                    if y < n {
                        assert(tp[y] == tp0[y]);
                        if tc[x]@.contains(y as usize) {
                            let q = choose|q: int| 0 <= q < tc[x]@.len() && tc[x]@[q] == y as usize;
                            if q < tc0[x]@.len() {
                                assert(tc0[x]@[q] == y as usize);
                            }
                        }
                        if tc0[x]@.contains(y as usize) {
                            let q = choose|q: int| 0 <= q < tc0[x]@.len() && tc0[x]@[q] == y as usize;
                            assert(tc[x]@[q] == y as usize);
                        }
                    } else {
                        assert(tc[x]@[tc0[x]@.len() as int] == c);
                    }
                }
            }
        }
        let ghost tc1 = self.tree_children@;
        proof {
            assert forall|k: int| 0 <= k < n implies fcs_ordered(iv, #[trigger] fcs0[k]@) by {
                assert(fcs_ordered(iv0, fcs0[k]@));
                assert forall|i: int, j: int| 0 <= i < j < fcs0[k]@.len()
                    implies iv[#[trigger] fcs0[k]@[i] as int].end <= iv[#[trigger] fcs0[k]@[j] as int].start by {
                    assert(fcs0[k]@[i] < n && fcs0[k]@[j] < n);
                }
            }
            assert(self.future_covering_sets@[n as int]@ =~= Seq::<usize>::empty());
        }
        let mut a: usize = 0;
        while a < c
            invariant
                c == n,
                marks@.len() == n,
                self.intervals@ == iv,
                self.labels_wf(),
                iv.len() == n + 1,
                iv[n as int].next == iv[n as int].start + 1,
                self.future_covering_sets@.len() == n + 1,
                self.future_covering_sets@[n as int]@.len() == 0,
                self.tree_parents@ == tp0.push(Some(t)),
                self.tree_children@ == tc1,
                self.tree_wf(),
                self.bound == old_bound,
                fcs0.len() == n,
                forall|k: int| 0 <= k < n ==> fcs_ordered(iv, #[trigger] fcs0[k]@),
                forall|k: int, i: int| 0 <= k < n && 0 <= i < fcs0[k]@.len() ==> (#[trigger] fcs0[k]@[i]) < n,
                forall|k: int| a <= k < n ==> #[trigger] self.future_covering_sets@[k] == fcs0[k],
                forall|k: int| 0 <= k < a && !marks@[k] ==> #[trigger] self.future_covering_sets@[k] == fcs0[k],
                forall|k: int| 0 <= k < a ==> fcs_ordered(iv, #[trigger] self.future_covering_sets@[k]@),
                forall|k: int, i: int| 0 <= k < a && 0 <= i < self.future_covering_sets@[k]@.len() ==> {
                    let y = #[trigger] self.future_covering_sets@[k]@[i];
                    y == c || fcs0[k]@.contains(y)
                },
                forall|k: int, i: int| 0 <= k < a && 0 <= i < fcs0[k]@.len()
                    ==> self.future_covering_sets@[k]@.contains(#[trigger] fcs0[k]@[i]),
                forall|k: int| 0 <= k < a && #[trigger] marks@[k] ==> exists|i: int|
                    0 <= i < self.future_covering_sets@[k]@.len()
                    && contains(iv, #[trigger] self.future_covering_sets@[k]@[i] as int, c as int),
            decreases c - a,
        {
            if marks[a] {
                assert(self.future_covering_sets@[a as int] == fcs0[a as int]);
                let ghost before = self.future_covering_sets@;
                self.insert_covering(a, c);
                proof {
                    assert forall|k: int| 0 <= k < a && #[trigger] marks@[k] implies exists|i: int|
                        0 <= i < self.future_covering_sets@[k]@.len()
                        && contains(iv, #[trigger] self.future_covering_sets@[k]@[i] as int, c as int) by {
                        let i = choose|i: int| 0 <= i < before[k]@.len() && contains(iv, #[trigger] before[k]@[i] as int, c as int);
                        assert(self.future_covering_sets@[k] == before[k]);
                        assert(self.future_covering_sets@[k]@[i] == before[k]@[i]);
                    }
                }
            }
            a = a + 1;
        }
        proof {
            self.lemma_extended_wf(par, parents@, t, iv0, fcs0, marks@, old_bound);
        }
        Ok(())
    }
}

/// The shift of labels is strictly increasing on every label in use.
proof fn lemma_shift_monotone(at: u64, by: u64, bound: u64)
    requires
        bound <= u64::MAX - by,
    ensures
        forall|v: u64, w: u64| v <= bound && w <= bound ==> {
            &&& (v < w) == (#[trigger] shift_point(v, at, by) < #[trigger] shift_point(w, at, by))
            &&& (v <= w) == (shift_point(v, at, by) <= shift_point(w, at, by))
        },
        forall|v: u64| v <= bound ==> #[trigger] shift_point(v, at, by) <= bound + by,
{
}

} // verus!
