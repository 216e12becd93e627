//! GHOSTDAG ordering data: selected parent, mergeset split into blue and red
//! blocks, blue score and blue work.
//!
//! The selected parent is the parent of greatest blue work, ties going to the
//! smaller hash. The mergeset is the selected parent followed by every other
//! block in the new block's past but outside the selected parent's past, in
//! the same order of preference. Scanning it in that order, a block is blue
//! when at most `k` blocks of the new block's blue set lie in its anticone and
//! none of those would then have more than `k` of the set in its own anticone.
//! The blue set is the selected parent's blue past (the mergeset blues down the
//! selected-parent chain) together with the blues chosen so far; the selected
//! parent is always blue.
use vstd::prelude::*;
use crate::dag::is_ancestor;
use crate::reachability::ReachabilityStore;

verus! {

/// A GHOSTDAG record in executable form; blocks are given by their numbers.
#[derive(Clone, Debug)]
pub struct GhostdagData {
    pub selected_parent: Option<usize>,
    pub blue_score: u64,
    pub blue_work: u128,
    pub mergeset_blues: Vec<usize>,
    pub mergeset_reds: Vec<usize>,
    /// For each mergeset member after the selected parent, in scan order, how
    /// many of the blues chosen before it lie in its anticone.
    pub mergeset_anticone_sizes: Vec<usize>,
}

/// The mathematical content of a GHOSTDAG record.
pub struct GhostdagRecord {
    pub selected_parent: Option<usize>,
    pub blue_score: int,
    pub blue_work: int,
    pub blues: Seq<usize>,
    pub reds: Seq<usize>,
    pub anticone_sizes: Seq<usize>,
}

impl GhostdagData {
    pub open spec fn view(&self) -> GhostdagRecord {
        GhostdagRecord {
            selected_parent: self.selected_parent,
            blue_score: self.blue_score as int,
            blue_work: self.blue_work as int,
            blues: self.mergeset_blues@,
            reds: self.mergeset_reds@,
            anticone_sizes: self.mergeset_anticone_sizes@,
        }
    }
}

pub open spec fn records(gd: Seq<GhostdagData>) -> Seq<GhostdagRecord> {
    gd.map_values(|d: GhostdagData| d@)
}

/// Block `p` is preferred to block `q` as selected parent.
pub open spec fn prefers(prev: Seq<GhostdagRecord>, hashes: Seq<u64>, p: usize, q: usize) -> bool {
    prev[p as int].blue_work > prev[q as int].blue_work
        || (prev[p as int].blue_work == prev[q as int].blue_work && hashes[p as int] < hashes[q as int])
}

/// The preferred block among the first `j` of `ps`.
pub open spec fn select_upto(prev: Seq<GhostdagRecord>, hashes: Seq<u64>, ps: Seq<usize>, j: int) -> usize
    decreases j,
{
    if j <= 1 {
        ps[0]
    } else {
        let b = select_upto(prev, hashes, ps, j - 1);
        if prefers(prev, hashes, ps[j - 1], b) { ps[j - 1] } else { b }
    }
}

pub open spec fn selected_parent_of(prev: Seq<GhostdagRecord>, hashes: Seq<u64>, ps: Seq<usize>) -> usize {
    select_upto(prev, hashes, ps, ps.len() as int)
}

/// `x` is merged by a new block with parents `ps` besides its selected
/// parent `sp`: it is in the past of some parent but not in `sp`'s past.
pub open spec fn is_candidate(par: Seq<Seq<usize>>, ps: Seq<usize>, sp: int, x: int) -> bool {
    &&& x != sp
    &&& exists|j: int| 0 <= j < ps.len() && is_ancestor(par, x, #[trigger] ps[j] as int)
    &&& !is_ancestor(par, x, sp)
}

/// The mergeset members other than `sp` among blocks `0 .. m`, in block order.
pub open spec fn candidates_upto(par: Seq<Seq<usize>>, ps: Seq<usize>, sp: int, m: int) -> Seq<usize>
    decreases m,
{
    if m <= 0 {
        seq![]
    } else {
        let s = candidates_upto(par, ps, sp, m - 1);
        if is_candidate(par, ps, sp, m - 1) { s.push((m - 1) as usize) } else { s }
    }
}

/// `s` with `x` inserted before the first member that `x` is preferred to.
pub open spec fn insert_by_preference(prev: Seq<GhostdagRecord>, hashes: Seq<u64>, s: Seq<usize>, x: usize) -> Seq<usize>
    decreases s.len(),
{
    if s.len() == 0 {
        seq![x]
    } else if prefers(prev, hashes, x, s[0]) {
        seq![x] + s
    } else {
        seq![s[0]] + insert_by_preference(prev, hashes, s.drop_first(), x)
    }
}

/// The first `m` members of `s`, most preferred first: greatest blue work,
/// ties going to the smaller hash.
pub open spec fn order_upto(prev: Seq<GhostdagRecord>, hashes: Seq<u64>, s: Seq<usize>, m: int) -> Seq<usize>
    decreases m,
{
    if m <= 0 {
        seq![]
    } else {
        insert_by_preference(prev, hashes, order_upto(prev, hashes, s, m - 1), s[m - 1])
    }
}

pub open spec fn in_anticone(par: Seq<Seq<usize>>, x: int, y: int) -> bool {
    !is_ancestor(par, x, y) && !is_ancestor(par, y, x)
}

/// How many of `bs` lie in the anticone of `x`.
pub open spec fn anticone_count(par: Seq<Seq<usize>>, bs: Seq<usize>, x: int) -> int
    decreases bs.len(),
{
    if bs.len() == 0 {
        0
    } else {
        anticone_count(par, bs.drop_last(), x) + if in_anticone(par, bs.last() as int, x) { 1int } else { 0int }
    }
}

/// The blue past of block `s`: the mergeset blues of `s` and of every block
/// down its selected-parent chain, the oldest first.
pub open spec fn chain_blues(prev: Seq<GhostdagRecord>, s: int) -> Seq<usize>
    decreases s,
{
    if 0 <= s < prev.len() {
        match prev[s].selected_parent {
            Some(p) => if p < s { chain_blues(prev, p as int) + prev[s].blues } else { prev[s].blues },
            None => prev[s].blues,
        }
    } else {
        seq![]
    }
}

/// Every record's selected parent and blues precede its block.
pub open spec fn records_ordered(prev: Seq<GhostdagRecord>) -> bool {
    forall|i: int| 0 <= i < prev.len() ==> {
        &&& ((#[trigger] prev[i]).selected_parent.is_some() ==> prev[i].selected_parent.unwrap() < i)
        &&& forall|j: int| 0 <= j < prev[i].blues.len() ==> #[trigger] prev[i].blues[j] < i
    }
}

/// `x` may join the blue set `bs`: at most `k` of them lie in its anticone,
/// and every one of them in its anticone has fewer than `k` blues in its own.
pub open spec fn may_join(par: Seq<Seq<usize>>, bs: Seq<usize>, x: int, k: int) -> bool {
    &&& anticone_count(par, bs, x) <= k
    &&& forall|i: int| 0 <= i < bs.len() && in_anticone(par, #[trigger] bs[i] as int, x)
        ==> anticone_count(par, bs, bs[i] as int) < k
}

/// Blues and reds after scanning the first `m` candidates.
/// The candidates are checked against the whole blue set of the new block:
/// the blue past `past` of its selected parent followed by the blues chosen
/// so far.
pub open spec fn classify_upto(par: Seq<Seq<usize>>, sp: usize, cands: Seq<usize>, k: int, m: int, past: Seq<usize>)
    -> (Seq<usize>, Seq<usize>)
    decreases m,
{
    if m <= 0 {
        (seq![sp], seq![])
    } else {
        let (b, r) = classify_upto(par, sp, cands, k, m - 1, past);
        let x = cands[m - 1];
        if may_join(par, past + b, x as int, k) { (b.push(x), r) } else { (b, r.push(x)) }
    }
}

/// The anticone counts, over the whole blue set, met while scanning the first `m` candidates.
pub open spec fn sizes_upto(par: Seq<Seq<usize>>, sp: usize, cands: Seq<usize>, k: int, m: int, past: Seq<usize>) -> Seq<usize>
    decreases m,
{
    if m <= 0 {
        seq![]
    } else {
        sizes_upto(par, sp, cands, k, m - 1, past).push(
            anticone_count(par, past + classify_upto(par, sp, cands, k, m - 1, past).0, cands[m - 1] as int) as usize)
    }
}

/// Total work of the blocks `bs`.
pub open spec fn sum_work(works: Seq<u64>, bs: Seq<usize>) -> int
    decreases bs.len(),
{
    if bs.len() == 0 {
        0
    } else {
        sum_work(works, bs.drop_last()) + works[bs.last() as int]
    }
}

/// The GHOSTDAG record of a new block with parents `ps`, appended to the DAG
/// `par`, from the hashes and works of the blocks of `par` and their records
/// `prev`.
pub open spec fn ghostdag_step(
    par: Seq<Seq<usize>>,
    ps: Seq<usize>,
    hashes: Seq<u64>,
    works: Seq<u64>,
    prev: Seq<GhostdagRecord>,
    k: int,
) -> GhostdagRecord {
    if ps.len() == 0 {
        GhostdagRecord {
            selected_parent: None,
            blue_score: 0,
            blue_work: 0,
            blues: seq![],
            reds: seq![],
            anticone_sizes: seq![],
        }
    } else {
        let sp = selected_parent_of(prev, hashes, ps);
        let found = candidates_upto(par, ps, sp as int, par.len() as int);
        let cands = order_upto(prev, hashes, found, found.len() as int);
        let past = chain_blues(prev, sp as int);
        let (blues, reds) = classify_upto(par, sp, cands, k, cands.len() as int, past);
        GhostdagRecord {
            selected_parent: Some(sp),
            blue_score: prev[sp as int].blue_score + blues.len(),
            blue_work: prev[sp as int].blue_work + sum_work(works, blues),
            blues,
            reds,
            anticone_sizes: sizes_upto(par, sp, cands, k, cands.len() as int, past),
        }
    }
}

/// Every record is what `ghostdag_step` gives on the DAG before its block.
pub open spec fn records_wf(par: Seq<Seq<usize>>, hashes: Seq<u64>, works: Seq<u64>, recs: Seq<GhostdagRecord>, k: int) -> bool {
    &&& recs.len() == par.len()
    &&& forall|i: int| 0 <= i < recs.len() ==> #[trigger] recs[i] == ghostdag_step(
        par.take(i), par[i], hashes.take(i), works.take(i), recs.take(i), k)
}

/// Two record sequences that both follow `ghostdag_step` on the same DAG are
/// equal: the records are a function of the DAG, its hashes and works.
pub proof fn lemma_records_unique(
    par: Seq<Seq<usize>>,
    hashes: Seq<u64>,
    works: Seq<u64>,
    r1: Seq<GhostdagRecord>,
    r2: Seq<GhostdagRecord>,
    k: int,
)
    requires
        records_wf(par, hashes, works, r1, k),
        records_wf(par, hashes, works, r2, k),
    ensures
        r1 == r2,
{
    lemma_records_prefix(par, hashes, works, r1, r2, k, r1.len() as int);
    assert(r1.take(r1.len() as int) == r1);
    assert(r2.take(r2.len() as int) == r2);
}

proof fn lemma_records_prefix(
    par: Seq<Seq<usize>>,
    hashes: Seq<u64>,
    works: Seq<u64>,
    r1: Seq<GhostdagRecord>,
    r2: Seq<GhostdagRecord>,
    k: int,
    i: int,
)
    requires
        records_wf(par, hashes, works, r1, k),
        records_wf(par, hashes, works, r2, k),
        0 <= i <= r1.len(),
    ensures
        r1.take(i) == r2.take(i),
    decreases i,
{
    if i == 0 {
        assert(r1.take(0) =~= r2.take(0));
    } else {
        lemma_records_prefix(par, hashes, works, r1, r2, k, i - 1);
        assert(r1[i - 1] == r2[i - 1]);
        assert(r1.take(i) =~= r1.take(i - 1).push(r1[i - 1]));
        assert(r2.take(i) =~= r2.take(i - 1).push(r2[i - 1]));
    }
}

/// The selected parent is one of the parents.
pub proof fn lemma_selected_parent_in(prev: Seq<GhostdagRecord>, hashes: Seq<u64>, ps: Seq<usize>)
    requires
        ps.len() > 0,
    ensures
        ps.contains(selected_parent_of(prev, hashes, ps)),
{
    lemma_select_upto_in(prev, hashes, ps, ps.len() as int);
}

proof fn lemma_select_upto_in(prev: Seq<GhostdagRecord>, hashes: Seq<u64>, ps: Seq<usize>, j: int)
    requires
        0 < j <= ps.len(),
    ensures
        ps.contains(select_upto(prev, hashes, ps, j)),
    decreases j,
{
    if j <= 1 {
        assert(ps[0] == select_upto(prev, hashes, ps, j));
    } else {
        lemma_select_upto_in(prev, hashes, ps, j - 1);
        assert(ps[j - 1] == ps[j - 1]);
    }
}

/// The candidates among blocks `0 .. m` are numbered below `m`.
pub proof fn lemma_candidates_bounded(par: Seq<Seq<usize>>, ps: Seq<usize>, sp: int, m: int)
    requires
        m >= 0,
    ensures
        forall|j: int| 0 <= j < candidates_upto(par, ps, sp, m).len() ==> #[trigger] candidates_upto(par, ps, sp, m)[j] < m,
    decreases m,
{
    if m > 0 {
        lemma_candidates_bounded(par, ps, sp, m - 1);
        let s = candidates_upto(par, ps, sp, m - 1);
        assert(forall|j: int| 0 <= j < s.len() ==> #[trigger] s[j] < m);
        assert(forall|j: int| 0 <= j < s.push((m - 1) as usize).len() ==> #[trigger] s.push((m - 1) as usize)[j] < m);
    }
}

/// Blues and reds are drawn from the selected parent and the candidates.
pub proof fn lemma_classify_bounded(par: Seq<Seq<usize>>, sp: usize, cands: Seq<usize>, k: int, m: int, bound: int, past: Seq<usize>)
    requires
        sp < bound,
        m <= cands.len(),
        forall|j: int| 0 <= j < cands.len() ==> #[trigger] cands[j] < bound,
    ensures
        forall|j: int| 0 <= j < classify_upto(par, sp, cands, k, m, past).0.len() ==> #[trigger] classify_upto(par, sp, cands, k, m, past).0[j] < bound,
        forall|j: int| 0 <= j < classify_upto(par, sp, cands, k, m, past).1.len() ==> #[trigger] classify_upto(par, sp, cands, k, m, past).1[j] < bound,
    decreases m,
{
    if m > 0 {
        lemma_classify_bounded(par, sp, cands, k, m - 1, bound, past);
        let (b, r) = classify_upto(par, sp, cands, k, m - 1, past);
        let x = cands[m - 1];
        assert(forall|j: int| 0 <= j < b.len() ==> #[trigger] b[j] < bound);
        assert(forall|j: int| 0 <= j < r.len() ==> #[trigger] r[j] < bound);
        assert(forall|j: int| 0 <= j < b.push(x).len() ==> #[trigger] b.push(x)[j] < bound);
        assert(forall|j: int| 0 <= j < r.push(x).len() ==> #[trigger] r.push(x)[j] < bound);
    } else {
        assert(classify_upto(par, sp, cands, k, m, past).0 == seq![sp]);
    }
}

proof fn lemma_insert_at(prev: Seq<GhostdagRecord>, hashes: Seq<u64>, s: Seq<usize>, x: usize, i: int)
    requires
        0 <= i <= s.len(),
        forall|j: int| 0 <= j < i ==> !prefers(prev, hashes, x, #[trigger] s[j]),
        i < s.len() ==> prefers(prev, hashes, x, s[i]),
    ensures
        insert_by_preference(prev, hashes, s, x) == s.insert(i, x),
    decreases s.len(),
{
    if s.len() == 0 {
        assert(s.insert(i, x) =~= seq![x]);
    } else if i == 0 {
        assert(s.insert(i, x) =~= seq![x] + s);
    } else {
        assert(!prefers(prev, hashes, x, s[0]));
        let t = s.drop_first();
        assert forall|j: int| 0 <= j < i - 1 implies !prefers(prev, hashes, x, #[trigger] t[j]) by {
            assert(t[j] == s[j + 1]);
        }
        lemma_insert_at(prev, hashes, t, x, i - 1);
        assert(s.insert(i, x) =~= seq![s[0]] + t.insert(i - 1, x));
    }
}

proof fn lemma_insert_bounded(prev: Seq<GhostdagRecord>, hashes: Seq<u64>, s: Seq<usize>, x: usize, bound: int)
    requires
        x < bound,
        forall|j: int| 0 <= j < s.len() ==> #[trigger] s[j] < bound,
    ensures
        forall|j: int| 0 <= j < insert_by_preference(prev, hashes, s, x).len()
            ==> #[trigger] insert_by_preference(prev, hashes, s, x)[j] < bound,
        insert_by_preference(prev, hashes, s, x).len() == s.len() + 1,
    decreases s.len(),
{
    if s.len() > 0 && !prefers(prev, hashes, x, s[0]) {
        let t = s.drop_first();
        assert(forall|j: int| 0 <= j < t.len() ==> #[trigger] t[j] == s[j + 1]);
        lemma_insert_bounded(prev, hashes, t, x, bound);
        let r = insert_by_preference(prev, hashes, t, x);
        assert(forall|j: int| 0 < j < r.len() + 1 ==> #[trigger] (seq![s[0]] + r)[j] == r[j - 1]);
    }
}

/// Ordering keeps the number of members and draws them from the input.
pub proof fn lemma_order_bounded(prev: Seq<GhostdagRecord>, hashes: Seq<u64>, s: Seq<usize>, m: int, bound: int)
    requires
        0 <= m <= s.len(),
        forall|j: int| 0 <= j < s.len() ==> #[trigger] s[j] < bound,
    ensures
        forall|j: int| 0 <= j < order_upto(prev, hashes, s, m).len() ==> #[trigger] order_upto(prev, hashes, s, m)[j] < bound,
        order_upto(prev, hashes, s, m).len() == m,
    decreases m,
{
    if m > 0 {
        lemma_order_bounded(prev, hashes, s, m - 1, bound);
        lemma_insert_bounded(prev, hashes, order_upto(prev, hashes, s, m - 1), s[m - 1], bound);
    }
}

/// Orders mergeset members most preferred first.
pub fn order_by_preference(cands: &Vec<usize>, gd: &Vec<GhostdagData>, hashes: &Vec<u64>) -> (r: Vec<usize>)
    requires
        forall|j: int| 0 <= j < cands@.len() ==> #[trigger] cands@[j] < gd@.len() && cands@[j] < hashes@.len(),
    ensures
        r@ == order_upto(records(gd@), hashes@, cands@, cands@.len() as int),
        forall|j: int| 0 <= j < r@.len() ==> #[trigger] r@[j] < gd@.len() && r@[j] < hashes@.len(),
{
    let ghost prev = records(gd@);
    let mut out: Vec<usize> = Vec::new();
    let mut m: usize = 0;
    while m < cands.len()
        invariant
            forall|j: int| 0 <= j < cands@.len() ==> #[trigger] cands@[j] < gd@.len() && cands@[j] < hashes@.len(),
            m <= cands@.len(),
            prev == records(gd@),
            out@ == order_upto(prev, hashes@, cands@, m as int),
            forall|j: int| 0 <= j < out@.len() ==> #[trigger] out@[j] < gd@.len() && out@[j] < hashes@.len(),
        decreases cands.len() - m,
    {
        let x = cands[m];
        let bx = gd[x].blue_work;
        let mut i: usize = 0;
        let mut placed = false;
        while !placed && i < out.len()
            invariant
                placed ==> i < out@.len() && prefers(prev, hashes@, x, out@[i as int]),
                forall|j: int| 0 <= j < out@.len() ==> #[trigger] out@[j] < gd@.len() && out@[j] < hashes@.len(),
                x < gd@.len(),
                x < hashes@.len(),
                bx == gd@[x as int].blue_work,
                prev == records(gd@),
                i <= out@.len(),
                forall|j: int| 0 <= j < i ==> !prefers(prev, hashes@, x, #[trigger] out@[j]),
            decreases out.len() - i + if placed { 0int } else { 1int },
        {
            let y = out[i];
            let by = gd[y].blue_work;
            assert(prev[x as int] == gd@[x as int]@ && prev[y as int] == gd@[y as int]@);
            if bx > by || (bx == by && hashes[x] < hashes[y]) {
                placed = true;
            } else {
                i = i + 1;
            }
        }
        proof {
            lemma_insert_at(prev, hashes@, out@, x, i as int);
        }
        out.insert(i, x);
        m = m + 1;
    }
    out
}

/// Picks the selected parent among `parents`.
pub fn select_parent(parents: &Vec<usize>, gd: &Vec<GhostdagData>, hashes: &Vec<u64>) -> (r: usize)
    requires
        parents@.len() > 0,
        forall|j: int| 0 <= j < parents@.len() ==> #[trigger] parents@[j] < gd@.len() && parents@[j] < hashes@.len(),
    ensures
        r == selected_parent_of(records(gd@), hashes@, parents@),
        parents@.contains(r),
{
    let ghost prev = records(gd@);
    let mut best = parents[0];
    let mut j: usize = 1;
    while j < parents.len()
        invariant
            1 <= j <= parents@.len(),
            forall|j: int| 0 <= j < parents@.len() ==> #[trigger] parents@[j] < gd@.len() && parents@[j] < hashes@.len(),
            best == select_upto(prev, hashes@, parents@, j as int),
            parents@.contains(best),
            prev == records(gd@),
        decreases parents.len() - j,
    {
        let p = parents[j];
        assert(parents@[j as int] == p);
        let bp = gd[p].blue_work;
        let bb = gd[best].blue_work;
        if bp > bb || (bp == bb && hashes[p] < hashes[best]) {
            best = p;
        }
        j = j + 1;
    }
    best
}

/// Collects the mergeset members, other than the selected parent `sp`, of a
/// new block with parents `parents`.
pub fn mergeset_candidates(reach: &ReachabilityStore, Ghost(par): Ghost<Seq<Seq<usize>>>, parents: &Vec<usize>, sp: usize)
    -> (r: Vec<usize>)
    requires
        reach.wf(par),
        sp < par.len(),
        forall|j: int| 0 <= j < parents@.len() ==> #[trigger] parents@[j] < par.len(),
    ensures
        r@ == candidates_upto(par, parents@, sp as int, par.len() as int),
        forall|j: int| 0 <= j < r@.len() ==> #[trigger] r@[j] < par.len(),
{
    let n = reach.intervals.len();
    let mut out: Vec<usize> = Vec::new();
    let mut x: usize = 0;
    while x < n
        invariant
            reach.wf(par),
            n == par.len(),
            sp < par.len(),
            forall|j: int| 0 <= j < parents@.len() ==> #[trigger] parents@[j] < par.len(),
            x <= n,
            out@ == candidates_upto(par, parents@, sp as int, x as int),
            forall|j: int| 0 <= j < out@.len() ==> #[trigger] out@[j] < x,
        decreases n - x,
    {
        let mut in_past = false;
        let mut j: usize = 0;
        while j < parents.len()
            invariant
                reach.wf(par),
                x < n,
                n == par.len(),
                forall|j: int| 0 <= j < parents@.len() ==> #[trigger] parents@[j] < par.len(),
                j <= parents@.len(),
                in_past == exists|jj: int| 0 <= jj < j && is_ancestor(par, x as int, #[trigger] parents@[jj] as int),
            decreases parents.len() - j,
        {
            if reach.is_dag_ancestor_of(Ghost(par), x, parents[j]) {
                in_past = true;
            }
            j = j + 1;
        }
        if x != sp && in_past && !reach.is_dag_ancestor_of(Ghost(par), x, sp) {
            out.push(x);
        }
        x = x + 1;
    }
    out
}

fn anticone_count_exec(reach: &ReachabilityStore, Ghost(par): Ghost<Seq<Seq<usize>>>, bs: &Vec<usize>, x: usize) -> (r: usize)
    requires
        reach.wf(par),
        x < par.len(),
        forall|j: int| 0 <= j < bs@.len() ==> #[trigger] bs@[j] < par.len(),
    ensures
        r == anticone_count(par, bs@, x as int),
{
    let mut count: usize = 0;
    let mut j: usize = 0;
    while j < bs.len()
        invariant
            reach.wf(par),
            x < par.len(),
            forall|j: int| 0 <= j < bs@.len() ==> #[trigger] bs@[j] < par.len(),
            j <= bs@.len(),
            count <= j,
            count == anticone_count(par, bs@.take(j as int), x as int),
        decreases bs.len() - j,
    {
        let b = bs[j];
        assert(bs@.take(j as int + 1).drop_last() == bs@.take(j as int));
        if !reach.is_dag_ancestor_of(Ghost(par), b, x) && !reach.is_dag_ancestor_of(Ghost(par), x, b) {
            count = count + 1;
        }
        j = j + 1;
    }
    assert(bs@.take(bs@.len() as int) == bs@);
    count
}

/// Whether every blue in the anticone of `x` has fewer than `k` blues in its own.
fn blues_keep_bound(reach: &ReachabilityStore, Ghost(par): Ghost<Seq<Seq<usize>>>, bs: &Vec<usize>, x: usize, k: u64) -> (r: bool)
    requires
        reach.wf(par),
        x < par.len(),
        forall|j: int| 0 <= j < bs@.len() ==> #[trigger] bs@[j] < par.len(),
    ensures
        r == forall|i: int| 0 <= i < bs@.len() && in_anticone(par, #[trigger] bs@[i] as int, x as int)
            ==> anticone_count(par, bs@, bs@[i] as int) < k,
{
    let mut i: usize = 0;
    while i < bs.len()
        invariant
            reach.wf(par),
            x < par.len(),
            forall|j: int| 0 <= j < bs@.len() ==> #[trigger] bs@[j] < par.len(),
            i <= bs@.len(),
            forall|j: int| 0 <= j < i && in_anticone(par, #[trigger] bs@[j] as int, x as int)
                ==> anticone_count(par, bs@, bs@[j] as int) < k,
        decreases bs.len() - i,
    {
        let b = bs[i];
        if !reach.is_dag_ancestor_of(Ghost(par), b, x) && !reach.is_dag_ancestor_of(Ghost(par), x, b) {
            let cb = anticone_count_exec(reach, Ghost(par), bs, b);
            if (cb as u128) >= (k as u128) {
                assert(in_anticone(par, bs@[i as int] as int, x as int));
                return false;
            }
        }
        i = i + 1;
    }
    true
}

/// If every member of the blue past of the selected parent, with the selected
/// parent added, has at most `k` of them in its anticone, then every member of
/// the new block's whole blue set has at most `k` of that set in its anticone.
pub proof fn lemma_blues_within_k(par: Seq<Seq<usize>>, sp: usize, cands: Seq<usize>, k: int, m: int, past: Seq<usize>)
    requires
        sp < par.len(),
        k >= 0,
        0 <= m <= cands.len(),
        forall|j: int| 0 <= j < cands.len() ==> #[trigger] cands[j] < par.len(),
        forall|j: int| 0 <= j < past.len() ==> #[trigger] past[j] < par.len(),
        forall|i: int| 0 <= i < past.len() + 1
            ==> anticone_count(par, past.push(sp), #[trigger] past.push(sp)[i] as int) <= k,
    ensures
        ({
            let all = past + classify_upto(par, sp, cands, k, m, past).0;
            &&& forall|j: int| 0 <= j < all.len() ==> #[trigger] all[j] < par.len()
            &&& forall|i: int| 0 <= i < all.len() ==> anticone_count(par, all, #[trigger] all[i] as int) <= k
        }),
    decreases m,
{
    if m == 0 {
        assert(past + seq![sp] =~= past.push(sp));
    } else {
        lemma_blues_within_k(par, sp, cands, k, m - 1, past);
        let b = classify_upto(par, sp, cands, k, m - 1, past).0;
        let all = past + b;
        let x = cands[m - 1];
        if may_join(par, all, x as int, k) {
            let na = all.push(x);
            assert(past + b.push(x) =~= na);
            assert(na.drop_last() =~= all);
            assert(is_ancestor(par, x as int, x as int));
            assert forall|i: int| 0 <= i < na.len() implies anticone_count(par, na, #[trigger] na[i] as int) <= k by {
                if i < all.len() {
                    assert(na[i] == all[i]);
                    if in_anticone(par, x as int, all[i] as int) {
                        assert(in_anticone(par, all[i] as int, x as int));
                    }
                }
            }
            assert forall|j: int| 0 <= j < na.len() implies #[trigger] na[j] < par.len() by {
                if j < all.len() {
                    assert(na[j] == all[j]);
                }
            }
        }
    }
}

/// The blue past of a block lies before it.
pub proof fn lemma_chain_bounded(prev: Seq<GhostdagRecord>, s: int)
    requires
        records_ordered(prev),
    ensures
        forall|j: int| 0 <= j < chain_blues(prev, s).len() ==> #[trigger] chain_blues(prev, s)[j] < s,
    decreases s,
{
    if 0 <= s < prev.len() {
        let r = prev[s];
        if r.selected_parent.is_some() && r.selected_parent.unwrap() < s {
            let p = r.selected_parent.unwrap() as int;
            lemma_chain_bounded(prev, p);
            let c = chain_blues(prev, p);
            assert forall|j: int| 0 <= j < (c + r.blues).len() implies #[trigger] (c + r.blues)[j] < s by {
                if j >= c.len() {
                    assert((c + r.blues)[j] == r.blues[j - c.len()]);
                } else {
                    assert((c + r.blues)[j] == c[j]);
                }
            }
        }
    }
}

/// The blue past of block `s` depends on the records up to `s` alone.
pub proof fn lemma_chain_prefix(prev: Seq<GhostdagRecord>, m: int, s: int)
    requires
        0 <= s < m <= prev.len(),
    ensures
        chain_blues(prev.take(m), s) == chain_blues(prev, s),
    decreases s,
{
    assert(prev.take(m)[s] == prev[s]);
    let r = prev[s];
    if r.selected_parent.is_some() && r.selected_parent.unwrap() < s {
        lemma_chain_prefix(prev, m, r.selected_parent.unwrap() as int);
    }
}

/// Collects the blue past of block `s` by walking its selected-parent chain.
fn chain_blues_exec(gd: &Vec<GhostdagData>, s: usize) -> (r: Vec<usize>)
    requires
        s < gd@.len(),
        records_ordered(records(gd@)),
    ensures
        r@ == chain_blues(records(gd@), s as int),
        forall|j: int| 0 <= j < r@.len() ==> #[trigger] r@[j] < s,
{
    let ghost prev = records(gd@);
    let mut acc: Vec<usize> = Vec::new();
    let mut cur: usize = s;
    let mut done = false;
    while !done
        invariant
            cur < gd@.len(),
            prev == records(gd@),
            records_ordered(prev),
            !done ==> chain_blues(prev, s as int) == chain_blues(prev, cur as int) + acc@,
            done ==> chain_blues(prev, s as int) == acc@,
        decreases cur + if done { 0int } else { 1int },
    {
        assert(prev[cur as int] == gd@[cur as int]@);
        let mut v = gd[cur].mergeset_blues.clone();
        v.append(&mut acc);
        acc = v;
        match gd[cur].selected_parent {
            Some(p) => {
                assert(p < cur);
                assert(chain_blues(prev, cur as int) == chain_blues(prev, p as int) + prev[cur as int].blues);
                assert(chain_blues(prev, s as int) =~= chain_blues(prev, p as int) + acc@);
                cur = p;
            },
            None => {
                assert(chain_blues(prev, s as int) =~= acc@);
                done = true;
            },
        }
    }
    proof {
        lemma_chain_bounded(prev, s as int);
    }
    acc
}

/// Splits the mergeset `sp` followed by `cands` into blues and reds, checking
/// each candidate against the blue past `past` of `sp` and the blues so far.
pub fn classify(
    reach: &ReachabilityStore,
    Ghost(par): Ghost<Seq<Seq<usize>>>,
    sp: usize,
    cands: &Vec<usize>,
    k: u64,
    past: &Vec<usize>,
) -> (r: (Vec<usize>, Vec<usize>, Vec<usize>))
    requires
        reach.wf(par),
        sp < par.len(),
        forall|j: int| 0 <= j < cands@.len() ==> #[trigger] cands@[j] < par.len(),
        forall|j: int| 0 <= j < past@.len() ==> #[trigger] past@[j] < par.len(),
    ensures
        (r.0@, r.1@) == classify_upto(par, sp, cands@, k as int, cands@.len() as int, past@),
        forall|j: int| 0 <= j < r.0@.len() ==> #[trigger] r.0@[j] < par.len(),
        r.2@ == sizes_upto(par, sp, cands@, k as int, cands@.len() as int, past@),
{
    let mut blues: Vec<usize> = vec![sp];
    let mut all: Vec<usize> = past.clone();
    all.push(sp);
    let mut reds: Vec<usize> = Vec::new();
    let mut sizes: Vec<usize> = Vec::new();
    let mut m: usize = 0;
    assert(all@ =~= past@ + blues@);
    while m < cands.len()
        invariant
            reach.wf(par),
            sp < par.len(),
            forall|j: int| 0 <= j < cands@.len() ==> #[trigger] cands@[j] < par.len(),
            forall|j: int| 0 <= j < past@.len() ==> #[trigger] past@[j] < par.len(),
            m <= cands@.len(),
            (blues@, reds@) == classify_upto(par, sp, cands@, k as int, m as int, past@),
            sizes@ == sizes_upto(par, sp, cands@, k as int, m as int, past@),
            all@ == past@ + blues@,
            forall|j: int| 0 <= j < blues@.len() ==> #[trigger] blues@[j] < par.len(),
        decreases cands.len() - m,
    {
        let x = cands[m];
        assert forall|j: int| 0 <= j < all@.len() implies #[trigger] all@[j] < par.len() by {
            if j >= past@.len() {
                assert(all@[j] == blues@[j - past@.len()]);
            }
        }
        let c = anticone_count_exec(reach, Ghost(par), &all, x);
        sizes.push(c);
        if (c as u128) <= (k as u128) && blues_keep_bound(reach, Ghost(par), &all, x, k) {
            blues.push(x);
            all.push(x);
            assert(all@ =~= past@ + blues@);
        } else {
            reds.push(x);
        }
        m = m + 1;
    }
    (blues, reds, sizes)
}

proof fn lemma_sum_work_prefix(works: Seq<u64>, bs: Seq<usize>, m: int)
    requires
        0 <= m <= bs.len(),
    ensures
        sum_work(works, bs.take(m)) <= sum_work(works, bs),
        sum_work(works, bs.take(m)) >= 0,
    decreases bs.len(),
{
    if bs.len() > 0 {
        if m == bs.len() {
            assert(bs.take(m) == bs);
            lemma_sum_work_prefix(works, bs.drop_last(), m - 1);
        } else {
            assert(bs.take(m) == bs.drop_last().take(m));
            lemma_sum_work_prefix(works, bs.drop_last(), m);
        }
    } else {
        assert(bs.take(m) == bs);
    }
}

/// `base` plus the work of the blocks `bs`, or `None` past `u128::MAX`.
fn add_work(base: u128, works: &Vec<u64>, bs: &Vec<usize>) -> (r: Option<u128>)
    requires
        forall|j: int| 0 <= j < bs@.len() ==> #[trigger] bs@[j] < works@.len(),
    ensures
        r.is_none() <==> base + sum_work(works@, bs@) > u128::MAX,
        r.is_some() ==> r.unwrap() == base + sum_work(works@, bs@),
{
    let mut acc: u128 = base;
    let mut j: usize = 0;
    while j < bs.len()
        invariant
            forall|j: int| 0 <= j < bs@.len() ==> #[trigger] bs@[j] < works@.len(),
            j <= bs@.len(),
            acc == base + sum_work(works@, bs@.take(j as int)),
        decreases bs.len() - j,
    {
        let w = works[bs[j]] as u128;
        assert(bs@.take(j as int + 1).drop_last() == bs@.take(j as int));
        if acc > u128::MAX - w {
            proof {
                lemma_sum_work_prefix(works@, bs@, j as int + 1);
            }
            return None;
        }
        acc = acc + w;
        j = j + 1;
    }
    assert(bs@.take(bs@.len() as int) == bs@);
    Some(acc)
}

/// Computes the GHOSTDAG record of a new block with parents `parents` on the
/// DAG `par`, indexed by `reach`. `None` when its blue score would not fit in
/// a `u64` or its blue work in a `u128`.
pub fn compute_ghostdag(
    reach: &ReachabilityStore,
    Ghost(par): Ghost<Seq<Seq<usize>>>,
    parents: &Vec<usize>,
    gd: &Vec<GhostdagData>,
    hashes: &Vec<u64>,
    works: &Vec<u64>,
    k: u64,
) -> (r: Option<GhostdagData>)
    requires
        reach.wf(par),
        parents@.len() > 0,
        forall|j: int| 0 <= j < parents@.len() ==> #[trigger] parents@[j] < par.len(),
        gd@.len() == par.len(),
        hashes@.len() == par.len(),
        works@.len() == par.len(),
        records_ordered(records(gd@)),
    ensures
        ({
            let g = ghostdag_step(par, parents@, hashes@, works@, records(gd@), k as int);
            &&& r.is_none() <==> (g.blue_score > u64::MAX || g.blue_work > u128::MAX)
            &&& r.is_some() ==> r.unwrap()@ == g
        }),
{
    let ghost g = ghostdag_step(par, parents@, hashes@, works@, records(gd@), k as int);
    let sp = select_parent(parents, gd, hashes);
    let found = mergeset_candidates(reach, Ghost(par), parents, sp);
    let cands = order_by_preference(&found, gd, hashes);
    let past = chain_blues_exec(gd, sp);
    let (blues, reds, sizes) = classify(reach, Ghost(par), sp, &cands, k, &past);
    assert(blues@ == g.blues);
    assert(records(gd@)[sp as int] == gd@[sp as int]@);
    let base = &gd[sp];
    let count = blues.len();
    if base.blue_score as u128 + count as u128 > u64::MAX as u128 {
        return None;
    }
    let blue_score = base.blue_score + count as u64;
    let blue_work = match add_work(base.blue_work, works, &blues) {
        Some(w) => w,
        None => {
            return None;
        },
    };
    Some(GhostdagData {
        selected_parent: Some(sp),
        blue_score,
        blue_work,
        mergeset_blues: blues,
        mergeset_reds: reds,
        mergeset_anticone_sizes: sizes,
    })
}

/// Ancestry among the first `m` blocks does not depend on later blocks.
pub proof fn lemma_ancestor_prefix(par: Seq<Seq<usize>>, m: int, a: int, b: int)
    requires
        0 <= b < m <= par.len(),
    ensures
        is_ancestor(par.take(m), a, b) == is_ancestor(par, a, b),
    decreases par.len() - m,
{
    if m < par.len() {
        crate::dag::lemma_ancestor_extend(par.take(m), par[m], a, b);
        assert(par.take(m).push(par[m]) =~= par.take(m + 1));
        lemma_ancestor_prefix(par, m + 1, a, b);
    } else {
        assert(par.take(m) =~= par);
    }
}

/// Anticone counts among the first `m` blocks do not depend on later blocks.
pub proof fn lemma_anticone_prefix(par: Seq<Seq<usize>>, m: int, bs: Seq<usize>, y: int)
    requires
        0 <= y < m <= par.len(),
        forall|j: int| 0 <= j < bs.len() ==> #[trigger] bs[j] < m,
    ensures
        anticone_count(par.take(m), bs, y) == anticone_count(par, bs, y),
    decreases bs.len(),
{
    if bs.len() > 0 {
        let t = bs.drop_last();
        assert(forall|j: int| 0 <= j < t.len() ==> #[trigger] t[j] == bs[j]);
        lemma_anticone_prefix(par, m, t, y);
        assert(bs.last() == bs[bs.len() - 1]);
        lemma_ancestor_prefix(par, m, bs.last() as int, y);
        lemma_ancestor_prefix(par, m, y, bs.last() as int);
    }
}

/// No member of `bs` is in the anticone of `y` when all are its ancestors.
pub proof fn lemma_anticone_of_ancestors(par: Seq<Seq<usize>>, bs: Seq<usize>, y: int)
    requires
        forall|j: int| 0 <= j < bs.len() ==> is_ancestor(par, #[trigger] bs[j] as int, y),
    ensures
        anticone_count(par, bs, y) == 0,
    decreases bs.len(),
{
    if bs.len() > 0 {
        let t = bs.drop_last();
        assert(forall|j: int| 0 <= j < t.len() ==> #[trigger] t[j] == bs[j]);
        lemma_anticone_of_ancestors(par, t, y);
        assert(is_ancestor(par, bs[bs.len() - 1] as int, y));
    }
}

/// Every blue of the scan is the selected parent or a candidate.
pub proof fn lemma_classify_members(par: Seq<Seq<usize>>, sp: usize, cands: Seq<usize>, k: int, m: int, past: Seq<usize>)
    requires
        0 <= m <= cands.len(),
    ensures
        forall|j: int| 0 <= j < classify_upto(par, sp, cands, k, m, past).0.len() ==> {
            let y = #[trigger] classify_upto(par, sp, cands, k, m, past).0[j];
            y == sp || cands.contains(y)
        },
    decreases m,
{
    if m == 0 {
        assert(classify_upto(par, sp, cands, k, m, past).0 == seq![sp]);
    } else {
        lemma_classify_members(par, sp, cands, k, m - 1, past);
        let b = classify_upto(par, sp, cands, k, m - 1, past).0;
        let x = cands[m - 1];
        assert(cands.contains(x));
        assert(forall|j: int| 0 <= j < b.len() ==> #[trigger] b.push(x)[j] == b[j]);
    }
}

proof fn lemma_insert_members(prev: Seq<GhostdagRecord>, hashes: Seq<u64>, s: Seq<usize>, x: usize)
    ensures
        forall|j: int| 0 <= j < insert_by_preference(prev, hashes, s, x).len() ==> {
            let y = #[trigger] insert_by_preference(prev, hashes, s, x)[j];
            y == x || s.contains(y)
        },
    decreases s.len(),
{
    if s.len() > 0 && !prefers(prev, hashes, x, s[0]) {
        let t = s.drop_first();
        lemma_insert_members(prev, hashes, t, x);
        let r = insert_by_preference(prev, hashes, t, x);
        assert forall|j: int| 0 <= j < (seq![s[0]] + r).len() implies {
            let y = #[trigger] (seq![s[0]] + r)[j];
            y == x || s.contains(y)
        } by {
            if j == 0 {
                assert(s.contains(s[0]));
            } else {
                let y = r[j - 1];
                assert((seq![s[0]] + r)[j] == y);
                if y != x {
                    let q = choose|q: int| 0 <= q < t.len() && t[q] == y;
                    assert(s[q + 1] == y);
                }
            }
        }
    } else if s.len() > 0 {
        assert forall|j: int| 0 <= j < (seq![x] + s).len() implies {
            let y = #[trigger] (seq![x] + s)[j];
            y == x || s.contains(y)
        } by {
            if j > 0 {
                assert((seq![x] + s)[j] == s[j - 1]);
            }
        }
    }
}

/// Ordering draws its members from the input.
pub proof fn lemma_order_members(prev: Seq<GhostdagRecord>, hashes: Seq<u64>, s: Seq<usize>, m: int)
    requires
        0 <= m <= s.len(),
    ensures
        forall|j: int| 0 <= j < order_upto(prev, hashes, s, m).len() ==> s.contains(#[trigger] order_upto(prev, hashes, s, m)[j]),
    decreases m,
{
    if m > 0 {
        lemma_order_members(prev, hashes, s, m - 1);
        let o = order_upto(prev, hashes, s, m - 1);
        lemma_insert_members(prev, hashes, o, s[m - 1]);
        assert(s.contains(s[m - 1]));
        assert forall|j: int| 0 <= j < order_upto(prev, hashes, s, m).len()
            implies s.contains(#[trigger] order_upto(prev, hashes, s, m)[j]) by {
            let y = order_upto(prev, hashes, s, m)[j];
            if y != s[m - 1] {
                let q = choose|q: int| 0 <= q < o.len() && o[q] == y;
                assert(s.contains(o[q]));
            }
        }
    }
}

/// Every candidate is merged by the new block.
pub proof fn lemma_candidates_merged(par: Seq<Seq<usize>>, ps: Seq<usize>, sp: int, m: int)
    requires
        0 <= m <= usize::MAX,
    ensures
        forall|j: int| 0 <= j < candidates_upto(par, ps, sp, m).len()
            ==> is_candidate(par, ps, sp, #[trigger] candidates_upto(par, ps, sp, m)[j] as int),
    decreases m,
{
    if m > 0 {
        lemma_candidates_merged(par, ps, sp, m - 1);
        let c = candidates_upto(par, ps, sp, m - 1);
        assert(forall|j: int| 0 <= j < c.len() ==> #[trigger] c.push((m - 1) as usize)[j] == c[j]);
    }
}

} // verus!
