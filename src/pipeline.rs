//! The header processor: the single writer of every store. For each header it
//! checks the parents, computes the GHOSTDAG record, extends the reachability
//! index, registers the relations and finally marks the block's status.
use vstd::prelude::*;
use crate::dag::{is_ancestor, parents_wf};
use crate::ghostdag::{
    anticone_count, chain_blues, compute_ghostdag, ghostdag_step, lemma_anticone_of_ancestors,
    lemma_anticone_prefix, lemma_chain_bounded, lemma_chain_prefix, lemma_records_unique, records,
    records_wf, GhostdagData, GhostdagRecord,
};
use crate::model::{
    BlockStatus, BlockTask, Header, Params, ProcessOutcome, ProcessingCounters, RuleError, WorkerAction,
};
use crate::reachability::{strictly_inside, ReachabilityStore, MIN_ROOM, REINDEX_SLACK, ROOT_END};

verus! {

/// All per-block stores, indexed by block number (the order of acceptance).
pub struct HeaderProcessor {
    pub hashes: Vec<u64>,
    pub works: Vec<u64>,
    pub parents: Vec<Vec<usize>>,
    pub children: Vec<Vec<usize>>,
    pub statuses: Vec<BlockStatus>,
    pub reachability: ReachabilityStore,
    pub ghostdag: Vec<GhostdagData>,
    pub k: u64,
}

/// Up to this many blocks the reachability index always finds room: each
/// block costs at most one reindex, and `ROOT_END` plus that many reindexes
/// stays within `u64`.
pub const ROOM_BLOCKS: u64 = 13194139533311;

/// The number of the block with hash `h` among `hashes`.
pub open spec fn block_index(hashes: Seq<u64>, h: u64) -> int {
    choose|i: int| 0 <= i < hashes.len() && hashes[i] == h
}

pub open spec fn hashes_unique(hashes: Seq<u64>) -> bool {
    forall|i: int, j: int| 0 <= i < hashes.len() && 0 <= j < hashes.len() && i != j ==> hashes[i] != hashes[j]
}

fn vec_contains(v: &Vec<usize>, x: usize) -> (r: bool)
    ensures
        r == v@.contains(x),
{
    let mut i: usize = 0;
    while i < v.len()
        invariant
            i <= v@.len(),
            forall|j: int| 0 <= j < i ==> v@[j] != x,
        decreases v.len() - i,
    {
        if v[i] == x {
            assert(v@[i as int] == x);
            return true;
        }
        i = i + 1;
    }
    false
}

fn same_hashes(a: &Vec<u64>, b: &Vec<u64>) -> (r: bool)
    ensures
        r == (a@ == b@),
{
    if a.len() != b.len() {
        return false;
    }
    let mut i: usize = 0;
    while i < a.len()
        invariant
            a@.len() == b@.len(),
            i <= a@.len(),
            forall|j: int| 0 <= j < i ==> a@[j] == b@[j],
        decreases a.len() - i,
    {
        if a[i] != b[i] {
            return false;
        }
        i = i + 1;
    }
    assert(a@ =~= b@);
    true
}

impl HeaderProcessor {
    /// The parent lists of the DAG.
    pub open spec fn dag(&self) -> Seq<Seq<usize>> {
        self.parents@.map_values(|v: Vec<usize>| v@)
    }

    pub open spec fn len(&self) -> int {
        self.hashes@.len() as int
    }

    pub open spec fn knows(&self, h: u64) -> bool {
        self.hashes@.contains(h)
    }

    pub open spec fn index(&self, h: u64) -> int {
        block_index(self.hashes@, h)
    }

    /// The parents of a header, as block numbers.
    pub open spec fn parent_indices(&self, h: Seq<u64>) -> Seq<usize> {
        h.map_values(|x: u64| block_index(self.hashes@, x) as usize)
    }

    /// The GHOSTDAG record that a header with these parents would receive.
    pub open spec fn next_record(&self, h: Seq<u64>) -> GhostdagRecord {
        ghostdag_step(self.dag(), self.parent_indices(h), self.hashes@, self.works@, records(self.ghostdag@), self.k as int)
    }

    pub open spec fn wf(&self) -> bool {
        let n = self.len();
        let dag = self.dag();
        &&& n >= 1
        &&& self.works@.len() == n
        &&& self.parents@.len() == n
        &&& self.children@.len() == n
        &&& self.statuses@.len() == n
        &&& self.ghostdag@.len() == n
        &&& hashes_unique(self.hashes@)
        &&& dag[0].len() == 0
        &&& forall|i: int| 0 < i < n ==> (#[trigger] dag[i]).len() > 0
        &&& parents_wf(dag)
        &&& self.reachability.wf(dag)
        &&& records_wf(dag, self.hashes@, self.works@, records(self.ghostdag@), self.k as int)
        &&& forall|i: int| 0 <= i < n ==> #[trigger] self.reachability.tree_parents@[i] == self.ghostdag@[i].selected_parent
        &&& forall|a: int, j: int| 0 <= a < n && 0 <= j < self.children@[a]@.len() ==> #[trigger] self.children@[a]@[j] < n
        &&& forall|a: int, c: int| 0 <= a < n && 0 <= c < n ==>
            (#[trigger] self.children@[a]@.contains(c as usize) <==> dag[c].contains(a as usize))
        &&& forall|i: int| 0 <= i < n ==> #[trigger] self.statuses@[i] == BlockStatus::StatusHeaderOnly
        &&& self.reachability.bound <= ROOT_END + (n - 1) * REINDEX_SLACK
    }

    /// The stores after genesis, the one block without parents.
    pub fn new(params: &Params) -> (r: Self)
        ensures
            r.wf(),
            r.hashes@ == seq![params.genesis_hash],
            r.works@ == seq![params.genesis_work],
            r.k == params.ghostdag_k,
            r.reachability.bound == ROOT_END,
    {
        let mut parents: Vec<Vec<usize>> = Vec::new();
        parents.push(Vec::new());
        let mut children: Vec<Vec<usize>> = Vec::new();
        children.push(Vec::new());
        let genesis = GhostdagData {
            selected_parent: None,
            blue_score: 0,
            blue_work: 0,
            mergeset_blues: Vec::new(),
            mergeset_reds: Vec::new(),
            mergeset_anticone_sizes: Vec::new(),
        };
        let mut ghostdag: Vec<GhostdagData> = Vec::new();
        ghostdag.push(genesis);
        let r = HeaderProcessor {
            hashes: vec![params.genesis_hash],
            works: vec![params.genesis_work],
            parents,
            children,
            statuses: vec![BlockStatus::StatusHeaderOnly],
            reachability: ReachabilityStore::new_with_root(),
            ghostdag,
            k: params.ghostdag_k,
        };
        proof {
            assert(r.dag() =~= seq![Seq::<usize>::empty()]);
            let recs = records(r.ghostdag@);
            assert(recs[0] == ghostdag_step(r.dag().take(0), r.dag()[0], r.hashes@.take(0), r.works@.take(0), recs.take(0), r.k as int));
        }
        r
    }

    /// The number of the block with hash `h`, if it is known.
    pub fn index_of(&self, h: u64) -> (r: Option<usize>)
        requires
            hashes_unique(self.hashes@),
        ensures
            r.is_some() <==> self.knows(h),
            r.is_some() ==> r.unwrap() == self.index(h) && r.unwrap() < self.len(),
    {
        let mut i: usize = 0;
        while i < self.hashes.len()
            invariant
                hashes_unique(self.hashes@),
                i <= self.hashes@.len(),
                forall|j: int| 0 <= j < i ==> self.hashes@[j] != h,
            decreases self.hashes.len() - i,
        {
            if self.hashes[i] == h {
                assert(self.hashes@[i as int] == h);
                let ghost c = block_index(self.hashes@, h);
                assert(0 <= c < self.hashes@.len() && self.hashes@[c] == h);
                assert(c == i as int);
                return Some(i);
            }
            i = i + 1;
        }
        None
    }

    fn resolve_parents(&self, hs: &Vec<u64>) -> (r: Result<Vec<usize>, u64>)
        requires
            hashes_unique(self.hashes@),
        ensures
            r.is_ok() <==> forall|j: int| 0 <= j < hs@.len() ==> self.knows(#[trigger] hs@[j]),
            r.is_ok() ==> r.unwrap()@ == self.parent_indices(hs@),
            r.is_ok() ==> forall|j: int| 0 <= j < r.unwrap()@.len() ==> #[trigger] r.unwrap()@[j] < self.len(),
            r.is_err() ==> !self.knows(r.unwrap_err()) && hs@.contains(r.unwrap_err()),
    {
        let mut out: Vec<usize> = Vec::new();
        let mut j: usize = 0;
        while j < hs.len()
            invariant
                hashes_unique(self.hashes@),
                j <= hs@.len(),
                out@ == self.parent_indices(hs@.take(j as int)),
                forall|i: int| 0 <= i < j ==> self.knows(#[trigger] hs@[i]),
                forall|i: int| 0 <= i < out@.len() ==> #[trigger] out@[i] < self.len(),
            decreases hs.len() - j,
        {
            match self.index_of(hs[j]) {
                Some(i) => {
                    out.push(i);
                    assert(hs@.take(j as int + 1) == hs@.take(j as int).push(hs@[j as int]));
                    assert(self.parent_indices(hs@.take(j as int + 1)) =~= self.parent_indices(hs@.take(j as int)).push(i));
                },
                None => {
                    let missing = hs[j];
                    assert(hs@[j as int] == missing);
                    return Err(missing);
                },
            }
            j = j + 1;
        }
        assert(hs@.take(hs@.len() as int) == hs@);
        Ok(out)
    }

    /// `header` agrees with the stored block of the same hash: same parents,
    /// in the same order, and same work.
    pub open spec fn matches_stored(&self, header: Header) -> bool {
        let i = self.index(header.hash);
        header.parents@ == self.hashes_of(self.dag()[i]) && header.work == self.works@[i]
    }

    /// Every parent hash in `hs` is known.
    pub open spec fn knows_all(&self, hs: Seq<u64>) -> bool {
        forall|j: int| 0 <= j < hs.len() ==> self.knows(#[trigger] hs[j])
    }

    /// The reachability index cannot make room under the selected parent of
    /// a header with parents `hs`.
    pub open spec fn out_of_room(&self, hs: Seq<u64>) -> bool {
        let sp = self.next_record(hs).selected_parent.unwrap() as int;
        self.reachability.free(sp) < MIN_ROOM as int && self.reachability.bound > u64::MAX - REINDEX_SLACK
    }

    /// The contract of `process_header`: from state `self`, processing
    /// `header` may return `r` and leave state `next`.
    pub open spec fn processes_to(&self, header: Header, r: Result<ProcessOutcome, RuleError>, next: Self) -> bool {
        let hs = header.parents@;
        &&& next.wf()
        &&& self.knows(header.hash) ==> r == if self.matches_stored(header) {
            Ok::<ProcessOutcome, RuleError>(ProcessOutcome::AlreadyKnown)
        } else {
            Err(RuleError::ConflictingHeader(header.hash))
        }
        &&& !self.knows(header.hash) && hs.len() == 0 ==> r == Err::<ProcessOutcome, RuleError>(RuleError::NoParents)
        &&& !self.knows(header.hash) && hs.len() > 0 && !self.knows_all(hs) ==> (match r {
            Err(RuleError::MissingParent(x)) => hs.contains(x) && !self.knows(x),
            _ => false,
        })
        &&& !self.knows(header.hash) && hs.len() > 0 && self.knows_all(hs) ==> ({
            let g = self.next_record(hs);
            r == if g.blue_score > u64::MAX || g.blue_work > u128::MAX {
                Err::<ProcessOutcome, RuleError>(RuleError::ScoreOverflow)
            } else if self.out_of_room(hs) {
                Err(RuleError::ReachabilityCapacity)
            } else {
                Ok(ProcessOutcome::Processed)
            }
        })
        &&& r != Ok::<ProcessOutcome, RuleError>(ProcessOutcome::Processed) ==> next == *self
        &&& r == Ok::<ProcessOutcome, RuleError>(ProcessOutcome::Processed) ==> {
            &&& next.hashes@ == self.hashes@.push(header.hash)
            &&& next.works@ == self.works@.push(header.work)
            &&& next.dag() == self.dag().push(self.parent_indices(hs))
            &&& records(next.ghostdag@) == records(self.ghostdag@).push(self.next_record(hs))
            &&& next.k == self.k
            &&& next.reachability.bound <= self.reachability.bound + REINDEX_SLACK
        }
    }

    /// Processes one header: it is added to every store, or rejected with no
    /// store changed, or found to be known already, with no store changed.
    pub fn process_header(&mut self, header: &Header) -> (r: Result<ProcessOutcome, RuleError>)
        requires
            old(self).wf(),
        ensures
            old(self).processes_to(*header, r, *final(self)),
    {
        match self.index_of(header.hash) {
            Some(i) => {
                proof {
                    assert(self.dag()[i as int] == self.parents@[i as int]@);
                    assert forall|j: int| 0 <= j < self.parents@[i as int]@.len()
                        implies #[trigger] self.parents@[i as int]@[j] < self.hashes@.len() by {
                        assert(self.dag()[i as int][j] < i);
                    }
                }
                let stored = self.to_hashes(&self.parents[i]);
                if same_hashes(&stored, &header.parents) && self.works[i] == header.work {
                    return Ok(ProcessOutcome::AlreadyKnown);
                }
                return Err(RuleError::ConflictingHeader(header.hash));
            },
            None => {},
        }
        if header.parents.len() == 0 {
            return Err(RuleError::NoParents);
        }
        let ps = match self.resolve_parents(&header.parents) {
            Ok(ps) => ps,
            Err(missing) => {
                return Err(RuleError::MissingParent(missing));
            },
        };
        let ghost dag = self.dag();
        let ghost n = self.len();
        proof {
            self.lemma_records_ordered();
        }
        let g = match compute_ghostdag(&self.reachability, Ghost(dag), &ps, &self.ghostdag, &self.hashes, &self.works, self.k) {
            Some(g) => g,
            None => {
                return Err(RuleError::ScoreOverflow);
            },
        };
        assert(g.selected_parent.is_some());
        let sp = g.selected_parent.unwrap();
        proof {
            crate::ghostdag::lemma_selected_parent_in(records(self.ghostdag@), self.hashes@, ps@);
            assert(parents_wf(dag.push(ps@))) by {
                assert forall|i: int, j: int| 0 <= i < dag.push(ps@).len() && 0 <= j < dag.push(ps@)[i].len()
                    implies #[trigger] dag.push(ps@)[i][j] < i by {
                    if i < n {
                        assert(dag.push(ps@)[i] == dag[i]);
                    }
                }
            }
        }
        match self.reachability.add_block(Ghost(dag), &ps, sp) {
            Ok(()) => {},
            Err(_) => {
                return Err(RuleError::ReachabilityCapacity);
            },
        }
        let ghost old_self_children = self.children@;
        let ghost pv = self.parents@;
        let ghost hv = self.hashes@;
        let ghost wv = self.works@;
        let ghost gv = self.ghostdag@;
        let ghost sv = self.statuses@;
        let ghost tpv = self.reachability.tree_parents@;
        let c = self.hashes.len();
        let mut a: usize = 0;
        while a < c
            invariant
                c == n,
                self.children@.len() == n,
                forall|k: int| 0 <= k < a ==> #[trigger] self.children@[k]@
                    == (if ps@.contains(k as usize) { old_self_children[k]@.push(c) } else { old_self_children[k]@ }),
                forall|k: int| a <= k < n ==> #[trigger] self.children@[k]@ == old_self_children[k]@,
                old_self_children.len() == n,
                self.parents@ == pv,
                self.hashes@ == hv,
                self.works@ == wv,
                self.ghostdag@ == gv,
                self.statuses@ == sv,
                self.k == old(self).k,
                self.reachability.tree_parents@ == tpv,
                self.reachability.bound <= old(self).reachability.bound + REINDEX_SLACK,
                self.reachability.wf(dag.push(ps@)),
            decreases c - a,
        {
            if vec_contains(&ps, a) {
                let mut v = self.children[a].clone();
                v.push(c);
                self.children.set(a, v);
            }
            a = a + 1;
        }
        self.children.push(Vec::new());
        self.parents.push(ps);
        self.hashes.push(header.hash);
        self.works.push(header.work);
        self.ghostdag.push(g);
        self.statuses.push(BlockStatus::StatusHeaderOnly);
        proof {
            let d1 = self.dag();
            assert(d1 =~= dag.push(ps@));
            let h0 = old(self).hashes@;
            let w0 = old(self).works@;
            let r0 = records(old(self).ghostdag@);
            let r1 = records(self.ghostdag@);
            assert(r1 =~= r0.push(g@));
            assert forall|i: int| 0 <= i < n implies h0[i] != header.hash by {
                if h0[i] == header.hash {
                    assert(h0.contains(header.hash));
                }
            }
            assert(hashes_unique(self.hashes@));
            assert(d1[0] == dag[0]);
            assert forall|i: int| 0 <= i < n + 1 implies #[trigger] r1[i] == ghostdag_step(
                d1.take(i), d1[i], self.hashes@.take(i), self.works@.take(i), r1.take(i), self.k as int) by {
                if i < n {
                    assert(d1.take(i) =~= dag.take(i));
                    assert(self.hashes@.take(i) =~= h0.take(i));
                    assert(self.works@.take(i) =~= w0.take(i));
                    assert(r1.take(i) =~= r0.take(i));
                    assert(r1[i] == r0[i]);
                    assert(d1[i] == dag[i]);
                } else {
                    assert(d1.take(i) =~= dag);
                    assert(self.hashes@.take(i) =~= h0);
                    assert(self.works@.take(i) =~= w0);
                    assert(r1.take(i) =~= r0);
                }
            }
            assert forall|i: int| 0 <= i < n + 1 implies #[trigger] self.reachability.tree_parents@[i]
                == self.ghostdag@[i].selected_parent by {
                if i < n {
                    assert(old(self).reachability.tree_parents@[i] == old(self).ghostdag@[i].selected_parent);
                }
            }
            assert forall|a: int, j: int| 0 <= a < n + 1 && 0 <= j < self.children@[a]@.len()
                implies #[trigger] self.children@[a]@[j] < n + 1 by {
                if a < n && j < old_self_children[a]@.len() {
                    assert(self.children@[a]@[j] == old_self_children[a]@[j]);
                    assert(old_self_children[a]@[j] < n);
                }
            }
            assert forall|a: int, x: int| 0 <= a < n + 1 && 0 <= x < n + 1
                implies (#[trigger] self.children@[a]@.contains(x as usize) <==> d1[x].contains(a as usize)) by {
                if a < n {
                    let oc = old_self_children[a]@;
                    if x < n {
                        assert(d1[x] == dag[x]);
                        assert(oc.contains(x as usize) <==> dag[x].contains(a as usize));
                        if ps@.contains(a as usize) {
                            assert(self.children@[a]@ == oc.push(c));
                            if self.children@[a]@.contains(x as usize) {
                                let q = choose|q: int| 0 <= q < oc.len() + 1 && self.children@[a]@[q] == x as usize;
                                if q < oc.len() {
                                    assert(oc[q] == x as usize);
                                }
                            }
                            if oc.contains(x as usize) {
                                let q = choose|q: int| 0 <= q < oc.len() && oc[q] == x as usize;
                                assert(self.children@[a]@[q] == x as usize);
                            }
                        }
                    } else {
                        if oc.contains(c) {
                            let q = choose|q: int| 0 <= q < oc.len() && oc[q] == c;
                            assert(old_self_children[a]@[q] < n);
                        }
                        if ps@.contains(a as usize) {
                            assert(self.children@[a]@ == oc.push(c));
                            assert(self.children@[a]@[oc.len() as int] == c);
                        }
                    }
                } else {
                    assert(self.children@[a]@.len() == 0);
                    if d1[x].contains(a as usize) {
                        let q = choose|q: int| 0 <= q < d1[x].len() && d1[x][q] == a as usize;
                        assert(d1[x][q] < x);
                    }
                }
            }
            assert(forall|i: int| 0 <= i < n + 1 ==> #[trigger] self.statuses@[i] == BlockStatus::StatusHeaderOnly);
        }
        Ok(ProcessOutcome::Processed)
    }

    /// Hashes of the blocks numbered in `v`.
    pub open spec fn hashes_of(&self, v: Seq<usize>) -> Seq<u64> {
        v.map_values(|i: usize| self.hashes@[i as int])
    }

    fn to_hashes(&self, v: &Vec<usize>) -> (r: Vec<u64>)
        requires
            forall|j: int| 0 <= j < v@.len() ==> #[trigger] v@[j] < self.hashes@.len(),
        ensures
            r@ == self.hashes_of(v@),
    {
        let mut out: Vec<u64> = Vec::new();
        let mut j: usize = 0;
        while j < v.len()
            invariant
                forall|j: int| 0 <= j < v@.len() ==> #[trigger] v@[j] < self.hashes@.len(),
                j <= v@.len(),
                out@ == self.hashes_of(v@.take(j as int)),
            decreases v.len() - j,
        {
            out.push(self.hashes[v[j]]);
            assert(v@.take(j as int + 1) == v@.take(j as int).push(v@[j as int]));
            assert(self.hashes_of(v@.take(j as int + 1)) =~= self.hashes_of(v@.take(j as int)).push(self.hashes@[v@[j as int] as int]));
            j = j + 1;
        }
        assert(v@.take(v@.len() as int) == v@);
        out
    }

    /// Number of known blocks, genesis included.
    pub fn block_count(&self) -> (r: usize)
        ensures
            r == self.len(),
    {
        self.hashes.len()
    }

    /// Whether block `a` is in the past of block `b` or is `b`: `None` when
    /// either block is unknown.
    pub fn is_dag_ancestor_of(&self, a: u64, b: u64) -> (r: Option<bool>)
        requires
            self.wf(),
        ensures
            r.is_some() <==> self.knows(a) && self.knows(b),
            r.is_some() ==> r.unwrap() == is_ancestor(self.dag(), self.index(a), self.index(b)),
    {
        let ia = match self.index_of(a) {
            Some(i) => i,
            None => {
                return None;
            },
        };
        let ib = match self.index_of(b) {
            Some(i) => i,
            None => {
                return None;
            },
        };
        Some(self.reachability.is_dag_ancestor_of(Ghost(self.dag()), ia, ib))
    }

    /// The parents of block `h`, or `None` when it is unknown.
    pub fn parents_of(&self, h: u64) -> (r: Option<Vec<u64>>)
        requires
            self.wf(),
        ensures
            r.is_some() <==> self.knows(h),
            r.is_some() ==> r.unwrap()@ == self.hashes_of(self.dag()[self.index(h)]),
    {
        match self.index_of(h) {
            Some(i) => {
                assert(self.dag()[i as int] == self.parents@[i as int]@);
                assert forall|j: int| 0 <= j < self.parents@[i as int]@.len()
                    implies #[trigger] self.parents@[i as int]@[j] < self.hashes@.len() by {
                    assert(self.dag()[i as int][j] < i);
                }
                Some(self.to_hashes(&self.parents[i]))
            },
            None => None,
        }
    }

    /// The children of block `h`, or `None` when it is unknown.
    pub fn children_of(&self, h: u64) -> (r: Option<Vec<u64>>)
        requires
            self.wf(),
        ensures
            r.is_some() <==> self.knows(h),
            r.is_some() ==> r.unwrap()@ == self.hashes_of(self.children@[self.index(h)]@),
    {
        match self.index_of(h) {
            Some(i) => Some(self.to_hashes(&self.children[i])),
            None => None,
        }
    }

    /// The status of block `h`, or `None` when it is unknown.
    pub fn status(&self, h: u64) -> (r: Option<BlockStatus>)
        requires
            self.wf(),
        ensures
            r.is_some() <==> self.knows(h),
            r.is_some() ==> r.unwrap() == BlockStatus::StatusHeaderOnly,
    {
        match self.index_of(h) {
            Some(i) => Some(self.statuses[i]),
            None => None,
        }
    }

    /// The blue score of block `h`, or `None` when it is unknown.
    pub fn blue_score(&self, h: u64) -> (r: Option<u64>)
        requires
            self.wf(),
        ensures
            r.is_some() <==> self.knows(h),
            r.is_some() ==> r.unwrap() == records(self.ghostdag@)[self.index(h)].blue_score,
    {
        match self.index_of(h) {
            Some(i) => Some(self.ghostdag[i].blue_score),
            None => None,
        }
    }

    /// The blue work of block `h`, or `None` when it is unknown.
    pub fn blue_work(&self, h: u64) -> (r: Option<u128>)
        requires
            self.wf(),
        ensures
            r.is_some() <==> self.knows(h),
            r.is_some() ==> r.unwrap() == records(self.ghostdag@)[self.index(h)].blue_work,
    {
        match self.index_of(h) {
            Some(i) => Some(self.ghostdag[i].blue_work),
            None => None,
        }
    }

    /// The selected parent of block `h`: `None` when `h` is unknown or is genesis.
    pub fn selected_parent(&self, h: u64) -> (r: Option<u64>)
        requires
            self.wf(),
        ensures
            r.is_some() <==> self.knows(h) && records(self.ghostdag@)[self.index(h)].selected_parent.is_some(),
            r.is_some() ==> r.unwrap() == self.hashes@[
                records(self.ghostdag@)[self.index(h)].selected_parent.unwrap() as int],
    {
        match self.index_of(h) {
            Some(i) => {
                proof { self.lemma_selected_parent_bounded(i as int); }
                match self.ghostdag[i].selected_parent {
                    Some(sp) => Some(self.hashes[sp]),
                    None => None,
                }
            },
            None => None,
        }
    }

    proof fn lemma_selected_parent_bounded(&self, i: int)
        requires
            self.wf(),
            0 <= i < self.len(),
        ensures
            records(self.ghostdag@)[i].selected_parent.is_some() ==> records(self.ghostdag@)[i].selected_parent.unwrap() < i,
            i > 0 ==> records(self.ghostdag@)[i].selected_parent.is_some(),
    {
        let recs = records(self.ghostdag@);
        let d = self.dag();
        assert(recs[i] == ghostdag_step(d.take(i), d[i], self.hashes@.take(i), self.works@.take(i), recs.take(i), self.k as int));
        if d[i].len() > 0 {
            crate::ghostdag::lemma_selected_parent_in(recs.take(i), self.hashes@.take(i), d[i]);
            let sp = crate::ghostdag::selected_parent_of(recs.take(i), self.hashes@.take(i), d[i]);
            let j = choose|j: int| 0 <= j < d[i].len() && d[i][j] == sp;
            assert(d[i][j] < i);
        }
    }

    /// The blue members of block `h`'s mergeset, selected parent first.
    pub fn mergeset_blues(&self, h: u64) -> (r: Option<Vec<u64>>)
        requires
            self.wf(),
        ensures
            r.is_some() <==> self.knows(h),
            r.is_some() ==> r.unwrap()@ == self.hashes_of(records(self.ghostdag@)[self.index(h)].blues),
    {
        match self.index_of(h) {
            Some(i) => {
                proof { self.lemma_mergeset_bounded(i as int); }
                Some(self.to_hashes(&self.ghostdag[i].mergeset_blues))
            },
            None => None,
        }
    }

    /// The red members of block `h`'s mergeset.
    pub fn mergeset_reds(&self, h: u64) -> (r: Option<Vec<u64>>)
        requires
            self.wf(),
        ensures
            r.is_some() <==> self.knows(h),
            r.is_some() ==> r.unwrap()@ == self.hashes_of(records(self.ghostdag@)[self.index(h)].reds),
    {
        match self.index_of(h) {
            Some(i) => {
                proof { self.lemma_mergeset_bounded(i as int); }
                Some(self.to_hashes(&self.ghostdag[i].mergeset_reds))
            },
            None => None,
        }
    }

    /// The anticone counts recorded for block `h`'s mergeset members after
    /// its selected parent, in scan order.
    pub fn mergeset_anticone_sizes(&self, h: u64) -> (r: Option<Vec<usize>>)
        requires
            self.wf(),
        ensures
            r.is_some() <==> self.knows(h),
            r.is_some() ==> r.unwrap()@ == records(self.ghostdag@)[self.index(h)].anticone_sizes,
    {
        match self.index_of(h) {
            Some(i) => Some(self.ghostdag[i].mergeset_anticone_sizes.clone()),
            None => None,
        }
    }

    proof fn lemma_records_ordered(&self)
        requires
            self.wf(),
        ensures
            crate::ghostdag::records_ordered(records(self.ghostdag@)),
    {
        let recs = records(self.ghostdag@);
        assert forall|i: int| 0 <= i < recs.len() implies {
            &&& ((#[trigger] recs[i]).selected_parent.is_some() ==> recs[i].selected_parent.unwrap() < i)
            &&& forall|j: int| 0 <= j < recs[i].blues.len() ==> #[trigger] recs[i].blues[j] < i
        } by {
            self.lemma_selected_parent_bounded(i);
            self.lemma_mergeset_bounded(i);
            assert(recs[i] == self.ghostdag@[i]@);
        }
    }

    proof fn lemma_mergeset_bounded(&self, i: int)
        requires
            self.wf(),
            0 <= i < self.len(),
        ensures
            forall|j: int| 0 <= j < self.ghostdag@[i].mergeset_blues@.len()
                ==> #[trigger] self.ghostdag@[i].mergeset_blues@[j] < i,
            forall|j: int| 0 <= j < self.ghostdag@[i].mergeset_reds@.len()
                ==> #[trigger] self.ghostdag@[i].mergeset_reds@[j] < i,
    {
        let recs = records(self.ghostdag@);
        let d = self.dag();
        assert(recs[i] == ghostdag_step(d.take(i), d[i], self.hashes@.take(i), self.works@.take(i), recs.take(i), self.k as int));
        assert(recs[i] == self.ghostdag@[i]@);
        if d[i].len() > 0 {
            self.lemma_selected_parent_bounded(i);
            let sp = recs[i].selected_parent.unwrap();
            let found = crate::ghostdag::candidates_upto(d.take(i), d[i], sp as int, i);
            crate::ghostdag::lemma_candidates_bounded(d.take(i), d[i], sp as int, i);
            let cands = crate::ghostdag::order_upto(recs.take(i), self.hashes@.take(i), found, found.len() as int);
            crate::ghostdag::lemma_order_bounded(recs.take(i), self.hashes@.take(i), found, found.len() as int, i);
            crate::ghostdag::lemma_classify_bounded(d.take(i), sp, cands, self.k as int, cands.len() as int, i,
                crate::ghostdag::chain_blues(recs.take(i), sp as int));
        }
    }
}

/// `x + 1`, held at `u64::MAX`.
pub open spec fn bump(x: u64) -> u64 {
    if x < u64::MAX { (x + 1) as u64 } else { x }
}

fn bump_exec(x: u64) -> (r: u64)
    ensures
        r == bump(x),
{
    if x < u64::MAX { x + 1 } else { x }
}

impl HeaderProcessor {
    /// One step of the worker: a `Process` task is processed and the worker
    /// goes on; `Exit` stops it with nothing changed. Returns what to do next
    /// and, for a `Process` task, the outcome of processing.
    pub fn handle_task(&mut self, counters: &mut ProcessingCounters, task: BlockTask)
        -> (r: (WorkerAction, Option<Result<ProcessOutcome, RuleError>>))
        requires
            old(self).wf(),
        ensures
            final(self).wf(),
            match task {
                BlockTask::Exit => {
                    &&& r.0 == WorkerAction::Stop
                    &&& r.1.is_none()
                    &&& *final(self) == *old(self)
                    &&& *final(counters) == *old(counters)
                },
                BlockTask::Process(b) => {
                    &&& r.0 == WorkerAction::Continue
                    &&& r.1.is_some()
                    &&& old(self).processes_to(b.header, r.1.unwrap(), *final(self))
                    &&& final(counters).blocks_submitted == bump(old(counters).blocks_submitted)
                    &&& final(counters).headers_processed == if r.1.unwrap() == Ok::<ProcessOutcome, RuleError>(
                        ProcessOutcome::Processed) {
                        bump(old(counters).headers_processed)
                    } else {
                        old(counters).headers_processed
                    }
                    &&& final(counters).headers_rejected == if r.1.unwrap().is_err() {
                        bump(old(counters).headers_rejected)
                    } else {
                        old(counters).headers_rejected
                    }
                },
            },
    {
        match task {
            BlockTask::Exit => (WorkerAction::Stop, None),
            BlockTask::Process(b) => {
                counters.blocks_submitted = bump_exec(counters.blocks_submitted);
                let outcome = self.process_header(&b.header);
                match outcome {
                    Ok(ProcessOutcome::Processed) => {
                        counters.headers_processed = bump_exec(counters.headers_processed);
                    },
                    Ok(ProcessOutcome::AlreadyKnown) => {},
                    Err(_) => {
                        counters.headers_rejected = bump_exec(counters.headers_rejected);
                    },
                }
                (WorkerAction::Continue, Some(outcome))
            },
        }
    }
}

/// Every block but genesis has its selected parent as tree parent, and its
/// interval is a proper sub-interval of its tree parent's. Every operation
/// keeps `wf`, so this holds in every state, before and after any reindex.
pub proof fn lemma_tree_parent_contains(p: &HeaderProcessor, x: int)
    requires
        p.wf(),
        0 < x < p.len(),
    ensures
        p.reachability.tree_parents@[x] == records(p.ghostdag@)[x].selected_parent,
        p.reachability.tree_parents@[x].is_some(),
        strictly_inside(p.reachability.intervals@, p.reachability.tree_parents@[x].unwrap() as int, x),
        p.dag()[x].contains(p.reachability.tree_parents@[x].unwrap()),
        p.reachability.tree_children@[p.reachability.tree_parents@[x].unwrap() as int]@.contains(x as usize),
{
    p.lemma_selected_parent_bounded(x);
    assert(records(p.ghostdag@)[x] == p.ghostdag@[x]@);
    assert(p.reachability.tree_parents@[x] == p.ghostdag@[x].selected_parent);
    let recs = records(p.ghostdag@);
    let d = p.dag();
    assert(recs[x] == ghostdag_step(d.take(x), d[x], p.hashes@.take(x), p.works@.take(x), recs.take(x), p.k as int));
    crate::ghostdag::lemma_selected_parent_in(recs.take(x), p.hashes@.take(x), d[x]);
    let t = p.reachability.tree_parents@[x].unwrap();
    assert(p.reachability.tree_parents@[x] == Some(t));
}

/// The blue set of block `x` is its selected parent's blue past followed by
/// its own mergeset blues. When every member of the selected parent's blue past,
/// with the selected parent added, has at most `k` of them in its anticone,
/// every member of `x`'s blue set has at most `k` of that set in its anticone.
pub proof fn lemma_blues_within_k_of_record(p: &HeaderProcessor, x: int)
    requires
        p.wf(),
        0 < x < p.len(),
        ({
            let recs = records(p.ghostdag@);
            let sp = recs[x].selected_parent.unwrap();
            let base = chain_blues(recs, sp as int).push(sp);
            forall|i: int| 0 <= i < base.len() ==> anticone_count(p.dag().take(x), base, #[trigger] base[i] as int) <= p.k
        }),
    ensures
        ({
            let all = chain_blues(records(p.ghostdag@), x);
            &&& chain_blues(records(p.ghostdag@), x) == chain_blues(
                records(p.ghostdag@), records(p.ghostdag@)[x].selected_parent.unwrap() as int) + records(p.ghostdag@)[x].blues
            &&& forall|i: int| 0 <= i < all.len() ==> anticone_count(p.dag().take(x), all, #[trigger] all[i] as int) <= p.k
        }),
{
    let recs = records(p.ghostdag@);
    let d = p.dag();
    assert(recs[x] == ghostdag_step(d.take(x), d[x], p.hashes@.take(x), p.works@.take(x), recs.take(x), p.k as int));
    p.lemma_selected_parent_bounded(x);
    p.lemma_records_ordered();
    let sp = recs[x].selected_parent.unwrap();
    lemma_chain_prefix(recs, x, sp as int);
    lemma_chain_bounded(recs, sp as int);
    let past = chain_blues(recs, sp as int);
    let found = crate::ghostdag::candidates_upto(d.take(x), d[x], sp as int, x);
    crate::ghostdag::lemma_candidates_bounded(d.take(x), d[x], sp as int, x);
    let cands = crate::ghostdag::order_upto(recs.take(x), p.hashes@.take(x), found, found.len() as int);
    crate::ghostdag::lemma_order_bounded(recs.take(x), p.hashes@.take(x), found, found.len() as int, x);
    assert(d.take(x).len() == x);
    crate::ghostdag::lemma_blues_within_k(d.take(x), sp, cands, p.k as int, cands.len() as int, past);
}

/// Processing a header a second time, after it was processed, reports it as
/// known and changes nothing: its GHOSTDAG record stays the one computed the
/// first time.
pub proof fn lemma_reprocessing_is_idempotent(
    s1: HeaderProcessor,
    h: Header,
    r1: Result<ProcessOutcome, RuleError>,
    s2: HeaderProcessor,
    r2: Result<ProcessOutcome, RuleError>,
    s3: HeaderProcessor,
)
    requires
        s1.wf(),
        s1.hashes@.len() < usize::MAX,
        s1.processes_to(h, r1, s2),
        s2.processes_to(h, r2, s3),
        r1 == Ok::<ProcessOutcome, RuleError>(ProcessOutcome::Processed),
    ensures
        r2 == Ok::<ProcessOutcome, RuleError>(ProcessOutcome::AlreadyKnown),
        s3 == s2,
        s3.index(h.hash) == s1.len(),
        records(s3.ghostdag@)[s3.index(h.hash)] == s1.next_record(h.parents@),
{
    let n = s1.len();
    assert(s2.hashes@[n] == h.hash);
    assert(s2.knows(h.hash));
    let i = s2.index(h.hash);
    assert(s2.hashes@[i] == h.hash);
    assert(i == n);
    assert(!s1.knows(h.hash) && h.parents@.len() > 0 && s1.knows_all(h.parents@));
    lemma_stored_matches(s1, h, s2);
}

proof fn lemma_stored_matches(s1: HeaderProcessor, h: Header, s2: HeaderProcessor)
    requires
        s2.hashes@ == s1.hashes@.push(h.hash),
        s2.works@ == s1.works@.push(h.work),
        s2.dag() == s1.dag().push(s1.parent_indices(h.parents@)),
        s1.knows_all(h.parents@),
        hashes_unique(s2.hashes@),
        s1.parents@.len() == s1.hashes@.len(),
        s1.works@.len() == s1.hashes@.len(),
        s1.hashes@.len() < usize::MAX,
    ensures
        s2.matches_stored(h),
{
    let n = s1.len();
    assert(s2.hashes@[n] == h.hash);
    let i = s2.index(h.hash);
    assert(s2.hashes@.contains(h.hash));
    assert(s2.hashes@[i] == h.hash);
    assert(i == n);
    let ps = s1.parent_indices(h.parents@);
    assert(s2.dag()[n] == ps);
    assert forall|j: int| 0 <= j < h.parents@.len() implies #[trigger] s2.hashes_of(ps)[j] == h.parents@[j] by {
        assert(s1.knows(h.parents@[j]));
        let x = h.parents@[j];
        let q = block_index(s1.hashes@, x);
        assert(0 <= q < s1.hashes@.len() && s1.hashes@[q] == x);
        assert(ps[j] == q as usize);
        assert(s2.hashes@[q] == s1.hashes@[q]);
        assert(s2.hashes_of(ps)[j] == s2.hashes@[ps[j] as int]);
    }
    assert(s2.hashes_of(ps) =~= h.parents@);
    assert(s2.works@[n] == h.work);
}

/// While fewer than `ROOM_BLOCKS` blocks are known, the reachability index
/// never runs out of room.
pub proof fn lemma_room_available(p: &HeaderProcessor, hs: Seq<u64>)
    requires
        p.wf(),
        p.len() <= ROOM_BLOCKS,
    ensures
        p.reachability.bound <= u64::MAX - REINDEX_SLACK,
        !p.out_of_room(hs),
{
    assert((p.len() - 1) * REINDEX_SLACK <= (ROOM_BLOCKS - 1) * REINDEX_SLACK) by (nonlinear_arith)
        requires p.len() <= ROOM_BLOCKS;
}

/// Two stores that hold the same DAG, with the same hashes, works and `k`,
/// hold the same GHOSTDAG records: blue scores, blue works and selected
/// parents depend on the processed headers alone.
pub proof fn lemma_records_deterministic(a: HeaderProcessor, b: HeaderProcessor)
    requires
        a.wf(),
        b.wf(),
        a.dag() == b.dag(),
        a.hashes@ == b.hashes@,
        a.works@ == b.works@,
        a.k == b.k,
    ensures
        records(a.ghostdag@) == records(b.ghostdag@),
{
    lemma_records_unique(a.dag(), a.hashes@, a.works@, records(a.ghostdag@), records(b.ghostdag@), a.k as int);
}

/// Processing the same header on two stores that hold the same blocks accepts
/// it on both or on neither, and gives both the same new record and DAG.
pub proof fn lemma_step_deterministic(
    a: HeaderProcessor,
    b: HeaderProcessor,
    h: Header,
    ra: Result<ProcessOutcome, RuleError>,
    a2: HeaderProcessor,
    rb: Result<ProcessOutcome, RuleError>,
    b2: HeaderProcessor,
)
    requires
        a.wf(),
        b.wf(),
        a.dag() == b.dag(),
        a.hashes@ == b.hashes@,
        a.works@ == b.works@,
        a.k == b.k,
        a.len() <= ROOM_BLOCKS,
        a.processes_to(h, ra, a2),
        b.processes_to(h, rb, b2),
    ensures
        (ra == Ok::<ProcessOutcome, RuleError>(ProcessOutcome::Processed)) == (rb == Ok::<ProcessOutcome, RuleError>(
            ProcessOutcome::Processed)),
        ra == Ok::<ProcessOutcome, RuleError>(ProcessOutcome::Processed) ==> {
            &&& records(a2.ghostdag@) == records(b2.ghostdag@)
            &&& a2.dag() == b2.dag()
            &&& a2.hashes@ == b2.hashes@
            &&& a2.works@ == b2.works@
        },
{
    lemma_records_deterministic(a, b);
    lemma_room_available(&a, h.parents@);
    lemma_room_available(&b, h.parents@);
    assert(a.parent_indices(h.parents@) == b.parent_indices(h.parents@));
    assert(a.next_record(h.parents@) == b.next_record(h.parents@));
}

/// Two stores hold the same blocks: same DAG, hashes, works and `k`.
pub open spec fn same_blocks(a: HeaderProcessor, b: HeaderProcessor) -> bool {
    &&& a.dag() == b.dag()
    &&& a.hashes@ == b.hashes@
    &&& a.works@ == b.works@
    &&& a.k == b.k
}

/// Two runs that start from stores holding the same blocks and process the
/// same headers in the same order hold the same blocks and the same GHOSTDAG
/// records (blue scores, blue works, selected parents) after every step.
pub proof fn lemma_runs_agree(
    a: Seq<HeaderProcessor>,
    b: Seq<HeaderProcessor>,
    hs: Seq<Header>,
    ra: Seq<Result<ProcessOutcome, RuleError>>,
    rb: Seq<Result<ProcessOutcome, RuleError>>,
    i: int,
)
    requires
        a.len() == hs.len() + 1,
        b.len() == hs.len() + 1,
        ra.len() == hs.len(),
        rb.len() == hs.len(),
        a[0].wf(),
        b[0].wf(),
        same_blocks(a[0], b[0]),
        a[0].len() + hs.len() <= ROOM_BLOCKS,
        forall|j: int| 0 <= j < hs.len() ==> #[trigger] a[j].processes_to(hs[j], ra[j], a[j + 1]),
        forall|j: int| 0 <= j < hs.len() ==> #[trigger] b[j].processes_to(hs[j], rb[j], b[j + 1]),
        0 <= i <= hs.len(),
    ensures
        a[i].wf(),
        b[i].wf(),
        same_blocks(a[i], b[i]),
        records(a[i].ghostdag@) == records(b[i].ghostdag@),
        a[i].len() <= a[0].len() + i,
    decreases i,
{
    if i == 0 {
        lemma_records_deterministic(a[0], b[0]);
    } else {
        lemma_runs_agree(a, b, hs, ra, rb, i - 1);
        let j = i - 1;
        assert(a[j].processes_to(hs[j], ra[j], a[j + 1]));
        assert(b[j].processes_to(hs[j], rb[j], b[j + 1]));
        lemma_step_deterministic(a[j], b[j], hs[j], ra[j], a[j + 1], rb[j], b[j + 1]);
        lemma_records_deterministic(a[i], b[i]);
    }
}

/// The blue past of every block lies in its past, and every member of it has
/// at most `k` members of it in its anticone. For a new block this blue set
/// is its selected parent's blue past followed by its own mergeset blues.
pub proof fn lemma_blue_past_within_k(p: &HeaderProcessor, x: int)
    requires
        p.wf(),
        0 <= x < p.len(),
        p.len() <= usize::MAX,
    ensures
        ({
            let all = chain_blues(records(p.ghostdag@), x);
            &&& forall|j: int| 0 <= j < all.len() ==> #[trigger] all[j] < x && is_ancestor(p.dag(), all[j] as int, x)
            &&& forall|i: int| 0 <= i < all.len() ==> anticone_count(p.dag(), all, #[trigger] all[i] as int) <= p.k
        }),
    decreases x,
{
    let recs = records(p.ghostdag@);
    let d = p.dag();
    let k = p.k as int;
    p.lemma_records_ordered();
    lemma_chain_bounded(recs, x);
    assert(recs[x] == ghostdag_step(d.take(x), d[x], p.hashes@.take(x), p.works@.take(x), recs.take(x), k));
    if x == 0 {
        assert(chain_blues(recs, 0) == recs[0].blues);
    } else {
        p.lemma_selected_parent_bounded(x);
        let sp = recs[x].selected_parent.unwrap();
        lemma_blue_past_within_k(p, sp as int);
        let past = chain_blues(recs, sp as int);
        lemma_chain_bounded(recs, sp as int);
        lemma_chain_prefix(recs, x, sp as int);
        crate::ghostdag::lemma_selected_parent_in(recs.take(x), p.hashes@.take(x), d[x]);
        let jsp = choose|j: int| 0 <= j < d[x].len() && d[x][j] == sp;
        assert(is_ancestor(d, sp as int, sp as int));
        crate::dag::lemma_ancestor_step(d, sp as int, x, jsp);
        let base = past.push(sp);
        lemma_anticone_of_ancestors(d, past, sp as int);
        assert(base.drop_last() =~= past);
        assert forall|i: int| 0 <= i < base.len() implies anticone_count(d, base, #[trigger] base[i] as int) <= k by {
            if i < past.len() {
                assert(base[i] == past[i]);
                assert(is_ancestor(d, past[i] as int, sp as int));
            }
        }
        assert forall|j: int| 0 <= j < base.len() implies #[trigger] base[j] < x by {
            if j < past.len() {
                assert(base[j] == past[j]);
            }
        }
        assert forall|i: int| 0 <= i < base.len() implies anticone_count(d.take(x), base, #[trigger] base[i] as int) <= k by {
            lemma_anticone_prefix(d, x, base, base[i] as int);
        }
        lemma_blues_within_k_of_record(p, x);
        let all = chain_blues(recs, x);
        assert forall|i: int| 0 <= i < all.len() implies anticone_count(d, all, #[trigger] all[i] as int) <= k by {
            lemma_anticone_prefix(d, x, all, all[i] as int);
        }
        let found = crate::ghostdag::candidates_upto(d.take(x), d[x], sp as int, x);
        let cands = crate::ghostdag::order_upto(recs.take(x), p.hashes@.take(x), found, found.len() as int);
        crate::ghostdag::lemma_candidates_bounded(d.take(x), d[x], sp as int, x);
        crate::ghostdag::lemma_classify_members(d.take(x), sp, cands, k, cands.len() as int, past);
        crate::ghostdag::lemma_order_members(recs.take(x), p.hashes@.take(x), found, found.len() as int);
        crate::ghostdag::lemma_candidates_merged(d.take(x), d[x], sp as int, x);
        let blues = recs[x].blues;
        assert(all == past + blues);
        assert forall|j: int| 0 <= j < all.len() implies #[trigger] all[j] < x && is_ancestor(d, all[j] as int, x) by {
            if j < past.len() {
                assert(all[j] == past[j]);
                crate::dag::lemma_ancestor_trans(d, past[j] as int, sp as int, x);
            } else {
                let y = blues[j - past.len()];
                assert(all[j] == y);
                if y != sp {
                    assert(cands.contains(y));
                    let q = choose|q: int| 0 <= q < cands.len() && cands[q] == y;
                    assert(found.contains(cands[q]));
                    let f = choose|f: int| 0 <= f < found.len() && found[f] == y;
                    assert(crate::ghostdag::is_candidate(d.take(x), d[x], sp as int, found[f] as int));
                    let jj = choose|jj: int| 0 <= jj < d[x].len() && is_ancestor(d.take(x), y as int, #[trigger] d[x][jj] as int);
                    assert(d[x][jj] < x);
                    crate::ghostdag::lemma_ancestor_prefix(d, x, y as int, d[x][jj] as int);
                    crate::dag::lemma_ancestor_step(d, y as int, x, jj);
                }
            }
        }
    }
}

} // verus!
