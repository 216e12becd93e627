use kaspa_consensus::model::{
    Block, BlockStatus, BlockTask, Header, Params, ProcessOutcome, ProcessingCounters, RuleError, WorkerAction,
};
use kaspa_consensus::pipeline::HeaderProcessor;

fn header(hash: u64, parents: &[u64], work: u64) -> Header {
    Header { hash, version: 1, parents: parents.to_vec(), timestamp: hash, nonce: 0, work }
}

fn params(k: u64) -> Params {
    Params { genesis_hash: 1, genesis_work: 5, ghostdag_k: k }
}

fn diamond(k: u64) -> HeaderProcessor {
    let mut p = HeaderProcessor::new(&params(k));
    assert_eq!(p.process_header(&header(20, &[1], 7)), Ok(ProcessOutcome::Processed));
    assert_eq!(p.process_header(&header(10, &[1], 9)), Ok(ProcessOutcome::Processed));
    assert_eq!(p.process_header(&header(30, &[20, 10], 3)), Ok(ProcessOutcome::Processed));
    p
}

#[test]
fn end_to_end_diamond() {
    let p = diamond(1);
    // A = 20, B = 10, C = 30; A and B tie on blue work, so the smaller hash wins.
    assert_eq!(p.selected_parent(30), Some(10));
    assert_eq!(p.mergeset_blues(30), Some(vec![10, 20]));
    assert_eq!(p.mergeset_reds(30), Some(vec![]));
    assert_eq!(p.is_dag_ancestor_of(1, 30), Some(true));
    assert_eq!(p.is_dag_ancestor_of(20, 10), Some(false));
    assert_eq!(p.is_dag_ancestor_of(10, 20), Some(false));
    assert_eq!(p.is_dag_ancestor_of(30, 1), Some(false));
}

#[test]
fn blue_score_and_work_formulas() {
    let p = diamond(1);
    assert_eq!(p.blue_score(1), Some(0));
    assert_eq!(p.blue_work(1), Some(0));
    assert_eq!(p.blue_score(20), Some(1));
    assert_eq!(p.blue_work(20), Some(5));
    assert_eq!(p.blue_score(10), Some(1));
    assert_eq!(p.blue_work(10), Some(5));
    // Selected parent 10 (score 1, work 5) plus blues 10 and 20.
    assert_eq!(p.blue_score(30), Some(3));
    assert_eq!(p.blue_work(30), Some(5 + 9 + 7));
    assert_eq!(p.selected_parent(1), None);
}

#[test]
fn anticone_bound_zero_makes_red() {
    let p = diamond(0);
    assert_eq!(p.mergeset_blues(30), Some(vec![10]));
    assert_eq!(p.mergeset_reds(30), Some(vec![20]));
    assert_eq!(p.mergeset_anticone_sizes(30), Some(vec![1]));
    assert_eq!(p.blue_score(30), Some(2));
    assert_eq!(p.blue_work(30), Some(5 + 9));
}

#[test]
fn heavier_parent_is_selected() {
    let mut p = diamond(1);
    // 40 sits on 20 alone; 50 merges 40 and 10, and 40 carries more blue work.
    assert_eq!(p.process_header(&header(40, &[20], 100)), Ok(ProcessOutcome::Processed));
    assert_eq!(p.process_header(&header(50, &[10, 40], 1)), Ok(ProcessOutcome::Processed));
    assert_eq!(p.blue_work(40), Some(12));
    assert_eq!(p.selected_parent(50), Some(40));
    // 10 has 20 and 40, both blue in 50's blue set, in its anticone.
    assert_eq!(p.mergeset_blues(50), Some(vec![40]));
    assert_eq!(p.mergeset_reds(50), Some(vec![10]));
}

#[test]
fn relations_and_status() {
    let p = diamond(1);
    assert_eq!(p.parents_of(30), Some(vec![20, 10]));
    assert_eq!(p.children_of(1), Some(vec![20, 10]));
    assert_eq!(p.children_of(20), Some(vec![30]));
    assert_eq!(p.children_of(30), Some(vec![]));
    assert_eq!(p.status(30), Some(BlockStatus::StatusHeaderOnly));
    assert_eq!(p.status(99), None);
    assert_eq!(p.parents_of(99), None);
    assert_eq!(p.is_dag_ancestor_of(99, 1), None);
    assert_eq!(p.block_count(), 4);
}

#[test]
fn rejects_missing_parent_without_change() {
    let mut p = diamond(1);
    assert_eq!(p.process_header(&header(60, &[1, 77], 1)), Err(RuleError::MissingParent(77)));
    assert_eq!(p.block_count(), 4);
    assert_eq!(p.status(60), None);
    assert_eq!(p.children_of(1), Some(vec![20, 10]));
}

#[test]
fn rejects_header_without_parents() {
    let mut p = diamond(1);
    assert_eq!(p.process_header(&header(60, &[], 1)), Err(RuleError::NoParents));
    assert_eq!(p.block_count(), 4);
}

#[test]
fn blue_work_sums_large_works() {
    let mut p = HeaderProcessor::new(&Params { genesis_hash: 1, genesis_work: u64::MAX, ghostdag_k: 3 });
    let mut prev = 1u64;
    // Each block's blue work adds the full work of its selected parent.
    for h in 2..6u64 {
        assert_eq!(p.process_header(&header(h, &[prev], u64::MAX)), Ok(ProcessOutcome::Processed));
        prev = h;
    }
    assert_eq!(p.blue_work(5), Some(4 * (u64::MAX as u128)));
}

#[test]
fn processing_twice_is_idempotent() {
    let mut p = diamond(1);
    let score = p.blue_score(30);
    let blues = p.mergeset_blues(30);
    assert_eq!(p.process_header(&header(30, &[20, 10], 3)), Ok(ProcessOutcome::AlreadyKnown));
    assert_eq!(p.blue_score(30), score);
    assert_eq!(p.mergeset_blues(30), blues);
    assert_eq!(p.block_count(), 4);
}

fn generated_dag(seed: u64, n: u64) -> Vec<Header> {
    let mut state = seed;
    let mut out = Vec::new();
    for h in 2..(n + 2) {
        let mut parents = Vec::new();
        for _ in 0..3 {
            state = state.wrapping_mul(6364136223846793005).wrapping_add(1442695040888963407);
            let p = 1 + (state >> 33) % (h - 1);
            if !parents.contains(&p) {
                parents.push(p);
            }
        }
        out.push(header(h * 7 % 1000 + 1000 * h, &parents.iter().map(|&p| if p == 1 { 1 } else { p * 7 % 1000 + 1000 * p }).collect::<Vec<_>>(), (state >> 40) % 50));
    }
    out
}

fn brute_force_ancestor(headers: &[Header], a: u64, b: u64) -> bool {
    let mut stack = vec![b];
    let mut seen = Vec::new();
    while let Some(x) = stack.pop() {
        if x == a {
            return true;
        }
        if seen.contains(&x) {
            continue;
        }
        seen.push(x);
        if let Some(h) = headers.iter().find(|h| h.hash == x) {
            stack.extend(h.parents.iter().copied());
        }
    }
    false
}

#[test]
fn ancestry_matches_traversal() {
    let headers = generated_dag(42, 60);
    let mut p = HeaderProcessor::new(&params(3));
    for h in &headers {
        assert_eq!(p.process_header(h), Ok(ProcessOutcome::Processed));
    }
    let mut all = vec![1u64];
    all.extend(headers.iter().map(|h| h.hash));
    for &a in &all {
        for &b in &all {
            assert_eq!(p.is_dag_ancestor_of(a, b), Some(brute_force_ancestor(&headers, a, b)), "{} {}", a, b);
        }
    }
}

#[test]
fn long_chain_survives_reindex() {
    let mut p = HeaderProcessor::new(&params(3));
    let mut prev = 1u64;
    for h in 2..200u64 {
        assert_eq!(p.process_header(&header(h, &[prev], 1)), Ok(ProcessOutcome::Processed));
        prev = h;
    }
    // A side branch off an early block, then a block merging it back.
    assert_eq!(p.process_header(&header(1000, &[3], 1)), Ok(ProcessOutcome::Processed));
    assert_eq!(p.process_header(&header(1001, &[199, 1000], 1)), Ok(ProcessOutcome::Processed));
    for a in 1..200u64 {
        assert_eq!(p.is_dag_ancestor_of(a, 199), Some(true));
        assert_eq!(p.is_dag_ancestor_of(199, a), Some(a == 199));
    }
    assert_eq!(p.is_dag_ancestor_of(1000, 1001), Some(true));
    assert_eq!(p.is_dag_ancestor_of(1000, 199), Some(false));
    assert_eq!(p.is_dag_ancestor_of(4, 1000), Some(false));
    assert_eq!(p.is_dag_ancestor_of(3, 1000), Some(true));
    assert_eq!(p.blue_score(199), Some(198));
}

#[test]
fn two_runs_agree() {
    let headers = generated_dag(7, 40);
    let mut p = HeaderProcessor::new(&params(2));
    let mut q = HeaderProcessor::new(&params(2));
    for h in &headers {
        p.process_header(h).unwrap();
        q.process_header(h).unwrap();
    }
    for h in &headers {
        assert_eq!(p.blue_score(h.hash), q.blue_score(h.hash));
        assert_eq!(p.blue_work(h.hash), q.blue_work(h.hash));
        assert_eq!(p.selected_parent(h.hash), q.selected_parent(h.hash));
        assert_eq!(p.mergeset_blues(h.hash), q.mergeset_blues(h.hash));
    }
}

#[test]
fn worker_step_processes_then_stops() {
    let mut p = HeaderProcessor::new(&params(1));
    let mut c = ProcessingCounters::new();
    let task = BlockTask::Process(Block { header: header(2, &[1], 1) });
    let (action, outcome) = p.handle_task(&mut c, task);
    assert_eq!(action, WorkerAction::Continue);
    assert_eq!(outcome, Some(Ok(ProcessOutcome::Processed)));
    let bad = BlockTask::Process(Block { header: header(3, &[9], 1) });
    assert_eq!(p.handle_task(&mut c, bad).1, Some(Err(RuleError::MissingParent(9))));
    assert_eq!(c, ProcessingCounters { blocks_submitted: 2, headers_processed: 1, headers_rejected: 1 });
    let (action, outcome) = p.handle_task(&mut c, BlockTask::Exit);
    assert_eq!(action, WorkerAction::Stop);
    assert_eq!(outcome, None);
    assert_eq!(p.block_count(), 2);
}

#[test]
fn mergeset_scanned_most_preferred_first() {
    let mut p = HeaderProcessor::new(&Params { genesis_hash: 1, genesis_work: 1, ghostdag_k: 1 });
    assert_eq!(p.process_header(&header(2, &[1], 10)), Ok(ProcessOutcome::Processed));
    assert_eq!(p.process_header(&header(3, &[2], 1)), Ok(ProcessOutcome::Processed));
    assert_eq!(p.process_header(&header(4, &[1], 1)), Ok(ProcessOutcome::Processed));
    assert_eq!(p.process_header(&header(5, &[2], 1)), Ok(ProcessOutcome::Processed));
    assert_eq!(p.process_header(&header(6, &[3, 4, 5], 1)), Ok(ProcessOutcome::Processed));
    assert_eq!(p.blue_work(5), Some(11));
    assert_eq!(p.blue_work(4), Some(1));
    assert_eq!(p.selected_parent(6), Some(3));
    // 5 outranks 4 and is scanned first; 4 then sees 2, 3 and 5 in its anticone.
    assert_eq!(p.mergeset_blues(6), Some(vec![3, 5]));
    assert_eq!(p.mergeset_reds(6), Some(vec![4]));
    assert_eq!(p.mergeset_anticone_sizes(6), Some(vec![1, 3]));
    assert_eq!(p.mergeset_anticone_sizes(1), Some(vec![]));
    assert_eq!(p.mergeset_anticone_sizes(2), Some(vec![]));
    assert_eq!(p.blue_score(6), Some(4));
    assert_eq!(p.blue_work(6), Some(13));
}

#[test]
fn tasks_before_exit_are_drained() {
    let mut p = HeaderProcessor::new(&params(1));
    let mut c = ProcessingCounters::new();
    let tasks = vec![
        BlockTask::Process(Block { header: header(2, &[1], 1) }),
        BlockTask::Process(Block { header: header(3, &[2], 1) }),
        BlockTask::Exit,
        BlockTask::Process(Block { header: header(4, &[3], 1) }),
    ];
    let mut handled = 0;
    for task in tasks {
        handled += 1;
        if p.handle_task(&mut c, task).0 == WorkerAction::Stop {
            break;
        }
    }
    assert_eq!(handled, 3);
    assert_eq!(p.block_count(), 3);
    assert_eq!(p.status(3), Some(BlockStatus::StatusHeaderOnly));
    assert_eq!(p.status(4), None);
}

#[test]
fn duplicate_parent_registers_one_child() {
    let mut p = HeaderProcessor::new(&params(1));
    assert_eq!(p.process_header(&header(2, &[1, 1], 1)), Ok(ProcessOutcome::Processed));
    assert_eq!(p.children_of(1), Some(vec![2]));
    assert_eq!(p.parents_of(2), Some(vec![1, 1]));
    assert_eq!(p.mergeset_blues(2), Some(vec![1]));
}

#[test]
fn tree_intervals_nest_after_reindex() {
    let mut p = HeaderProcessor::new(&params(3));
    let mut prev = 1u64;
    for h in 2..150u64 {
        assert_eq!(p.process_header(&header(h, &[prev], 1)), Ok(ProcessOutcome::Processed));
        if h % 10 == 0 {
            assert_eq!(p.process_header(&header(h + 100000, &[prev], 1)), Ok(ProcessOutcome::Processed));
        }
        prev = h;
    }
    let r = &p.reachability;
    assert!(r.bound > kaspa_consensus::reachability::ROOT_END);
    for x in 0..r.intervals.len() {
        if let Some(t) = r.tree_parents[x] {
            let (pi, xi) = (r.intervals[t], r.intervals[x]);
            assert!(pi.start < xi.start && xi.end <= pi.end);
        } else {
            assert_eq!(x, 0);
        }
    }
}

#[test]
fn conflicting_header_is_rejected() {
    let mut p = diamond(1);
    assert_eq!(p.process_header(&header(30, &[20], 3)), Err(RuleError::ConflictingHeader(30)));
    assert_eq!(p.process_header(&header(30, &[20, 10], 4)), Err(RuleError::ConflictingHeader(30)));
    assert_eq!(p.process_header(&header(30, &[10, 20], 3)), Err(RuleError::ConflictingHeader(30)));
    assert_eq!(p.parents_of(30), Some(vec![20, 10]));
    assert_eq!(p.block_count(), 4);
}

#[test]
fn tree_children_follow_tree_parents() {
    let p = diamond(1);
    let r = &p.reachability;
    assert_eq!(r.bound, kaspa_consensus::reachability::ROOT_END);
    for x in 0..r.tree_children.len() {
        for y in 0..r.tree_parents.len() {
            assert_eq!(r.tree_children[x].contains(&y), r.tree_parents[y] == Some(x));
        }
    }
    // C (number 3) hangs under its selected parent B (number 2).
    assert_eq!(r.tree_parents[3], Some(2));
}

#[test]
fn blue_past_of_chain_counts_against_candidates() {
    let mut p = HeaderProcessor::new(&params(1));
    // G = 1; A = 2 and B = 3 on G; S = 4 on A; X = 5 on S and B.
    assert_eq!(p.process_header(&header(2, &[1], 1)), Ok(ProcessOutcome::Processed));
    assert_eq!(p.process_header(&header(3, &[1], 1)), Ok(ProcessOutcome::Processed));
    assert_eq!(p.process_header(&header(4, &[2], 1)), Ok(ProcessOutcome::Processed));
    assert_eq!(p.process_header(&header(5, &[4, 3], 1)), Ok(ProcessOutcome::Processed));
    assert_eq!(p.mergeset_blues(4), Some(vec![2]));
    assert_eq!(p.selected_parent(5), Some(4));
    // B has A (blue in S's mergeset) and S in its anticone: 2 > k.
    assert_eq!(p.mergeset_blues(5), Some(vec![4]));
    assert_eq!(p.mergeset_reds(5), Some(vec![3]));
    assert_eq!(p.mergeset_anticone_sizes(5), Some(vec![2]));
    assert_eq!(p.blue_score(5), Some(3));
}
