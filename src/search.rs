//! The three searches from a start board to the goal: best-first (A*),
//! iterative deepening (IDA*) and beam search.
use std::collections::{HashMap, HashSet};
use std::time::{Duration, Instant};
use vstd::prelude::*;
use vstd::set_lib::{lemma_int_range, lemma_len_subset, set_int_range};

use crate::board::{
    direction_at, goal_cells, is_plan, key_of, lemma_direction_listed, lemma_key_injective,
    lemma_run_append, lemma_run_prepend, lemma_run_push, lemma_run_well_formed,
    lemma_step_well_formed, run, step, well_formed, Board, Direction,
};
use crate::heuristics::{admissible, estimate_of, lemma_estimate_nonneg, Heuristic};
use crate::plan::{
    along, direction_index, fresh_plan, lemma_path_push, lemma_plan_prefix, lemma_plan_tail,
    lemma_shortcut, no_longer_than_any, path_keys,
};
use crate::min_heap::{is_min_at, MinHeap};

verus! {

/// std::time::Instant, carried opaquely to time a search.
#[verifier::external_type_specification]
#[verifier::external_body]
pub struct ExInstant(std::time::Instant);

/// Relies on std::time::Instant::now: the current time, nothing more.
pub assume_specification[ std::time::Instant::now ]() -> std::time::Instant;

/// Relies on std::time::Instant::elapsed: the time since the instant.
pub assume_specification[ std::time::Instant::elapsed ](i: &std::time::Instant) -> Duration;

/// Statistics of a search.
pub struct Stats {
    /// Number of boards expanded.
    pub expanded: usize,
    /// Wall-clock time spent in the search.
    pub runtime: Duration,
}

impl Stats {
    /// Statistics with the given expanded count and runtime.
    pub fn new(expanded: usize, runtime: Duration) -> (r: Stats)
        ensures
            r.expanded == expanded,
            r.runtime == runtime,
    {
        Stats { expanded, runtime }
    }
}

/// Sum of the costs recorded under `keys`.
spec fn total_cost(keys: Seq<int>, costs: Map<u64, u32>) -> int
    decreases keys.len(),
{
    if keys.len() == 0 {
        0
    } else {
        total_cost(keys.drop_last(), costs) + costs[keys.last() as u64]
    }
}

/// What is left to spend: each key not yet recorded may still take any cost,
/// each recorded one may still fall to 0.
spec fn potential(keys: Seq<int>, costs: Map<u64, u32>) -> int {
    total_cost(keys, costs) + (0x1_0000_0000_0000_0000 - keys.len()) * 0x1_0000_0000
}

/// `keys` lists the keys of `costs`, each once.
spec fn lists_keys(keys: Seq<int>, costs: Map<u64, u32>) -> bool {
    &&& keys.no_duplicates()
    &&& forall|i: int| 0 <= i < keys.len() ==> 0 <= #[trigger] keys[i] < 0x1_0000_0000_0000_0000
    &&& forall|k: u64| costs.contains_key(k) <==> keys.contains(k as int)
}

proof fn lemma_total_nonneg(keys: Seq<int>, costs: Map<u64, u32>)
    ensures
        total_cost(keys, costs) >= 0,
    decreases keys.len(),
{
    if keys.len() > 0 {
        lemma_total_nonneg(keys.drop_last(), costs);
    }
}

proof fn lemma_total_other(keys: Seq<int>, costs: Map<u64, u32>, k: u64, v: u32)
    requires
        !keys.contains(k as int),
        forall|i: int| 0 <= i < keys.len() ==> 0 <= #[trigger] keys[i] < 0x1_0000_0000_0000_0000,
    ensures
        total_cost(keys, costs.insert(k, v)) == total_cost(keys, costs),
    decreases keys.len(),
{
    if keys.len() > 0 {
        assert(keys.drop_last().contains(k as int) ==> keys.contains(k as int)) by {
            if keys.drop_last().contains(k as int) {
                let i = choose|i: int| 0 <= i < keys.drop_last().len() && keys.drop_last()[i] == k as int;
                assert(keys[i] == k as int);
            }
        }
        lemma_total_other(keys.drop_last(), costs, k, v);
        assert(keys.last() as u64 != k) by {
            assert(keys[keys.len() - 1] == keys.last());
        }
    }
}

proof fn lemma_total_update(keys: Seq<int>, costs: Map<u64, u32>, k: u64, v: u32)
    requires
        keys.no_duplicates(),
        keys.contains(k as int),
        forall|i: int| 0 <= i < keys.len() ==> 0 <= #[trigger] keys[i] < 0x1_0000_0000_0000_0000,
    ensures
        total_cost(keys, costs.insert(k, v)) == total_cost(keys, costs) - costs[k] + v,
    decreases keys.len(),
{
    let rest = keys.drop_last();
    if keys.last() == k as int {
        assert(!rest.contains(k as int)) by {
            if rest.contains(k as int) {
                let i = choose|i: int| 0 <= i < rest.len() && rest[i] == k as int;
                assert(keys[i] == keys[keys.len() - 1]);
            }
        }
        lemma_total_other(rest, costs, k, v);
    } else {
        let i = choose|i: int| 0 <= i < keys.len() && keys[i] == k as int;
        assert(i < keys.len() - 1);
        assert(rest[i] == k as int);
        lemma_total_update(rest, costs, k, v);
        assert(keys.last() == keys[keys.len() - 1]);
        assert(keys.last() as u64 != k);
    }
}

proof fn lemma_keys_bound(keys: Seq<int>)
    requires
        keys.no_duplicates(),
        forall|i: int| 0 <= i < keys.len() ==> 0 <= #[trigger] keys[i] < 0x1_0000_0000_0000_0000,
    ensures
        keys.len() <= 0x1_0000_0000_0000_0000,
{
    let all = set_int_range(0, 0x1_0000_0000_0000_0000);
    keys.unique_seq_to_set();
    lemma_int_range(0, 0x1_0000_0000_0000_0000);
    assert forall|x: int| keys.to_set().contains(x) implies all.contains(x) by {
        let i = choose|i: int| 0 <= i < keys.len() && keys[i] == x;
        assert(0 <= keys[i] < 0x1_0000_0000_0000_0000);
    }
    lemma_len_subset(keys.to_set(), all);
}

/// The queue holds an entry for `b` under its recorded cost plus estimate.
spec fn queued(b: Seq<u8>, costs: Map<u64, u32>, heap: Seq<(u64, Board)>, h: Heuristic) -> bool {
    exists|j: int|
        0 <= j < heap.len() && (#[trigger] heap[j]).1@ == b && heap[j].0 == costs[key_of(b) as u64]
            + estimate_of(h, b)
}

/// Every successor of `b` is recorded at a cost at most one above that of `b`.
spec fn settled(b: Seq<u8>, costs: Map<u64, u32>) -> bool {
    costs[key_of(b) as u64] < u32::MAX ==> forall|d: Direction| #[trigger]
        step(b, d) is Some ==> {
            &&& costs.contains_key(key_of(step(b, d)->0) as u64)
            &&& costs[key_of(step(b, d)->0) as u64] <= costs[key_of(b) as u64] + 1
        }
}

/// What A* keeps for its optimality: every recorded board is waiting in the
/// queue under its current cost, or has been expanded at that cost; the goal,
/// once recorded, is always waiting.
spec fn frontier_ok(costs: Map<u64, u32>, heap: Seq<(u64, Board)>, h: Heuristic) -> bool {
    &&& forall|b: Seq<u8>|
        well_formed(b) && #[trigger] costs.contains_key(key_of(b) as u64) ==> queued(
            b,
            costs,
            heap,
            h,
        ) || settled(b, costs)
    &&& costs.contains_key(key_of(goal_cells()) as u64) ==> queued(goal_cells(), costs, heap, h)
}

/// `frontier_ok` for every board but `x`, which is being expanded.
spec fn frontier_except(costs: Map<u64, u32>, heap: Seq<(u64, Board)>, h: Heuristic, x: Seq<u8>) -> bool {
    &&& forall|b: Seq<u8>|
        well_formed(b) && b != x && #[trigger] costs.contains_key(key_of(b) as u64) ==> queued(
            b,
            costs,
            heap,
            h,
        ) || settled(b, costs)
    &&& costs.contains_key(key_of(goal_cells()) as u64) ==> queued(goal_cells(), costs, heap, h)
}

/// The successors of `x` by the first `i` directions are recorded at a cost of
/// at most `g + 1`.
spec fn partly_settled(x: Seq<u8>, costs: Map<u64, u32>, g: int, i: int) -> bool {
    forall|k: int|
        0 <= k < i && #[trigger] step(x, direction_at(k)) is Some ==> {
            &&& costs.contains_key(key_of(step(x, direction_at(k))->0) as u64)
            &&& costs[key_of(step(x, direction_at(k))->0) as u64] <= g + 1
        }
}

proof fn lemma_frontier_pop(costs: Map<u64, u32>, heap: Seq<(u64, Board)>, h: Heuristic, i: int)
    requires
        frontier_ok(costs, heap, h),
        0 <= i < heap.len(),
        heap[i].1@ != goal_cells(),
    ensures
        frontier_except(costs, heap.remove(i), h, heap[i].1@),
{
    let x = heap[i].1@;
    let rest = heap.remove(i);
    assert forall|b: Seq<u8>| queued(b, costs, heap, h) && b != x implies queued(b, costs, rest, h) by {
        let j = choose|j: int|
            0 <= j < heap.len() && (#[trigger] heap[j]).1@ == b && heap[j].0 == costs[key_of(b) as u64]
                + estimate_of(h, b);
        if j < i {
            assert(rest[j] == heap[j]);
        } else {
            assert(rest[j - 1] == heap[j]);
        }
    }
}

proof fn lemma_frontier_pop_stale(costs: Map<u64, u32>, heap: Seq<(u64, Board)>, h: Heuristic, i: int)
    requires
        frontier_ok(costs, heap, h),
        0 <= i < heap.len(),
        heap[i].1@ != goal_cells(),
        heap[i].0 != costs[key_of(heap[i].1@) as u64] + estimate_of(h, heap[i].1@),
    ensures
        frontier_ok(costs, heap.remove(i), h),
{
    let rest = heap.remove(i);
    assert forall|b: Seq<u8>| queued(b, costs, heap, h) implies queued(b, costs, rest, h) by {
        let j = choose|j: int|
            0 <= j < heap.len() && (#[trigger] heap[j]).1@ == b && heap[j].0 == costs[key_of(b) as u64]
                + estimate_of(h, b);
        assert(j != i);
        if j < i {
            assert(rest[j] == heap[j]);
        } else {
            assert(rest[j - 1] == heap[j]);
        }
    }
}

proof fn lemma_frontier_update(
    costs: Map<u64, u32>,
    heap: Seq<(u64, Board)>,
    h: Heuristic,
    x: Seq<u8>,
    g: int,
    i: int,
    nb: Board,
    cost: u32,
)
    requires
        frontier_except(costs, heap, h, x),
        partly_settled(x, costs, g, i),
        nb.wf(),
        0 <= estimate_of(h, nb@) <= 96,
        costs.contains_key(key_of(nb@) as u64) ==> cost < costs[key_of(nb@) as u64],
        well_formed(x),
        costs.contains_key(key_of(x) as u64),
        nb@ != x,
    ensures
        frontier_except(
            costs.insert(key_of(nb@) as u64, cost),
            heap.push(((cost + estimate_of(h, nb@)) as u64, nb)),
            h,
            x,
        ),
        partly_settled(x, costs.insert(key_of(nb@) as u64, cost), g, i),
{
    let nk = key_of(nb@) as u64;
    let c2 = costs.insert(nk, cost);
    let e = ((cost + estimate_of(h, nb@)) as u64, nb);
    let h2 = heap.push(e);
    assert(h2[heap.len() as int] == e);
    crate::board::lemma_key_bound_wf(nb@);
    assert forall|b: Seq<u8>| well_formed(b) && #[trigger] c2.contains_key(key_of(b) as u64) && key_of(b) as u64 == nk implies b == nb@ by {
        crate::board::lemma_key_bound_wf(b);
        lemma_key_injective(b, nb@);
    }
    assert forall|b: Seq<u8>| queued(b, costs, heap, h) && key_of(b) as u64 != nk implies queued(b, c2, h2, h) by {
        let j = choose|j: int|
            0 <= j < heap.len() && (#[trigger] heap[j]).1@ == b && heap[j].0 == costs[key_of(b) as u64]
                + estimate_of(h, b);
        assert(h2[j] == heap[j]);
    }
    assert forall|b: Seq<u8>| settled(b, costs) && key_of(b) as u64 != nk implies settled(b, c2) by {
        if c2[key_of(b) as u64] < u32::MAX {
            assert forall|d: Direction| #[trigger] step(b, d) is Some implies {
                &&& c2.contains_key(key_of(step(b, d)->0) as u64)
                &&& c2[key_of(step(b, d)->0) as u64] <= c2[key_of(b) as u64] + 1
            } by {
                assert(costs.contains_key(key_of(step(b, d)->0) as u64));
            }
        }
    }
    assert(queued(nb@, c2, h2, h)) by {
        assert(h2[heap.len() as int].1@ == nb@);
    }
    assert forall|k: int|
        0 <= k < i && #[trigger] step(x, direction_at(k)) is Some implies {
            &&& c2.contains_key(key_of(step(x, direction_at(k))->0) as u64)
            &&& c2[key_of(step(x, direction_at(k))->0) as u64] <= g + 1
        } by {
    }
    assert forall|b: Seq<u8>|
        well_formed(b) && b != x && #[trigger] c2.contains_key(key_of(b) as u64) implies queued(
            b,
            c2,
            h2,
            h,
        ) || settled(b, c2) by {
        if key_of(b) as u64 == nk {
            assert(b == nb@);
        } else {
            assert(costs.contains_key(key_of(b) as u64));
        }
    }
    if c2.contains_key(key_of(goal_cells()) as u64) {
        lemma_goal_well_formed();
        if key_of(goal_cells()) as u64 == nk {
            assert(goal_cells() == nb@);
        } else {
            assert(costs.contains_key(key_of(goal_cells()) as u64));
        }
    }
}

proof fn lemma_goal_well_formed()
    ensures
        well_formed(goal_cells()),
{
    assert(goal_cells()[15] == 0);
}

proof fn lemma_frontier_settle(costs: Map<u64, u32>, heap: Seq<(u64, Board)>, h: Heuristic, x: Seq<u8>)
    requires
        frontier_except(costs, heap, h, x),
        costs[key_of(x) as u64] < u32::MAX ==> partly_settled(x, costs, costs[key_of(x) as u64] as int, 4),
    ensures
        frontier_ok(costs, heap, h),
{
    assert(settled(x, costs)) by {
        if costs[key_of(x) as u64] < u32::MAX {
            assert forall|d: Direction| #[trigger] step(x, d) is Some implies {
                &&& costs.contains_key(key_of(step(x, d)->0) as u64)
                &&& costs[key_of(step(x, d)->0) as u64] <= costs[key_of(x) as u64] + 1
            } by {
                lemma_direction_listed(d);
                let k = choose|k: int| 0 <= k < 4 && direction_at(k) == d;
                assert(step(x, direction_at(k)) is Some);
            }
        }
    }
}

/// Along a plan `m` from `init`, the board after `i` moves is recorded at a
/// cost of at most `i`; then some entry of the queue has a key of at most the
/// length of `m`.
proof fn lemma_waiting_entry(
    init: Seq<u8>,
    m: Seq<Direction>,
    costs: Map<u64, u32>,
    heap: Seq<(u64, Board)>,
    h: Heuristic,
    i: int,
)
    requires
        well_formed(init),
        admissible(h),
        is_plan(init, m),
        m.len() < u32::MAX,
        frontier_ok(costs, heap, h),
        0 <= i <= m.len(),
        costs.contains_key(key_of(run(init, m.take(i))->0) as u64),
        costs[key_of(run(init, m.take(i))->0) as u64] <= i,
    ensures
        exists|j: int| 0 <= j < heap.len() && #[trigger] heap[j].0 <= m.len(),
    decreases m.len() - i,
{
    assert(m.take(i) + m.skip(i) =~= m);
    if run(init, m.take(i)) is None {
        crate::board::lemma_run_rejected(init, m.take(i), m.skip(i));
    }
    lemma_run_append(init, m.take(i), m.skip(i));
    let s = run(init, m.take(i))->0;
    lemma_run_well_formed(init, m.take(i));
    assert(is_plan(s, m.skip(i)));
    assert(estimate_of(h, s) <= m.len() - i);
    if queued(s, costs, heap, h) {
        let j = choose|j: int|
            0 <= j < heap.len() && (#[trigger] heap[j]).1@ == s && heap[j].0 == costs[key_of(s) as u64]
                + estimate_of(h, s);
        assert(heap[j].0 <= m.len());
    } else {
        if i == m.len() {
            assert(m.take(i) =~= m);
            assert(false);
        }
        assert(settled(s, costs));
        let d = m[i];
        assert(m.take(i).push(d) =~= m.take(i + 1));
        lemma_run_push(init, m.take(i), d);
        assert(m.take(i + 1) + m.skip(i + 1) =~= m);
        if run(init, m.take(i + 1)) is None {
            crate::board::lemma_run_rejected(init, m.take(i + 1), m.skip(i + 1));
        }
        assert(step(s, d) is Some);
        lemma_waiting_entry(init, m, costs, heap, h, i + 1);
    }
}

/// What the tables of A* keep: the start has cost 0 and no predecessor; every
/// other recorded board has a predecessor of smaller cost from which its move
/// leads to it.
spec fn tables_ok(
    start: Seq<u8>,
    costs: Map<u64, u32>,
    came_from: Map<u64, (Board, Direction)>,
) -> bool {
    let sk = key_of(start) as u64;
    &&& costs.contains_key(sk)
    &&& costs[sk] == 0
    &&& !came_from.contains_key(sk)
    &&& forall|k: u64| #[trigger] costs.contains_key(k) && k != sk ==> came_from.contains_key(k)
    &&& forall|k: u64| #[trigger]
        came_from.contains_key(k) ==> {
            let (p, d) = came_from[k];
            &&& costs.contains_key(k)
            &&& p.wf()
            &&& costs.contains_key(key_of(p@) as u64)
            &&& costs[key_of(p@) as u64] < costs[k]
            &&& step(p@, d) is Some
            &&& key_of(step(p@, d)->0) == k
        }
}

/// Walks the predecessor links back from `end` to the start and returns the
/// moves in playing order.
fn reconstruct(
    end: &Board,
    start_key: u64,
    costs: &HashMap<u64, u32>,
    came_from: &HashMap<u64, (Board, Direction)>,
    Ghost(start): Ghost<Seq<u8>>,
) -> (r: Vec<Direction>)
    requires
        well_formed(start),
        start_key == key_of(start),
        end.wf(),
        end@ == goal_cells(),
        costs@.contains_key(key_of(end@) as u64),
        tables_ok(start, costs@, came_from@),
    ensures
        is_plan(start, r@),
        key_of(end@) == start_key ==> r@.len() == 0,
        r@.len() <= costs@[key_of(end@) as u64],
{
    let mut cur = *end;
    let mut path: Vec<Direction> = Vec::new();
    let mut k = cur.key();
    while k != start_key
        invariant
            well_formed(start),
            start_key == key_of(start),
            cur.wf(),
            k == key_of(cur@),
            costs@.contains_key(k),
            tables_ok(start, costs@, came_from@),
            run(cur@, path@) == Some(goal_cells()),
            key_of(end@) == start_key ==> k == start_key && path@.len() == 0,
            path@.len() + costs@[k] <= costs@[key_of(end@) as u64],
        decreases costs@[k],
    {
        let entry = came_from.get(&k);
        match entry {
            Some(e) => {
                let (prev, dir) = *e;
                proof {
                    let b = step(prev@, dir)->0;
                    lemma_step_well_formed(prev@, dir);
                    lemma_key_injective(b, cur@);
                    lemma_run_prepend(prev@, cur@, dir, path@);
                }
                let ghost tail = path@;
                path.insert(0, dir);
                assert(path@ =~= seq![dir] + tail);
                cur = prev;
                k = cur.key();
            },
            None => {
                assert(false);
                return path;
            },
        }
    }
    proof {
        lemma_key_injective(cur@, start);
    }
    path
}

/// Best-first search (A*). The cost table keeps the best known number of
/// moves to each board seen, the predecessor table the board and move it was
/// reached by, and the queue orders boards by cost plus estimate. Returns a
/// plan from `init` to the goal, or `None` once the queue is empty, with the
/// number of expanded boards and the time spent.
pub fn search(init_state: Board, heuristic: &Heuristic) -> (r: (Option<Vec<Direction>>, Stats))
    requires
        init_state.wf(),
    ensures
        r.0 matches Some(p) ==> is_plan(init_state@, p@),
        init_state@ == goal_cells() ==> (r.0 matches Some(p) && p@.len() == 0 && r.1.expanded == 0),
        forall|m: Seq<Direction>|
            admissible(*heuristic) && #[trigger] is_plan(init_state@, m) && m.len() < u32::MAX ==> (
            r.0 matches Some(p) && p@.len() <= m.len()),
        admissible(*heuristic) ==> (r.0 matches Some(p) ==> no_longer_than_any(init_state@, p@)),
        r.0 matches Some(p) ==> p@.len() <= u32::MAX,
{
    let start = Instant::now();
    let mut heap: MinHeap<Board> = MinHeap::new();
    let mut costs: HashMap<u64, u32> = HashMap::new();
    let mut came_from: HashMap<u64, (Board, Direction)> = HashMap::new();
    let mut expanded: usize = 0;
    let goal = Board::goal();

    let start_key = init_state.key();
    heap.insert(init_state, heuristic.estimate(&init_state) as u64);
    costs.insert(start_key, 0);
    let ghost mut keys: Seq<int> = seq![start_key as int];
    assert(keys.no_duplicates());
    assert forall|k: u64| costs@.contains_key(k) <==> keys.contains(k as int) by {
        if keys.contains(k as int) {
            assert(keys[0] == start_key);
        }
        if costs@.contains_key(k) {
            assert(k == start_key);
            assert(keys[0] == k as int);
        }
    }
    proof {
        lemma_total_nonneg(keys, costs@);
        lemma_estimate_nonneg(*heuristic, init_state@);
        crate::board::lemma_key_bound_wf(init_state@);
        assert(heap@[0].1@ == init_state@);
        assert(queued(init_state@, costs@, heap@, *heuristic));
        assert forall|b: Seq<u8>|
            well_formed(b) && #[trigger] costs@.contains_key(key_of(b) as u64) implies queued(
                b,
                costs@,
                heap@,
                *heuristic,
            ) || settled(b, costs@) by {
            crate::board::lemma_key_bound_wf(b);
            lemma_key_injective(b, init_state@);
        }
        if costs@.contains_key(key_of(goal_cells()) as u64) {
            lemma_goal_well_formed();
            crate::board::lemma_key_bound_wf(goal_cells());
            lemma_key_injective(goal_cells(), init_state@);
        }
    }
    let ghost mut started = false;

    loop
        invariant
            init_state.wf(),
            goal@ == goal_cells(),
            start_key == key_of(init_state@),
            tables_ok(init_state@, costs@, came_from@),
            forall|j: int| 0 <= j < heap@.len() ==> {
                &&& (#[trigger] heap@[j]).1.wf()
                &&& costs@.contains_key(key_of(heap@[j].1@) as u64)
                &&& heap@[j].0 >= costs@[key_of(heap@[j].1@) as u64] + estimate_of(*heuristic, heap@[j].1@)
            },
            frontier_ok(costs@, heap@, *heuristic),
            lists_keys(keys, costs@),
            potential(keys, costs@) >= 0,
            !started ==> heap@.len() == 1 && heap@[0].1 == init_state && expanded == 0,
            init_state@ == goal_cells() ==> !started,
        ensures
            init_state@ != goal_cells(),
            forall|m: Seq<Direction>|
                admissible(*heuristic) && #[trigger] is_plan(init_state@, m) ==> m.len() >= u32::MAX,
        decreases heap@.len() + 5 * potential(keys, costs@),
    {
        let ghost measure = heap@.len() + 5 * potential(keys, costs@);
        let ghost head_heap = heap@;
        let popped = heap.pop_entry();
        let (key, state) = match popped {
            Some(e) => e,
            None => {
                proof {
                    assert forall|m: Seq<Direction>|
                        admissible(*heuristic) && #[trigger] is_plan(init_state@, m) implies m.len() >= u32::MAX by {
                        if m.len() < u32::MAX {
                            assert(m.take(0) =~= Seq::<Direction>::empty());
                            lemma_waiting_entry(init_state@, m, costs@, head_heap, *heuristic, 0);
                        }
                    }
                }
                break;
            },
        };
        let ghost pi = choose|i: int|
            {
                &&& is_min_at(head_heap, i)
                &&& popped == Some(#[trigger] head_heap[i])
                &&& heap@ == head_heap.remove(i)
            };
        assert(head_heap[pi].1 == state && head_heap[pi].0 == key);
        proof {
            if !started {
                assert(state == init_state);
            }
            started = true;
        }
        if state == goal {
            let path = reconstruct(&state, start_key, &costs, &came_from, Ghost(init_state@));
            proof {
                lemma_estimate_nonneg(*heuristic, state@);
                assert forall|m: Seq<Direction>|
                    admissible(*heuristic) && #[trigger] is_plan(init_state@, m) && m.len() < u32::MAX implies path@.len() <= m.len() by {
                    assert(m.take(0) =~= Seq::<Direction>::empty());
                    lemma_waiting_entry(init_state@, m, costs@, head_heap, *heuristic, 0);
                    let j = choose|j: int| 0 <= j < head_heap.len() && #[trigger] head_heap[j].0 <= m.len();
                    assert(head_heap[pi].0 <= head_heap[j].0);
                }
            }
            return (Some(path), Stats::new(expanded, start.elapsed()));
        }
        let state_key = state.key();
        let g: u32 = match costs.get(&state_key) {
            Some(c) => *c,
            None => {
                assert(false);
                0
            },
        };
        // An entry queued before its board's cost improved is stale: the
        // board was queued again under the better cost.
        if key > g as u64 + heuristic.estimate(&state) as u64 {
            proof {
                lemma_frontier_pop_stale(costs@, head_heap, *heuristic, pi);
            }
            continue;
        }
        proof {
            lemma_frontier_pop(costs@, head_heap, *heuristic, pi);
        }
        expanded = expanded.saturating_add(1);
        if g < u32::MAX {
            let cost = g + 1;
            let mut i: usize = 0;
            while i < 4
                invariant
                    i <= 4,
                    state.wf(),
                    state_key == key_of(state@),
                    costs@.contains_key(state_key),
                    costs@[state_key] == g,
                    cost == g + 1,
                    start_key == key_of(init_state@),
                    init_state.wf(),
                    tables_ok(init_state@, costs@, came_from@),
                    forall|j: int| 0 <= j < heap@.len() ==> {
                        &&& (#[trigger] heap@[j]).1.wf()
                        &&& costs@.contains_key(key_of(heap@[j].1@) as u64)
                        &&& heap@[j].0 >= costs@[key_of(heap@[j].1@) as u64] + estimate_of(*heuristic, heap@[j].1@)
                    },
                    frontier_except(costs@, heap@, *heuristic, state@),
                    partly_settled(state@, costs@, g as int, i as int),
                    lists_keys(keys, costs@),
                    potential(keys, costs@) >= 0,
                    heap@.len() + 5 * potential(keys, costs@) < measure,
                decreases 4 - i,
            {
                let dir = Direction::from_index(i);
                match state.apply(dir) {
                    Some(new_state) => {
                        let new_key = new_state.key();
                        let better = match costs.get(&new_key) {
                            Some(c) => cost < *c,
                            None => true,
                        };
                        if better {
                            let ghost old_costs = costs@;
                            let ghost old_keys = keys;
                            let ghost old_heap = heap@;
                            let h = heuristic.estimate(&new_state);
                            proof {
                                lemma_frontier_update(costs@, heap@, *heuristic, state@, g as int, i as int, new_state, cost);
                                lemma_total_nonneg(keys, costs@);
                                if old_costs.contains_key(new_key) {
                                    lemma_total_update(keys, old_costs, new_key, cost);
                                } else {
                                    lemma_total_other(keys, old_costs, new_key, cost);
                                    assert(!old_keys.contains(new_key as int));
                                    keys = keys.push(new_key as int);
                                    assert forall|a: int, b: int| 0 <= a < keys.len() && 0 <= b < keys.len() && a != b implies keys[a] != keys[b] by {
                                        if a < old_keys.len() && b < old_keys.len() {
                                            assert(old_keys[a] != old_keys[b]);
                                        } else if a < old_keys.len() {
                                            assert(old_keys.contains(old_keys[a]));
                                        } else {
                                            assert(old_keys.contains(old_keys[b]));
                                        }
                                    }
                                    assert(keys.drop_last() =~= old_keys);
                                    lemma_keys_bound(keys);
                                }
                            }
                            costs.insert(new_key, cost);
                            came_from.insert(new_key, (state, dir));
                            heap.insert(new_state, cost as u64 + h as u64);
                            proof {
                                lemma_total_nonneg(keys, costs@);
                                assert(new_key != start_key);
                                assert forall|k: u64| costs@.contains_key(k) <==> keys.contains(k as int) by {
                                    if k == new_key {
                                        assert(keys.contains(new_key as int)) by {
                                            if !old_costs.contains_key(new_key) {
                                                assert(keys[keys.len() - 1] == new_key as int);
                                            }
                                        }
                                    } else if keys.contains(k as int) && !old_keys.contains(k as int) {
                                        let j = choose|j: int| 0 <= j < keys.len() && keys[j] == k as int;
                                        assert(j < old_keys.len() ==> old_keys[j] == keys[j]);
                                    } else if old_keys.contains(k as int) {
                                        let j = choose|j: int| 0 <= j < old_keys.len() && old_keys[j] == k as int;
                                        assert(keys[j] == old_keys[j]);
                                    }
                                }
                                assert(keys.no_duplicates());
                                lemma_keys_bound(keys);
                                assert forall|j: int| 0 <= j < heap@.len() implies {
                                    &&& (#[trigger] heap@[j]).1.wf()
                                    &&& costs@.contains_key(key_of(heap@[j].1@) as u64)
                                } by {
                                    if j == heap@.len() - 1 {
                                        assert(heap@[j].1 == new_state);
                                    }
                                }
                                assert forall|k: u64| #[trigger] came_from@.contains_key(k) implies {
                                    let (p, d) = came_from@[k];
                                    &&& costs@.contains_key(k)
                                    &&& p.wf()
                                    &&& costs@.contains_key(key_of(p@) as u64)
                                    &&& costs@[key_of(p@) as u64] < costs@[k]
                                    &&& step(p@, d) is Some
                                    &&& key_of(step(p@, d)->0) == k
                                } by {
                                    if k != new_key {
                                        let (p, d) = came_from@[k];
                                        assert(old_costs[key_of(p@) as u64] < old_costs[k]);
                                    }
                                }
                            }
                        }
                    },
                    None => {},
                }
                i = i + 1;
            }
        }
        proof {
            lemma_frontier_settle(costs@, heap@, *heuristic, state@);
        }
    }
    (None, Stats::new(expanded, start.elapsed()))
}

/// Bounded depth-first search of IDA*. `path` leads from `start` to `board`
/// and `visited` holds the keys of the boards on it. Returns `Err` with a
/// plan from `start` when the goal is found within `threshold`, else `Ok`
/// with the smallest total estimate seen above `threshold` (`u32::MAX` when
/// there is none, or when it does not fit). Both `path` and `visited` are
/// given back as they came.
fn dfs(
    board: &Board,
    g: u32,
    threshold: u32,
    heuristic: &Heuristic,
    path: &mut Vec<Direction>,
    visited: &mut HashSet<u64>,
    Ghost(start): Ghost<Seq<u8>>,
) -> (r: Result<u32, Vec<Direction>>)
    requires
        board.wf(),
        g <= threshold + 1,
        threshold < u32::MAX,
        run(start, old(path)@) == Some(board@),
        g == old(path)@.len(),
        well_formed(start),
        old(visited)@ == path_keys(start, old(path)@),
        fresh_plan(start, old(path)@, Set::empty().insert(key_of(start) as u64)),
    ensures
        final(path)@ == old(path)@,
        final(visited)@ == old(visited)@,
        r matches Ok(t) ==> t > threshold,
        r matches Err(sol) ==> is_plan(start, sol@) && sol@.len() <= threshold,
        r matches Err(sol) ==> fresh_plan(start, sol@, Set::empty().insert(key_of(start) as u64)),
        forall|m: Seq<Direction>|
            admissible(*heuristic) && #[trigger] is_plan(board@, m) && fresh_plan(
                board@,
                m,
                old(visited)@,
            ) ==> (r matches Ok(t) ==> t <= g + m.len()),
        board@ == goal_cells() && g + estimate_of(*heuristic, board@) <= threshold ==> (r matches Err(
            sol,
        ) && sol@ == old(path)@),
    decreases threshold + 1 - g,
{
    let h = heuristic.estimate(board);
    let f: u64 = g as u64 + h as u64;
    if f > threshold as u64 {
        if f >= u32::MAX as u64 {
            return Ok(u32::MAX);
        }
        return Ok(f as u32);
    }
    if *board == Board::goal() {
        let sol = path.clone();
        assert(sol@ =~= path@);
        return Err(sol);
    }
    let mut min_over: u32 = u32::MAX;
    let mut i: usize = 0;
    while i < 4
        invariant
            i <= 4,
            board.wf(),
            g <= threshold,
            threshold < u32::MAX,
            run(start, old(path)@) == Some(board@),
            path@ == old(path)@,
            visited@ == old(visited)@,
            min_over > threshold,
            board@ != goal_cells(),
            g == old(path)@.len(),
            well_formed(start),
            old(visited)@ == path_keys(start, old(path)@),
            fresh_plan(start, old(path)@, Set::empty().insert(key_of(start) as u64)),
            forall|m: Seq<Direction>|
                admissible(*heuristic) && #[trigger] is_plan(board@, m) && fresh_plan(
                    board@,
                    m,
                    old(visited)@,
                ) && m.len() > 0 && direction_index(m[0]) < i ==> min_over <= g + m.len(),
        decreases 4 - i,
    {
        let dir = Direction::from_index(i);
        let ghost old_min = min_over;
        match board.apply(dir) {
            Some(next) => {
                let k = next.key();
                if visited.insert(k) {
                    path.push(dir);
                    proof {
                        lemma_run_push(start, old(path)@, dir);
                        lemma_path_push(start, old(path)@, dir, next@);
                    }
                    let res = dfs(&next, g + 1, threshold, heuristic, path, visited, Ghost(start));
                    path.pop();
                    visited.remove(&k);
                    assert(path@ =~= old(path)@);
                    assert(visited@ =~= old(visited)@);
                    match res {
                        Err(sol) => {
                            return Err(sol);
                        },
                        Ok(t) => {
                            if t < min_over {
                                min_over = t;
                            }
                            proof {
                                assert forall|m: Seq<Direction>|
                                    admissible(*heuristic) && #[trigger] is_plan(board@, m) && fresh_plan(
                                        board@,
                                        m,
                                        old(visited)@,
                                    ) && m.len() > 0 && direction_index(m[0]) == i implies min_over <= g + m.len() by {
                                    lemma_first_move(board@, m, old(visited)@);
                                    lemma_plan_tail(board@, next@, m, old(visited)@);
                                    assert(is_plan(next@, m.skip(1)));
                                }
                            }
                        },
                    }
                } else {
                    proof {
                        assert forall|m: Seq<Direction>|
                            admissible(*heuristic) && #[trigger] is_plan(board@, m) && fresh_plan(
                                board@,
                                m,
                                old(visited)@,
                            ) && m.len() > 0 && direction_index(m[0]) == i implies false by {
                            lemma_first_move(board@, m, old(visited)@);
                        }
                    }
                }
            },
            None => {
                proof {
                    assert forall|m: Seq<Direction>|
                        admissible(*heuristic) && #[trigger] is_plan(board@, m) && fresh_plan(
                            board@,
                            m,
                            old(visited)@,
                        ) && m.len() > 0 && direction_index(m[0]) == i implies false by {
                        lemma_first_move(board@, m, old(visited)@);
                    }
                }
            },
        }
        i = i + 1;
    }
    proof {
        assert forall|m: Seq<Direction>|
            admissible(*heuristic) && #[trigger] is_plan(board@, m) && fresh_plan(
                board@,
                m,
                old(visited)@,
            ) implies m.len() > 0 && direction_index(m[0]) < 4 by {
            if m.len() == 0 {
                assert(run(board@, m) == Some(board@));
            }
        }
    }
    Ok(min_over)
}

/// The first move of a plan from `s` is accepted, and leads to a board whose
/// key is not in `visited` when the plan is fresh.
proof fn lemma_first_move(s: Seq<u8>, m: Seq<Direction>, visited: Set<u64>)
    requires
        well_formed(s),
        is_plan(s, m),
        fresh_plan(s, m, visited),
        m.len() > 0,
    ensures
        step(s, m[0]) is Some,
        step(s, m[0]) == Some(along(s, m, 1)),
        !visited.contains(key_of(step(s, m[0])->0) as u64),
        m[0] == direction_at(direction_index(m[0])),
{
    lemma_plan_prefix(s, m, 1);
    assert(m.take(1) =~= Seq::<Direction>::empty().push(m[0]));
    lemma_run_push(s, Seq::<Direction>::empty(), m[0]);
    assert(run(s, Seq::<Direction>::empty()) == Some(s));
    assert(!visited.contains(key_of(along(s, m, 1)) as u64));
}

/// IDA* search: repeated depth-first searches bounded by a threshold on the
/// total estimate, raised each round to the smallest estimate that went over
/// it. A returned plan leads from `init` to the goal.
pub fn ida_star(init: Board, heuristic: &Heuristic) -> (r: Option<Vec<Direction>>)
    requires
        init.wf(),
    ensures
        r matches Some(p) ==> is_plan(init@, p@),
        init@ == goal_cells() ==> (r matches Some(p) && p@.len() == 0),
        forall|m: Seq<Direction>|
            admissible(*heuristic) && #[trigger] is_plan(init@, m) && m.len() < u32::MAX ==> (
            r matches Some(p) && p@.len() <= m.len()),
        admissible(*heuristic) ==> (r matches Some(p) ==> no_longer_than_any(init@, p@)),
        r matches Some(p) ==> p@.len() < u32::MAX,
        r matches Some(p) ==> fresh_plan(init@, p@, Set::empty().insert(key_of(init@) as u64)),
{
    let mut threshold = heuristic.estimate(&init);
    let mut path: Vec<Direction> = Vec::new();
    let mut visited: HashSet<u64> = HashSet::new();
    visited.insert(init.key());
    assert(run(init@, path@) == Some(init@));
    proof {
        assert(path@.take(0) =~= path@);
        assert(along(init@, path@, 0) == init@);
        assert(path_keys(init@, path@) =~= visited@);
    }
    loop
        invariant
            init.wf(),
            threshold < u32::MAX,
            path@ == Seq::<Direction>::empty(),
            init@ == goal_cells() ==> threshold == estimate_of(*heuristic, init@),
            visited@ == Set::<u64>::empty().insert(key_of(init@) as u64),
            visited@ == path_keys(init@, path@),
            fresh_plan(init@, path@, Set::empty().insert(key_of(init@) as u64)),
            forall|m: Seq<Direction>|
                admissible(*heuristic) && #[trigger] is_plan(init@, m) && m.len() < u32::MAX
                    ==> threshold <= m.len(),
        decreases u32::MAX - threshold,
    {
        match dfs(&init, 0, threshold, heuristic, &mut path, &mut visited, Ghost(init@)) {
            Err(solution) => {
                return Some(solution);
            },
            Ok(next_threshold) => {
                proof {
                    assert forall|m: Seq<Direction>|
                        admissible(*heuristic) && #[trigger] is_plan(init@, m) && m.len() < u32::MAX
                            implies next_threshold <= m.len() by {
                        let m2 = lemma_shortcut(init@, m);
                        assert(is_plan(init@, m2));
                    }
                }
                if next_threshold == u32::MAX {
                    return None;
                }
                threshold = next_threshold;
            },
        }
    }
}

/// An entry of the beam: a board, the moves that led to it, and their number.
pub type BeamEntry = (Board, Vec<Direction>, u32);

/// `c` is `e` followed by one accepted move.
pub open spec fn extends(e: BeamEntry, c: BeamEntry) -> bool {
    &&& c.1@.len() == e.1@.len() + 1
    &&& c.1@.drop_last() == e.1@
    &&& step(e.0@, c.1@.last()) == Some(c.0@)
    &&& c.2 == e.2 + 1
}

/// `c` extends one of the entries of `frontier`.
pub open spec fn is_successor(frontier: Seq<BeamEntry>, c: BeamEntry) -> bool {
    exists|m: int| 0 <= m < frontier.len() && #[trigger] extends(frontier[m], c)
}

/// Number of the first `i` directions that are accepted from `b`.
pub open spec fn moves_from(b: Seq<u8>, i: int) -> int
    decreases i,
{
    if i <= 0 {
        0
    } else {
        moves_from(b, i - 1) + if step(b, direction_at(i - 1)) is Some {
            1int
        } else {
            0
        }
    }
}

/// Number of one-move successors of the first `j` entries of `frontier`.
pub open spec fn successor_count(frontier: Seq<BeamEntry>, j: int) -> int
    decreases j,
{
    if j <= 0 {
        0
    } else {
        successor_count(frontier, j - 1) + moves_from(frontier[j - 1].0@, 4)
    }
}

/// `c` is the successor of `e` by move `d`.
pub open spec fn successor_by(e: BeamEntry, d: Direction, c: BeamEntry) -> bool {
    &&& step(e.0@, d) == Some(c.0@)
    &&& c.1@ == e.1@.push(d)
    &&& c.2 == e.2 + 1
}

/// The successor of `e` by `d` stands in `cands`.
pub open spec fn listed(cands: Seq<BeamEntry>, e: BeamEntry, d: Direction) -> bool {
    exists|i: int| 0 <= i < cands.len() && #[trigger] successor_by(e, d, cands[i])
}

/// The score of the successor of `e` by `d`.
pub open spec fn successor_score(h: Heuristic, e: BeamEntry, d: Direction) -> int {
    e.2 + 1 + estimate_of(h, step(e.0@, d)->0)
}

proof fn lemma_listed_insert(cands: Seq<BeamEntry>, p: int, c: BeamEntry, e: BeamEntry, d: Direction)
    requires
        0 <= p <= cands.len(),
        listed(cands, e, d),
    ensures
        listed(cands.insert(p, c), e, d),
{
    let i = choose|i: int| 0 <= i < cands.len() && #[trigger] successor_by(e, d, cands[i]);
    if i < p {
        assert(cands.insert(p, c)[i] == cands[i]);
    } else {
        assert(cands.insert(p, c)[i + 1] == cands[i]);
    }
}

/// The total estimate by which the beam orders its entries.
pub open spec fn beam_score(h: Heuristic, c: BeamEntry) -> int {
    c.2 + estimate_of(h, c.0@)
}

/// An entry of the beam as plain values: cells, moves, and their number.
pub type BeamView = (Seq<u8>, Seq<Direction>, u32);

pub open spec fn view_of(e: BeamEntry) -> BeamView {
    (e.0@, e.1@, e.2)
}

pub open spec fn views(s: Seq<BeamEntry>) -> Seq<BeamView> {
    s.map_values(|e: BeamEntry| view_of(e))
}

/// Moves so far plus estimate: the order of the beam.
pub open spec fn view_score(h: Heuristic, v: BeamView) -> int {
    v.2 + estimate_of(h, v.0)
}

/// The successors of `v` by the first `i` directions, in the order Up, Down,
/// Left, Right.
pub open spec fn successors_upto(v: BeamView, i: int) -> Seq<BeamView>
    decreases i,
{
    if i <= 0 {
        Seq::empty()
    } else {
        let d = direction_at(i - 1);
        successors_upto(v, i - 1) + match step(v.0, d) {
            Some(t) => seq![(t, v.1.push(d), (v.2 + 1) as u32)],
            None => Seq::empty(),
        }
    }
}

/// The successors of the first `j` entries of `f`, entry by entry.
pub open spec fn all_successors(f: Seq<BeamView>, j: int) -> Seq<BeamView>
    decreases j,
{
    if j <= 0 {
        Seq::empty()
    } else {
        all_successors(f, j - 1) + successors_upto(f[j - 1], 4)
    }
}

/// Where `c` goes in `s`, searching from `i`: before the first entry of a
/// larger score, so that equal scores keep their order of arrival.
pub open spec fn insert_index(h: Heuristic, s: Seq<BeamView>, c: BeamView, i: int) -> int
    decreases s.len() - i,
{
    if i >= s.len() {
        s.len() as int
    } else if view_score(h, s[i]) > view_score(h, c) {
        i
    } else {
        insert_index(h, s, c, i + 1)
    }
}

/// `g` sorted by score, stably.
pub open spec fn stable_sort(h: Heuristic, g: Seq<BeamView>) -> Seq<BeamView>
    decreases g.len(),
{
    if g.len() == 0 {
        Seq::empty()
    } else {
        let s = stable_sort(h, g.drop_last());
        s.insert(insert_index(h, s, g.last(), 0), g.last())
    }
}

/// One round of beam search: all successors, stably sorted by score, the first
/// `w` kept.
#[verifier::opaque]
pub open spec fn beam_round(h: Heuristic, f: Seq<BeamView>, w: int) -> Seq<BeamView> {
    let s = stable_sort(h, all_successors(f, f.len() as int));
    if s.len() <= w {
        s
    } else {
        s.take(w)
    }
}

/// The moves of the first goal entry of `f` from index `i` on.
pub open spec fn first_goal(f: Seq<BeamView>, i: int) -> Option<Seq<Direction>>
    decreases f.len() - i,
{
    if i < 0 || i >= f.len() {
        None
    } else if f[i].0 == goal_cells() {
        Some(f[i].1)
    } else {
        first_goal(f, i + 1)
    }
}

/// What beam search returns from frontier `f` with `rounds` rounds left.
#[verifier::opaque]
pub open spec fn beam_outcome(h: Heuristic, f: Seq<BeamView>, w: int, rounds: nat) -> Option<
    Seq<Direction>,
>
    decreases rounds,
{
    match first_goal(f, 0) {
        Some(p) => Some(p),
        None => if rounds == 0 {
            None
        } else {
            let n = beam_round(h, f, w);
            if n.len() == 0 {
                None
            } else {
                beam_outcome(h, n, w, (rounds - 1) as nat)
            }
        },
    }
}

/// The number of rounds beam search may play: `max_depth`, below the `u32`
/// range of move counts.
pub open spec fn beam_rounds(max_depth: usize) -> nat {
    if max_depth < u32::MAX - 1 {
        max_depth as nat
    } else {
        (u32::MAX - 1) as nat
    }
}

pub open spec fn plan_view(r: Option<Vec<Direction>>) -> Option<Seq<Direction>> {
    match r {
        Some(p) => Some(p@),
        None => None,
    }
}

proof fn lemma_insert_index(h: Heuristic, s: Seq<BeamView>, c: BeamView, p: int, i: int)
    requires
        0 <= i <= p <= s.len(),
        forall|q: int| 0 <= q < p ==> view_score(h, #[trigger] s[q]) <= view_score(h, c),
        p == s.len() || view_score(h, s[p]) > view_score(h, c),
    ensures
        insert_index(h, s, c, i) == p,
    decreases p - i,
{
    if i < p {
        lemma_insert_index(h, s, c, p, i + 1);
    }
}

/// Every frontier that beam search keeps after a round has at most
/// `beam_width` entries.
pub proof fn lemma_round_width(h: Heuristic, f: Seq<BeamView>, w: int)
    requires
        w >= 0,
    ensures
        beam_round(h, f, w).len() <= w,
{
    reveal(beam_round);
}

proof fn lemma_outcome_step(h: Heuristic, f: Seq<BeamView>, w: int, n: nat)
    requires
        first_goal(f, 0) is None,
    ensures
        n == 0 ==> beam_outcome(h, f, w, n) is None,
        n > 0 ==> beam_outcome(h, f, w, n) == if beam_round(h, f, w).len() == 0 {
            None
        } else {
            beam_outcome(h, beam_round(h, f, w), w, (n - 1) as nat)
        },
{
    reveal(beam_outcome);
}

proof fn lemma_outcome_found(h: Heuristic, f: Seq<BeamView>, w: int, n: nat)
    requires
        first_goal(f, 0) is Some,
    ensures
        beam_outcome(h, f, w, n) == first_goal(f, 0),
{
    reveal(beam_outcome);
}

proof fn lemma_first_goal(f: Seq<BeamView>, i: int, j: int)
    requires
        0 <= i <= j <= f.len(),
        forall|k: int| i <= k < j ==> (#[trigger] f[k]).0 != goal_cells(),
        j == f.len() || f[j].0 == goal_cells(),
    ensures
        first_goal(f, i) == if j == f.len() {
            None
        } else {
            Some(f[j].1)
        },
    decreases j - i,
{
    if i < j {
        lemma_first_goal(f, i + 1, j);
    }
}

/// One round of beam search: every one-move successor of every entry of
/// `frontier`, scored by moves so far plus estimate, sorted by that score in
/// ascending order (ties kept in generation order), of which the first
/// `beam_width` are kept.
pub fn beam_step(frontier: &Vec<BeamEntry>, heuristic: &Heuristic, beam_width: usize) -> (r: Vec<
    BeamEntry,
>)
    requires
        forall|j: int| 0 <= j < frontier@.len() ==> (#[trigger] frontier@[j]).0.wf(),
        forall|j: int| 0 <= j < frontier@.len() ==> (#[trigger] frontier@[j]).2 < u32::MAX,
    ensures
        views(r@) == beam_round(*heuristic, views(frontier@), beam_width as int),
        r@.len() <= beam_width,
        r@.len() == if successor_count(frontier@, frontier@.len() as int) < beam_width {
            successor_count(frontier@, frontier@.len() as int)
        } else {
            beam_width as int
        },
        forall|i: int| 0 <= i < r@.len() ==> (#[trigger] r@[i]).0.wf(),
        forall|i: int|
            0 <= i < r@.len() ==> is_successor(frontier@, #[trigger] r@[i]),
        forall|j: int, d: Direction|
            0 <= j < frontier@.len() && #[trigger] step(frontier@[j].0@, d) is Some ==> listed(
                r@,
                frontier@[j],
                d,
            ) || (r@.len() == beam_width && forall|i: int|
                0 <= i < r@.len() ==> beam_score(*heuristic, #[trigger] r@[i]) <= successor_score(
                    *heuristic,
                    frontier@[j],
                    d,
                )),
        forall|a: int, b: int|
            0 <= a < b < r@.len() ==> beam_score(*heuristic, #[trigger] r@[a]) <= beam_score(
                *heuristic,
                #[trigger] r@[b],
            ),
{
    let mut candidates: Vec<BeamEntry> = Vec::new();
    let mut scores: Vec<u64> = Vec::new();
    let mut j: usize = 0;
    while j < frontier.len()
        invariant
            j <= frontier@.len(),
            forall|j: int| 0 <= j < frontier@.len() ==> (#[trigger] frontier@[j]).0.wf(),
            forall|j: int| 0 <= j < frontier@.len() ==> (#[trigger] frontier@[j]).2 < u32::MAX,
            scores@.len() == candidates@.len(),
            candidates@.len() == successor_count(frontier@, j as int),
            views(candidates@) == stable_sort(*heuristic, all_successors(views(frontier@), j as int)),
            forall|j2: int, d: Direction|
                0 <= j2 < j && step(frontier@[j2].0@, d) is Some ==> #[trigger] listed(
                    candidates@,
                    frontier@[j2],
                    d,
                ),
            forall|i: int| 0 <= i < candidates@.len() ==> (#[trigger] candidates@[i]).0.wf(),
            forall|i: int|
                0 <= i < candidates@.len() ==> is_successor(frontier@, #[trigger] candidates@[i]),
            forall|i: int|
                0 <= i < candidates@.len() ==> #[trigger] scores@[i] == beam_score(
                    *heuristic,
                    candidates@[i],
                ),
            forall|a: int, b: int|
                0 <= a < b < scores@.len() ==> #[trigger] scores@[a] <= #[trigger] scores@[b],
        decreases frontier@.len() - j,
    {
        let entry = &frontier[j];
        assert(views(frontier@)[j as int] == view_of(*entry));
        assert(all_successors(views(frontier@), j as int) + successors_upto(view_of(*entry), 0) =~= all_successors(views(frontier@), j as int));
        let mut i: usize = 0;
        while i < 4
            invariant
                i <= 4,
                j < frontier@.len(),
                *entry == frontier@[j as int],
                entry.0.wf(),
                entry.2 < u32::MAX,
                scores@.len() == candidates@.len(),
                candidates@.len() == successor_count(frontier@, j as int) + moves_from(entry.0@, i as int),
                views(candidates@) == stable_sort(
                    *heuristic,
                    all_successors(views(frontier@), j as int) + successors_upto(view_of(*entry), i as int),
                ),
                forall|j2: int, d: Direction|
                    0 <= j2 < j && step(frontier@[j2].0@, d) is Some ==> #[trigger] listed(
                        candidates@,
                        frontier@[j2],
                        d,
                    ),
                forall|d: Direction|
                    direction_index(d) < i && step(entry.0@, d) is Some ==> #[trigger] listed(
                        candidates@,
                        frontier@[j as int],
                        d,
                    ),
                forall|i: int| 0 <= i < candidates@.len() ==> (#[trigger] candidates@[i]).0.wf(),
                forall|i: int|
                    0 <= i < candidates@.len() ==> is_successor(frontier@, #[trigger] candidates@[i]),
                forall|i: int|
                    0 <= i < candidates@.len() ==> #[trigger] scores@[i] == beam_score(
                        *heuristic,
                        candidates@[i],
                    ),
                forall|a: int, b: int|
                    0 <= a < b < scores@.len() ==> #[trigger] scores@[a] <= #[trigger] scores@[b],
            decreases 4 - i,
        {
            let dir = Direction::from_index(i);
            let ghost gen = all_successors(views(frontier@), j as int) + successors_upto(view_of(*entry), i as int);
            match entry.0.apply(dir) {
                Some(next) => {
                    let mut new_path = entry.1.clone();
                    assert(new_path@ =~= entry.1@);
                    new_path.push(dir);
                    let g_next = entry.2 + 1;
                    let f = g_next as u64 + heuristic.estimate(&next) as u64;
                    let c: BeamEntry = (next, new_path, g_next);
                    assert(c.1@.drop_last() =~= entry.1@);
                    assert(extends(frontier@[j as int], c));
                    let mut p: usize = 0;
                    while p < scores.len() && scores[p] <= f
                        invariant
                            p <= scores@.len(),
                            forall|q: int| 0 <= q < p ==> #[trigger] scores@[q] <= f,
                        decreases scores@.len() - p,
                    {
                        p = p + 1;
                    }
                    let ghost old_c = candidates@;
                    let ghost old_s = scores@;
                    candidates.insert(p, c);
                    scores.insert(p, f);
                    proof {
                        let vc = view_of(c);
                        let vs = views(old_c);
                        assert forall|q: int| 0 <= q < p implies view_score(*heuristic, #[trigger] vs[q]) <= view_score(*heuristic, vc) by {
                            assert(old_s[q] <= f);
                        }
                        if p < old_s.len() {
                            assert(old_s[p as int] > f);
                        }
                        lemma_insert_index(*heuristic, vs, vc, p as int, 0);
                        assert(views(candidates@) =~= vs.insert(p as int, vc));
                        assert(successors_upto(view_of(*entry), i + 1) =~= successors_upto(view_of(*entry), i as int) + seq![vc]);
                        assert(gen.push(vc) =~= all_successors(views(frontier@), j as int) + successors_upto(view_of(*entry), i + 1));
                        assert(gen.push(vc).drop_last() =~= gen);
                    }
                    assert(successor_by(frontier@[j as int], dir, candidates@[p as int]));
                    assert(listed(candidates@, frontier@[j as int], dir));
                    assert forall|j2: int, d: Direction|
                        0 <= j2 < j && step(frontier@[j2].0@, d) is Some implies #[trigger] listed(
                            candidates@,
                            frontier@[j2],
                            d,
                        ) by {
                        lemma_listed_insert(old_c, p as int, c, frontier@[j2], d);
                    }
                    assert forall|d: Direction|
                        direction_index(d) < i + 1 && step(entry.0@, d) is Some implies #[trigger] listed(
                            candidates@,
                            frontier@[j as int],
                            d,
                        ) by {
                        if direction_index(d) < i {
                            lemma_listed_insert(old_c, p as int, c, frontier@[j as int], d);
                        } else {
                            assert(d == dir);
                        }
                    }
                    assert forall|k: int| 0 <= k < candidates@.len() implies is_successor(frontier@, #[trigger] candidates@[k]) by {
                        if k < p {
                            assert(candidates@[k] == old_c[k]);
                        } else if k > p {
                            assert(candidates@[k] == old_c[k - 1]);
                        } else {
                            assert(extends(frontier@[j as int], candidates@[k]));
                        }
                    }
                    assert forall|k: int| 0 <= k < candidates@.len() implies #[trigger] scores@[k] == beam_score(*heuristic, candidates@[k]) && candidates@[k].0.wf() by {
                        if k < p {
                            assert(candidates@[k] == old_c[k] && scores@[k] == old_s[k]);
                        } else if k > p {
                            assert(candidates@[k] == old_c[k - 1] && scores@[k] == old_s[k - 1]);
                        }
                    }
                    assert forall|a: int, b: int| 0 <= a < b < scores@.len() implies #[trigger] scores@[a] <= #[trigger] scores@[b] by {
                        if p < old_s.len() {
                            assert(old_s[p as int] > f);
                        }
                        if b < p {
                            assert(scores@[a] == old_s[a] && scores@[b] == old_s[b]);
                        } else if a > p {
                            assert(scores@[a] == old_s[a - 1] && scores@[b] == old_s[b - 1]);
                        } else if a == p {
                            assert(scores@[b] == old_s[b - 1]);
                            assert(old_s[p as int] <= old_s[b - 1]);
                        } else if b == p {
                            assert(scores@[a] == old_s[a]);
                        } else {
                            assert(scores@[a] == old_s[a] && scores@[b] == old_s[b - 1]);
                        }
                    }
                },
                None => {
                    assert(successors_upto(view_of(*entry), i + 1) =~= successors_upto(view_of(*entry), i as int));
                },
            }
            i = i + 1;
        }
        assert(all_successors(views(frontier@), j + 1) =~= all_successors(views(frontier@), j as int) + successors_upto(view_of(*entry), 4));
        j = j + 1;
    }
    let ghost all = candidates@;
    candidates.truncate(beam_width);
    assert(views(frontier@).len() == frontier@.len());
    reveal(beam_round);
    assert(views(candidates@) =~= beam_round(*heuristic, views(frontier@), beam_width as int));
    assert forall|j: int, d: Direction|
        0 <= j < frontier@.len() && #[trigger] step(frontier@[j].0@, d) is Some implies listed(
            candidates@,
            frontier@[j],
            d,
        ) || (candidates@.len() == beam_width && forall|i: int|
            0 <= i < candidates@.len() ==> beam_score(*heuristic, #[trigger] candidates@[i]) <= successor_score(
                *heuristic,
                frontier@[j],
                d,
            )) by {
        assert(listed(all, frontier@[j], d));
        let x = choose|x: int| 0 <= x < all.len() && #[trigger] successor_by(frontier@[j], d, all[x]);
        if x < candidates@.len() {
            assert(candidates@[x] == all[x]);
        } else {
            assert forall|i: int| 0 <= i < candidates@.len() implies beam_score(*heuristic, #[trigger] candidates@[i]) <= successor_score(*heuristic, frontier@[j], d) by {
                assert(candidates@[i] == all[i]);
                assert(scores@[i] <= scores@[x]);
            }
        }
    }
    assert forall|a: int, b: int| 0 <= a < b < candidates@.len() implies beam_score(*heuristic, #[trigger] candidates@[a]) <= beam_score(*heuristic, #[trigger] candidates@[b]) by {
        assert(candidates@[a] == all[a] && candidates@[b] == all[b]);
        assert(scores@[a] <= scores@[b]);
    }
    assert forall|i: int| 0 <= i < candidates@.len() implies is_successor(frontier@, #[trigger] candidates@[i]) && candidates@[i].0.wf() by {
        assert(candidates@[i] == all[i]);
    }
    candidates
}

/// Beam search: from `init`, at most `max_depth` rounds, each keeping the
/// `beam_width` best-scored successors. A returned plan leads from `init` to
/// the goal in at most `max_depth` moves. `None` does not mean that no plan
/// exists.
#[verifier::rlimit(60)]
pub fn beam_search(init: Board, heuristic: &Heuristic, beam_width: usize, max_depth: usize) -> (r:
    Option<Vec<Direction>>)
    requires
        init.wf(),
    ensures
        r matches Some(p) ==> is_plan(init@, p@) && p@.len() <= max_depth,
        init@ == goal_cells() ==> (r matches Some(p) && p@.len() == 0),
        plan_view(r) == beam_outcome(
            *heuristic,
            seq![(init@, Seq::<Direction>::empty(), 0u32)],
            beam_width as int,
            beam_rounds(max_depth),
        ),
{
    let goal = Board::goal();
    let mut frontier: Vec<BeamEntry> = vec![(init, Vec::new(), 0u32)];
    let mut depth: usize = 0;
    assert(run(init@, frontier@[0].1@) == Some(init@));
    let ghost start_views = seq![(init@, Seq::<Direction>::empty(), 0u32)];
    assert(views(frontier@) =~= start_views);
    loop
        invariant
            init.wf(),
            goal@ == goal_cells(),
            depth <= max_depth,
            depth < u32::MAX,
            depth <= beam_rounds(max_depth),
            start_views == seq![(init@, Seq::<Direction>::empty(), 0u32)],
            beam_outcome(*heuristic, views(frontier@), beam_width as int, (beam_rounds(max_depth) - depth) as nat)
                == beam_outcome(*heuristic, start_views, beam_width as int, beam_rounds(max_depth)),
            depth > 0 ==> frontier@.len() <= beam_width,
            init@ == goal_cells() ==> depth == 0 && frontier@.len() == 1 && frontier@[0].0 == init,
            forall|j: int| 0 <= j < frontier@.len() ==> {
                &&& (#[trigger] frontier@[j]).0.wf()
                &&& frontier@[j].2 == depth
                &&& frontier@[j].1@.len() == depth
                &&& run(init@, frontier@[j].1@) == Some(frontier@[j].0@)
            },
        decreases max_depth - depth,
    {
        let mut j: usize = 0;
        while j < frontier.len()
            invariant
                j <= frontier@.len(),
                goal@ == goal_cells(),
                forall|k: int| 0 <= k < j ==> (#[trigger] views(frontier@)[k]).0 != goal_cells(),
                depth <= beam_rounds(max_depth),
                start_views == seq![(init@, Seq::<Direction>::empty(), 0u32)],
                beam_outcome(*heuristic, views(frontier@), beam_width as int, (beam_rounds(max_depth) - depth) as nat)
                    == beam_outcome(*heuristic, start_views, beam_width as int, beam_rounds(max_depth)),
                depth <= max_depth,
                init@ == goal_cells() ==> depth == 0 && j == 0 && frontier@.len() == 1 && frontier@[0].0 == init,
                forall|j: int| 0 <= j < frontier@.len() ==> {
                    &&& (#[trigger] frontier@[j]).0.wf()
                    &&& frontier@[j].1@.len() == depth
                    &&& run(init@, frontier@[j].1@) == Some(frontier@[j].0@)
                },
            decreases frontier@.len() - j,
        {
            if frontier[j].0 == goal {
                let plan = frontier[j].1.clone();
                assert(plan@ =~= frontier@[j as int].1@);
                proof {
                    assert(views(frontier@)[j as int] == view_of(frontier@[j as int]));
                    lemma_first_goal(views(frontier@), 0, j as int);
                    lemma_outcome_found(*heuristic, views(frontier@), beam_width as int, (beam_rounds(max_depth) - depth) as nat);
                    assert(first_goal(views(frontier@), 0) == Some(plan@));
                    assert(beam_outcome(*heuristic, views(frontier@), beam_width as int, (beam_rounds(max_depth) - depth) as nat) == Some(plan@));
                    assert(beam_outcome(*heuristic, start_views, beam_width as int, beam_rounds(max_depth)) == Some(plan@));
                }
                return Some(plan);
            }
            assert(views(frontier@)[j as int] == view_of(frontier@[j as int]));
            j = j + 1;
        }
        proof {
            lemma_first_goal(views(frontier@), 0, frontier@.len() as int);
            lemma_outcome_step(*heuristic, views(frontier@), beam_width as int, (beam_rounds(max_depth) - depth) as nat);
        }
        // Move counts are held as `u32`: the search stops before they could overflow.
        if depth == max_depth || depth == u32::MAX as usize - 1 {
            assert((beam_rounds(max_depth) - depth) as nat == 0);
            assert(beam_outcome(*heuristic, views(frontier@), beam_width as int, 0) is None);
            return None;
        }
        let next = beam_step(&frontier, heuristic, beam_width);
        assert(views(next@).len() == next@.len());
        if next.len() == 0 {
            return None;
        }
        assert forall|k: int| 0 <= k < next@.len() implies {
            &&& (#[trigger] next@[k]).0.wf()
            &&& next@[k].2 == depth + 1
            &&& next@[k].1@.len() == depth + 1
            &&& run(init@, next@[k].1@) == Some(next@[k].0@)
        } by {
            assert(is_successor(frontier@, next@[k]));
            let j = choose|j: int| 0 <= j < frontier@.len() && extends(frontier@[j], next@[k]);
            let c = next@[k];
            lemma_run_push(init@, frontier@[j].1@, c.1@.last());
            assert(c.1@ =~= frontier@[j].1@.push(c.1@.last()));
        }
        frontier = next;
        depth = depth + 1;
    }
}

} // verus!
