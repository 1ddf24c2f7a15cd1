//! Plans: the boards they pass through, plans that repeat no board, and
//! comparisons between plan lengths.
use vstd::prelude::*;

use crate::board::{
    is_plan, key_of, lemma_key_bound_wf, lemma_key_injective, lemma_run_append, lemma_run_prepend,
    lemma_run_rejected, lemma_run_well_formed, run, step, well_formed, Direction,
};

verus! {

/// The board reached from `s` after the first `k` moves of `m`.
pub open spec fn along(s: Seq<u8>, m: Seq<Direction>, k: int) -> Seq<u8> {
    run(s, m.take(k))->0
}

/// The boards that `m` passes through after `s` are distinct, and none has
/// its key in `visited`.
pub open spec fn fresh_plan(s: Seq<u8>, m: Seq<Direction>, visited: Set<u64>) -> bool {
    &&& forall|k: int| 1 <= k <= m.len() ==> !visited.contains(key_of(#[trigger] along(s, m, k)) as u64)
    &&& forall|k1: int, k2: int|
        1 <= k1 < k2 <= m.len() ==> key_of(#[trigger] along(s, m, k1)) != key_of(
            #[trigger] along(s, m, k2),
        )
}

/// The position of `d` in the order in which the searches try directions.
pub open spec fn direction_index(d: Direction) -> int {
    match d {
        Direction::Up => 0,
        Direction::Down => 1,
        Direction::Left => 2,
        Direction::Right => 3,
    }
}

/// After a first move from `s` to `t`, a plan goes on from `t` with its
/// remaining moves, through the same boards.
pub proof fn lemma_plan_tail(s: Seq<u8>, t: Seq<u8>, m: Seq<Direction>, visited: Set<u64>)
    requires
        well_formed(s),
        m.len() > 0,
        step(s, m[0]) == Some(t),
        is_plan(s, m),
        fresh_plan(s, m, visited),
    ensures
        is_plan(t, m.skip(1)),
        fresh_plan(t, m.skip(1), visited.insert(key_of(t) as u64)),
        forall|k: int| 0 <= k <= m.len() - 1 ==> #[trigger] along(t, m.skip(1), k) == along(s, m, k + 1),
{
    assert forall|k: int| 0 <= k <= m.len() - 1 implies #[trigger] along(t, m.skip(1), k) == along(s, m, k + 1) by {
        assert(m.take(k + 1) =~= seq![m[0]] + m.skip(1).take(k));
        lemma_run_prepend(s, t, m[0], m.skip(1).take(k));
    }
    assert(m =~= seq![m[0]] + m.skip(1));
    lemma_run_prepend(s, t, m[0], m.skip(1));
    assert(m.take(1) =~= seq![m[0]]);
    assert(along(t, m.skip(1), 0) == along(s, m, 1));
    assert(m.skip(1).take(0) =~= Seq::<Direction>::empty());
    let v2 = visited.insert(key_of(t) as u64);
    assert forall|k: int| 1 <= k <= m.skip(1).len() implies !v2.contains(key_of(#[trigger] along(t, m.skip(1), k)) as u64) by {
        assert(along(t, m.skip(1), k) == along(s, m, k + 1));
        assert(key_of(along(s, m, 1)) != key_of(along(s, m, k + 1)));
        lemma_plan_prefix(s, m, k + 1);
        lemma_plan_prefix(s, m, 1);
        lemma_key_bound_wf(along(s, m, k + 1));
        lemma_key_bound_wf(t);
    }
}

/// The keys of the boards that `path` passes through from `start`, `start`
/// included.
pub open spec fn path_keys(start: Seq<u8>, path: Seq<Direction>) -> Set<u64> {
    Set::new(|k: u64| exists|i: int| 0 <= i <= path.len() && key_of(#[trigger] along(start, path, i)) as u64 == k)
}

/// Every prefix of an accepted run is accepted and ends on a well-formed board.
pub proof fn lemma_run_prefix(s: Seq<u8>, m: Seq<Direction>, k: int)
    requires
        well_formed(s),
        run(s, m) is Some,
        0 <= k <= m.len(),
    ensures
        run(s, m.take(k)) is Some,
        well_formed(along(s, m, k)),
        0 <= key_of(along(s, m, k)) < 0x1_0000_0000_0000_0000,
{
    assert(m.take(k) + m.skip(k) =~= m);
    if run(s, m.take(k)) is None {
        lemma_run_rejected(s, m.take(k), m.skip(k));
    }
    lemma_run_well_formed(s, m.take(k));
    lemma_key_bound_wf(along(s, m, k));
}

/// Extending a path by an accepted move to a board whose key is not yet on it
/// keeps it fresh and adds that key.
pub proof fn lemma_path_push(start: Seq<u8>, path: Seq<Direction>, d: Direction, next: Seq<u8>)
    requires
        well_formed(start),
        run(start, path.push(d)) == Some(next),
        fresh_plan(start, path, Set::empty().insert(key_of(start) as u64)),
        !path_keys(start, path).contains(key_of(next) as u64),
    ensures
        fresh_plan(start, path.push(d), Set::empty().insert(key_of(start) as u64)),
        path_keys(start, path.push(d)) == path_keys(start, path).insert(key_of(next) as u64),
{
    let p2 = path.push(d);
    let n = path.len() as int;
    assert(p2.take(n + 1) =~= p2);
    assert(along(start, p2, n + 1) == next);
    assert forall|i: int| 0 <= i <= n implies #[trigger] along(start, p2, i) == along(start, path, i) by {
        assert(p2.take(i) =~= path.take(i));
    }
    assert(p2.drop_last() =~= path);
    assert(run(start, path) is Some) by {
        if run(start, path) is None {
            assert(run(start, p2) is None);
        }
    }
    lemma_run_prefix(start, p2, n + 1);
    assert(path.take(0) =~= Seq::<Direction>::empty());
    assert(along(start, path, 0) == start);
    assert(path_keys(start, path).contains(key_of(start) as u64));
    assert forall|k: int| 1 <= k <= p2.len() implies !Set::<u64>::empty().insert(key_of(start) as u64).contains(
        key_of(#[trigger] along(start, p2, k)) as u64) by {
        if k <= n {
            assert(along(start, p2, k) == along(start, path, k));
        }
    }
    assert forall|k1: int, k2: int| 1 <= k1 < k2 <= p2.len() implies key_of(#[trigger] along(start, p2, k1))
        != key_of(#[trigger] along(start, p2, k2)) by {
        assert(along(start, p2, k1) == along(start, path, k1));
        if k2 <= n {
            assert(along(start, p2, k2) == along(start, path, k2));
        } else {
            lemma_run_prefix(start, path, k1);
            assert(path_keys(start, path).contains(key_of(along(start, path, k1)) as u64));
        }
    }
    assert forall|x: u64| path_keys(start, p2).contains(x) == path_keys(start, path).insert(key_of(next) as u64).contains(x) by {
        if path_keys(start, p2).contains(x) {
            let i = choose|i: int| 0 <= i <= p2.len() && key_of(#[trigger] along(start, p2, i)) as u64 == x;
            if i <= n {
                assert(along(start, p2, i) == along(start, path, i));
            }
        }
        if path_keys(start, path).contains(x) {
            let i = choose|i: int| 0 <= i <= path.len() && key_of(#[trigger] along(start, path, i)) as u64 == x;
            assert(along(start, p2, i) == along(start, path, i));
        }
    }
    assert(path_keys(start, p2) =~= path_keys(start, path).insert(key_of(next) as u64));
}

/// Every prefix of a plan from a well-formed board is accepted and ends on a
/// well-formed board.
pub proof fn lemma_plan_prefix(s: Seq<u8>, m: Seq<Direction>, k: int)
    requires
        well_formed(s),
        is_plan(s, m),
        0 <= k <= m.len(),
    ensures
        run(s, m.take(k)) is Some,
        well_formed(along(s, m, k)),
{
    assert(m.take(k) + m.skip(k) =~= m);
    if run(s, m.take(k)) is None {
        lemma_run_rejected(s, m.take(k), m.skip(k));
    }
    lemma_run_well_formed(s, m.take(k));
}

/// Every plan can be cut down to one that passes through no board twice and
/// never comes back to its start, without getting longer.
pub proof fn lemma_shortcut(s: Seq<u8>, m: Seq<Direction>) -> (r: Seq<Direction>)
    requires
        well_formed(s),
        is_plan(s, m),
    ensures
        is_plan(s, r),
        fresh_plan(s, r, Set::empty().insert(key_of(s) as u64)),
        r.len() <= m.len(),
    decreases m.len(),
{
    let v = Set::<u64>::empty().insert(key_of(s) as u64);
    if fresh_plan(s, m, v) {
        m
    } else {
        let (k1, k2) = if exists|k: int| 1 <= k <= m.len() && v.contains(key_of(#[trigger] along(s, m, k)) as u64) {
            let k = choose|k: int| 1 <= k <= m.len() && v.contains(key_of(#[trigger] along(s, m, k)) as u64);
            (0, k)
        } else {
            choose|k1: int, k2: int|
                1 <= k1 < k2 <= m.len() && key_of(#[trigger] along(s, m, k1)) == key_of(
                    #[trigger] along(s, m, k2),
                )
        };
        assert(0 <= k1 < k2 <= m.len());
        lemma_plan_prefix(s, m, k1);
        lemma_plan_prefix(s, m, k2);
        lemma_key_bound_wf(s);
        lemma_key_bound_wf(along(s, m, k1));
        lemma_key_bound_wf(along(s, m, k2));
        assert(m.take(0) =~= Seq::<Direction>::empty());
        assert(along(s, m, 0) == s);
        lemma_key_injective(along(s, m, k1), along(s, m, k2));
        let m3 = m.take(k1) + m.skip(k2);
        lemma_run_append(s, m.take(k1), m.skip(k2));
        assert(m.take(k2) + m.skip(k2) =~= m);
        lemma_run_append(s, m.take(k2), m.skip(k2));
        assert(is_plan(s, m3));
        lemma_shortcut(s, m3)
    }
}

/// `p` is no longer than any plan from `s` that fits the searches' cost range:
/// what `search` and `ida_star` ensure of a plan they return under an
/// admissible heuristic.
pub open spec fn no_longer_than_any(s: Seq<u8>, p: Seq<Direction>) -> bool {
    forall|m: Seq<Direction>| #[trigger] is_plan(s, m) && m.len() < u32::MAX ==> p.len() <= m.len()
}

/// Two plans from the same board that are each no longer than any plan have
/// the same length, once one of them fits the cost range: A* and IDA* return
/// plans of equal length on every board that both solve under an admissible
/// heuristic (IDA* ensures that its plan fits).
pub proof fn lemma_optimal_plans_agree(s: Seq<u8>, a: Seq<Direction>, b: Seq<Direction>)
    requires
        is_plan(s, a),
        is_plan(s, b),
        b.len() < u32::MAX,
        no_longer_than_any(s, a),
        no_longer_than_any(s, b),
    ensures
        a.len() == b.len(),
{
    assert(is_plan(s, b));
    assert(a.len() <= b.len());
    assert(is_plan(s, a));
}

} // verus!
