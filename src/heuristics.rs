//! Estimates of the number of moves left from a board to the goal.
use vstd::prelude::*;

use crate::board::{
    blank_index, goal_cells, is_plan, lemma_run_prepend, lemma_step_well_formed, run, step,
    target_index, well_formed, Board, Direction,
};

verus! {

/// A function from boards to an estimate of the moves left.
#[derive(Debug, Clone, Copy, PartialEq, Eq, Structural)]
pub enum Heuristic {
    /// Always 0.
    Blind,
    /// The number of tiles that are not on their goal cell.
    Hamming,
    /// The sum over the tiles of the row and column distances to their goal cell.
    Manhattan,
}

/// The cell index at which tile `v` stands in the goal.
pub open spec fn goal_index(v: u8) -> int {
    if v == 0 {
        15
    } else {
        v - 1
    }
}

/// Distance between two integers.
pub open spec fn abs_diff(a: int, b: int) -> int {
    if a >= b {
        a - b
    } else {
        b - a
    }
}

/// Row and column distance between cell indices `i` and `j`.
pub open spec fn grid_distance(i: int, j: int) -> int {
    abs_diff(i / 4, j / 4) + abs_diff(i % 4, j % 4)
}

/// Whether value `x` at cell `k` counts as misplaced.
pub open spec fn misplaced_at(k: int, x: u8) -> int {
    if x != 0 && x != goal_cells()[k] {
        1
    } else {
        0
    }
}

/// Distance from cell `k` to the goal cell of value `x`; 0 for the blank.
pub open spec fn distance_at(k: int, x: u8) -> int {
    if x != 0 {
        grid_distance(k, goal_index(x))
    } else {
        0
    }
}

/// Misplaced tiles among the first `n` cells.
pub open spec fn misplaced(s: Seq<u8>, n: int) -> int
    decreases n,
{
    if n <= 0 {
        0
    } else {
        misplaced(s, n - 1) + misplaced_at(n - 1, s[n - 1])
    }
}

/// Sum of the distances to the goal cell of the tiles among the first `n` cells.
pub open spec fn displacement(s: Seq<u8>, n: int) -> int
    decreases n,
{
    if n <= 0 {
        0
    } else {
        displacement(s, n - 1) + distance_at(n - 1, s[n - 1])
    }
}

/// What `estimate` returns for heuristic `h` on cells `s`.
pub open spec fn estimate_of(h: Heuristic, s: Seq<u8>) -> int {
    match h {
        Heuristic::Blind => 0,
        Heuristic::Hamming => misplaced(s, 16),
        Heuristic::Manhattan => displacement(s, 16),
    }
}

proof fn lemma_misplaced_nonneg(s: Seq<u8>, n: int)
    ensures
        misplaced(s, n) >= 0,
    decreases n,
{
    if n > 0 {
        lemma_misplaced_nonneg(s, n - 1);
    }
}

proof fn lemma_displacement_nonneg(s: Seq<u8>, n: int)
    ensures
        displacement(s, n) >= 0,
    decreases n,
{
    if n > 0 {
        lemma_displacement_nonneg(s, n - 1);
    }
}

/// No estimate is negative.
pub proof fn lemma_estimate_nonneg(h: Heuristic, s: Seq<u8>)
    ensures
        estimate_of(h, s) >= 0,
{
    lemma_misplaced_nonneg(s, 16);
    lemma_displacement_nonneg(s, 16);
}

/// The heuristic never estimates more moves than a plan needs.
pub open spec fn admissible(h: Heuristic) -> bool {
    forall|s: Seq<u8>, m: Seq<Direction>|
        well_formed(s) && #[trigger] is_plan(s, m) ==> estimate_of(h, s) <= m.len()
}

proof fn lemma_misplaced_update(s: Seq<u8>, i: int, v: u8, n: int)
    requires
        s.len() == 16,
        0 <= i < 16,
        0 <= n <= 16,
    ensures
        misplaced(s.update(i, v), n) == misplaced(s, n) + if i < n {
            misplaced_at(i, v) - misplaced_at(i, s[i])
        } else {
            0
        },
    decreases n,
{
    if n > 0 {
        lemma_misplaced_update(s, i, v, n - 1);
    }
}

proof fn lemma_displacement_update(s: Seq<u8>, i: int, v: u8, n: int)
    requires
        s.len() == 16,
        0 <= i < 16,
        0 <= n <= 16,
    ensures
        displacement(s.update(i, v), n) == displacement(s, n) + if i < n {
            distance_at(i, v) - distance_at(i, s[i])
        } else {
            0
        },
    decreases n,
{
    if n > 0 {
        lemma_displacement_update(s, i, v, n - 1);
    }
}

proof fn lemma_goal_estimate(n: int)
    requires
        0 <= n <= 16,
    ensures
        misplaced(goal_cells(), n) == 0,
        displacement(goal_cells(), n) == 0,
    decreases n,
{
    if n > 0 {
        lemma_goal_estimate(n - 1);
        if n - 1 < 15 {
            assert(goal_cells()[n - 1] == n);
            assert(goal_index(goal_cells()[n - 1]) == n - 1);
        }
    }
}

/// Neighbouring cells are at distances from any cell that differ by at most one.
proof fn lemma_adjacent_distance(b: int, d: Direction, g: int)
    requires
        0 <= b < 16,
        0 <= g < 16,
        target_index(b, d) is Some,
    ensures
        grid_distance(target_index(b, d)->0, g) <= grid_distance(b, g) + 1,
{
    let t = target_index(b, d)->0;
    match d {
        Direction::Up => {
            assert(t / 4 == b / 4 - 1 && t % 4 == b % 4);
        },
        Direction::Down => {
            assert(t / 4 == b / 4 + 1 && t % 4 == b % 4);
        },
        Direction::Left => {
            assert(t / 4 == b / 4 && t % 4 == b % 4 - 1);
        },
        Direction::Right => {
            assert(t / 4 == b / 4 && t % 4 == b % 4 + 1);
        },
    }
}

/// One move lowers an estimate by at most one.
#[verifier::rlimit(50)]
proof fn lemma_step_estimate(h: Heuristic, s: Seq<u8>, d: Direction)
    requires
        well_formed(s),
        step(s, d) is Some,
    ensures
        estimate_of(h, s) <= estimate_of(h, step(s, d)->0) + 1,
{
    let b = blank_index(s);
    let t = target_index(b, d)->0;
    let v = s[t];
    let s1 = s.update(b, v);
    let s2 = s1.update(t, 0u8);
    assert(0 <= b < 16 && s[b] == 0);
    assert(0 <= t < 16 && t != b);
    assert(s1[t] == v);
    assert(step(s, d)->0 == s2);
    match h {
        Heuristic::Blind => {},
        Heuristic::Hamming => {
            lemma_misplaced_update(s, b, v, 16);
            lemma_misplaced_update(s1, t, 0u8, 16);
        },
        Heuristic::Manhattan => {
            lemma_displacement_update(s, b, v, 16);
            lemma_displacement_update(s1, t, 0u8, 16);
            if v != 0 {
                assert(v < 16);
                lemma_adjacent_distance(b, d, goal_index(v));
            }
        },
    }
}

/// An estimate below the number of moves of every plan, given that each move
/// lowers it by at most one and that it is 0 at the goal.
proof fn lemma_estimate_plan(h: Heuristic, s: Seq<u8>, m: Seq<Direction>)
    requires
        well_formed(s),
        is_plan(s, m),
    ensures
        estimate_of(h, s) <= m.len(),
    decreases m.len(),
{
    if m.len() == 0 {
        assert(run(s, m) == Some(s));
        lemma_goal_estimate(16);
    } else {
        let d = m[0];
        let rest = m.skip(1);
        assert(m =~= seq![d] + rest);
        if step(s, d) is None {
            assert(seq![d].drop_last() =~= Seq::<Direction>::empty());
            assert(run(s, Seq::<Direction>::empty()) == Some(s));
            assert(run(s, seq![d]) is None);
            crate::board::lemma_run_rejected(s, seq![d], rest);
        } else {
            let t = step(s, d)->0;
            lemma_run_prepend(s, t, d, rest);
            lemma_step_well_formed(s, d);
            lemma_estimate_plan(h, t, rest);
            lemma_step_estimate(h, s, d);
        }
    }
}

/// Every heuristic of this crate is admissible: blind trivially, Hamming and
/// Manhattan because a move changes each by at most one and both are 0 at the
/// goal.
pub proof fn lemma_admissible(h: Heuristic)
    ensures
        admissible(h),
{
    assert forall|s: Seq<u8>, m: Seq<Direction>| well_formed(s) && #[trigger] is_plan(s, m) implies estimate_of(h, s) <= m.len() by {
        lemma_estimate_plan(h, s, m);
    }
}

/// The largest value that `estimate` returns.
pub const MAX_ESTIMATE: u32 = 96;

impl Heuristic {
    /// The estimate of this heuristic for `board`.
    pub fn estimate(&self, board: &Board) -> (r: u32)
        requires
            *self == Heuristic::Manhattan ==> board.wf(),
        ensures
            r == estimate_of(*self, board@),
            r <= MAX_ESTIMATE,
    {
        match self {
            Heuristic::Blind => 0,
            Heuristic::Hamming => {
                let goal = Board::goal();
                let mut count: u32 = 0;
                let mut i: usize = 0;
                while i < 16
                    invariant
                        i <= 16,
                        goal@ == goal_cells(),
                        count == misplaced(board@, i as int),
                        count <= i,
                    decreases 16 - i,
                {
                    let value = board.value_at(i / 4, i % 4);
                    assert(value == board@[i as int]);
                    if value != 0 && value != goal.value_at(i / 4, i % 4) {
                        count = count + 1;
                    }
                    i = i + 1;
                }
                count
            },
            Heuristic::Manhattan => {
                let goal = Board::goal();
                let mut distance: u32 = 0;
                let mut i: usize = 0;
                while i < 16
                    invariant
                        i <= 16,
                        goal@ == goal_cells(),
                        goal.wf(),
                        board.wf(),
                        distance == displacement(board@, i as int),
                        distance <= 6 * i,
                    decreases 16 - i,
                {
                    let value = board.value_at(i / 4, i % 4);
                    assert(value == board@[i as int]);
                    if value != 0 {
                        assert(value < 16);
                        assert(goal@[value - 1] == value);
                        let (goal_x, goal_y) = goal.position(value);
                        let gi = goal_x * 4 + goal_y;
                        assert(gi == goal_index(value));
                        let x = i / 4;
                        let y = i % 4;
                        let dx = if x >= goal_x { x - goal_x } else { goal_x - x };
                        let dy = if y >= goal_y { y - goal_y } else { goal_y - y };
                        assert(goal_x == gi / 4 && goal_y == gi % 4);
                        distance = distance + (dx + dy) as u32;
                    }
                    i = i + 1;
                }
                distance
            },
        }
    }
}

} // verus!
