//! The puzzle board: a 4x4 grid of tiles numbered 1 to 15 and one blank cell.
use rand::Rng;
use vstd::prelude::*;

verus! {

/// Side length of the grid.
pub const N: usize = 4;

/// Number of cells on the board.
pub const CELLS: usize = 16;

/// The content of one cell: a tile number, or `EMPTY_CELL` for the blank.
pub type Cell = u8;

/// The value that marks the blank cell.
pub const EMPTY_CELL: Cell = 0;

/// The direction in which the blank cell moves.
#[derive(Clone, Copy, Debug, PartialEq, Eq, Structural)]
pub enum Direction {
    Up,
    Down,
    Left,
    Right,
}

impl Direction {
    /// Returns the direction that undoes this one.
    pub fn opposite(&self) -> (r: Direction)
        ensures
            r == opposite_of(*self),
    {
        match self {
            Direction::Up => Direction::Down,
            Direction::Down => Direction::Up,
            Direction::Left => Direction::Right,
            Direction::Right => Direction::Left,
        }
    }

    /// The directions in the order in which the searches try them:
    /// `Up`, `Down`, `Left`, `Right` for `i` equal to 0, 1, 2, 3.
    pub fn from_index(i: usize) -> (r: Direction)
        requires
            i < 4,
        ensures
            r == direction_at(i as int),
    {
        if i == 0 {
            Direction::Up
        } else if i == 1 {
            Direction::Down
        } else if i == 2 {
            Direction::Left
        } else {
            Direction::Right
        }
    }
}

/// The direction that undoes `d`.
pub open spec fn opposite_of(d: Direction) -> Direction {
    match d {
        Direction::Up => Direction::Down,
        Direction::Down => Direction::Up,
        Direction::Left => Direction::Right,
        Direction::Right => Direction::Left,
    }
}

/// The `i`-th direction in the order Up, Down, Left, Right.
pub open spec fn direction_at(i: int) -> Direction {
    if i == 0 {
        Direction::Up
    } else if i == 1 {
        Direction::Down
    } else if i == 2 {
        Direction::Left
    } else {
        Direction::Right
    }
}

/// The goal configuration, row by row: 1 to 15, then the blank.
pub open spec fn goal_cells() -> Seq<u8> {
    Seq::new(16, |i: int| if i < 15 { (i + 1) as u8 } else { 0u8 })
}

/// A configuration is well formed when it has 16 cells, each below 16, no
/// value twice, and a blank: a permutation of 0 to 15.
pub open spec fn well_formed(s: Seq<u8>) -> bool {
    &&& s.len() == 16
    &&& forall|i: int| 0 <= i < 16 ==> #[trigger] s[i] < 16
    &&& forall|i: int, j: int| 0 <= i < 16 && 0 <= j < 16 && i != j ==> s[i] != s[j]
    &&& s.contains(0)
}

/// The index of the blank cell of a well-formed configuration.
pub open spec fn blank_index(s: Seq<u8>) -> int {
    choose|i: int| 0 <= i < 16 && s[i] == 0
}

/// The index that the blank moves to, if the move stays on the grid.
pub open spec fn target_index(b: int, d: Direction) -> Option<int> {
    match d {
        Direction::Up => if b / 4 > 0 { Some(b - 4) } else { None },
        Direction::Down => if b / 4 < 3 { Some(b + 4) } else { None },
        Direction::Left => if b % 4 > 0 { Some(b - 1) } else { None },
        Direction::Right => if b % 4 < 3 { Some(b + 1) } else { None },
    }
}

/// One move: the blank swaps with its neighbour in direction `d`, or the move
/// is rejected at the border.
pub open spec fn step(s: Seq<u8>, d: Direction) -> Option<Seq<u8>> {
    let b = blank_index(s);
    match target_index(b, d) {
        Some(t) => Some(s.update(b, s[t]).update(t, 0u8)),
        None => None,
    }
}

/// The configuration reached by playing `moves` in order from `s`, or `None`
/// if one of them is rejected.
pub open spec fn run(s: Seq<u8>, moves: Seq<Direction>) -> Option<Seq<u8>>
    decreases moves.len(),
{
    if moves.len() == 0 {
        Some(s)
    } else {
        match run(s, moves.drop_last()) {
            Some(t) => step(t, moves.last()),
            None => None,
        }
    }
}

/// `moves` are all accepted from `s` and end at the goal.
pub open spec fn is_plan(s: Seq<u8>, moves: Seq<Direction>) -> bool {
    run(s, moves) == Some(goal_cells())
}

/// Number encoding of a configuration: one base-16 digit per cell, the first
/// cell being the most significant.
pub open spec fn key_of(s: Seq<u8>) -> int
    decreases s.len(),
{
    if s.len() == 0 {
        0
    } else {
        key_of(s.drop_last()) * 16 + s.last()
    }
}

/// 16 to the power `n`.
pub open spec fn pow16(n: nat) -> int
    decreases n,
{
    if n == 0 {
        1
    } else {
        16 * pow16((n - 1) as nat)
    }
}

/// A well-formed configuration has one blank.
proof fn lemma_blank_unique(s: Seq<u8>, i: int)
    requires
        well_formed(s),
        0 <= i < 16,
        s[i] == 0,
    ensures
        blank_index(s) == i,
{
    let b = blank_index(s);
    assert(0 <= b < 16 && s[b] == 0);
}

/// A move keeps a configuration well formed.
pub proof fn lemma_step_well_formed(s: Seq<u8>, d: Direction)
    requires
        well_formed(s),
    ensures
        step(s, d) is Some ==> well_formed(step(s, d)->0),
{
    let b = blank_index(s);
    if let Some(t) = target_index(b, d) {
        let r = s.update(b, s[t]).update(t, 0u8);
        assert(r[t] == 0);
        assert forall|i: int, j: int| 0 <= i < 16 && 0 <= j < 16 && i != j implies r[i] != r[j] by {
            assert(s[i] != s[j]);
        }
        assert(r.contains(0));
    }
}

/// Playing a move and then its opposite comes back to where it started.
pub proof fn lemma_step_opposite(s: Seq<u8>, d: Direction)
    requires
        well_formed(s),
        step(s, d) is Some,
    ensures
        step(step(s, d)->0, opposite_of(d)) == Some(s),
{
    let b = blank_index(s);
    let t = target_index(b, d)->0;
    let r = s.update(b, s[t]).update(t, 0u8);
    lemma_step_well_formed(s, d);
    lemma_blank_unique(r, t);
    assert(target_index(t, opposite_of(d)) == Some(b));
    assert(r.update(t, r[b]).update(b, 0u8) =~= s);
}

/// A key of `n` cells below 16 is below 16 to the `n`.
proof fn lemma_key_bound(s: Seq<u8>)
    requires
        forall|i: int| 0 <= i < s.len() ==> #[trigger] s[i] < 16,
    ensures
        0 <= key_of(s) < pow16(s.len()),
    decreases s.len(),
{
    if s.len() > 0 {
        let p = s.drop_last();
        assert forall|i: int| 0 <= i < p.len() implies #[trigger] p[i] < 16 by {
            assert(p[i] == s[i]);
        }
        lemma_key_bound(p);
        assert(s.last() < 16);
        assert(key_of(s) == key_of(p) * 16 + s.last());
        assert(pow16(s.len()) == 16 * pow16(p.len()));
        assert(key_of(p) * 16 + s.last() < 16 * pow16(p.len())) by (nonlinear_arith)
            requires
                0 <= key_of(p) < pow16(p.len()),
                s.last() < 16,
        ;
    }
}

/// A well-formed configuration meets the conditions of `lemma_key_injective`.
pub proof fn lemma_key_bound_wf(s: Seq<u8>)
    requires
        well_formed(s),
    ensures
        forall|i: int| 0 <= i < s.len() ==> #[trigger] s[i] < 16,
        0 <= key_of(s) < 0x1_0000_0000_0000_0000,
{
    lemma_key_bound(s);
    reveal_with_fuel(pow16, 17);
}

/// Distinct configurations of equal length with cells below 16 have distinct
/// keys.
pub proof fn lemma_key_injective(a: Seq<u8>, b: Seq<u8>)
    requires
        a.len() == b.len(),
        forall|i: int| 0 <= i < a.len() ==> #[trigger] a[i] < 16,
        forall|i: int| 0 <= i < b.len() ==> #[trigger] b[i] < 16,
        key_of(a) == key_of(b),
    ensures
        a == b,
    decreases a.len(),
{
    if a.len() > 0 {
        let pa = a.drop_last();
        let pb = b.drop_last();
        assert forall|i: int| 0 <= i < pa.len() implies #[trigger] pa[i] < 16 by {
            assert(pa[i] == a[i]);
        }
        assert forall|i: int| 0 <= i < pb.len() implies #[trigger] pb[i] < 16 by {
            assert(pb[i] == b[i]);
        }
        lemma_key_bound(pa);
        lemma_key_bound(pb);
        let ka = key_of(pa);
        let kb = key_of(pb);
        let x = a.last() as int;
        let y = b.last() as int;
        assert(a.last() < 16 && b.last() < 16);
        assert(ka * 16 + x == kb * 16 + y);
        assert(ka == kb && x == y) by (nonlinear_arith)
            requires
                ka * 16 + x == kb * 16 + y,
                0 <= x < 16,
                0 <= y < 16,
                0 <= ka,
                0 <= kb,
        ;
        lemma_key_injective(pa, pb);
        assert(a =~= pa.push(a.last()));
        assert(b =~= pb.push(b.last()));
    }
}

/// Powers of 16 grow with the exponent.
proof fn lemma_pow16_le(i: nat, j: nat)
    requires
        i <= j,
    ensures
        1 <= pow16(i) <= pow16(j),
    decreases j,
{
    if j > 0 {
        lemma_pow16_le(0, (j - 1) as nat);
        if i < j {
            lemma_pow16_le(i, (j - 1) as nat);
        }
    }
}

/// Playing one more move extends the run by one step.
pub proof fn lemma_run_push(s: Seq<u8>, m: Seq<Direction>, d: Direction)
    ensures
        run(s, m.push(d)) == (match run(s, m) {
            Some(t) => step(t, d),
            None => None,
        }),
{
    assert(m.push(d).drop_last() =~= m);
}

/// A first move that leads from `s` to `t` leaves the rest of the run as it
/// would be from `t`.
pub proof fn lemma_run_prepend(s: Seq<u8>, t: Seq<u8>, d: Direction, m: Seq<Direction>)
    requires
        step(s, d) == Some(t),
    ensures
        run(s, seq![d] + m) == run(t, m),
    decreases m.len(),
{
    if m.len() == 0 {
        assert(seq![d] + m =~= seq![d]);
        assert(seq![d].drop_last() =~= Seq::<Direction>::empty());
        assert(run(s, Seq::<Direction>::empty()) == Some(s));
        assert(run(s, seq![d]) == step(s, d));
    } else {
        lemma_run_prepend(s, t, d, m.drop_last());
        assert((seq![d] + m).drop_last() =~= seq![d] + m.drop_last());
        assert((seq![d] + m).last() == m.last());
    }
}

/// Once a move is rejected, no later move can repair the run.
pub proof fn lemma_run_rejected(s: Seq<u8>, m: Seq<Direction>, n: Seq<Direction>)
    requires
        run(s, m) is None,
    ensures
        run(s, m + n) is None,
    decreases n.len(),
{
    if n.len() == 0 {
        assert(m + n =~= m);
    } else {
        lemma_run_rejected(s, m, n.drop_last());
        assert((m + n).drop_last() =~= m + n.drop_last());
    }
}

/// Every configuration reached by accepted moves from a well-formed one is
/// well formed.
pub proof fn lemma_run_well_formed(s: Seq<u8>, m: Seq<Direction>)
    requires
        well_formed(s),
        run(s, m) is Some,
    ensures
        well_formed(run(s, m)->0),
    decreases m.len(),
{
    if m.len() > 0 {
        lemma_run_well_formed(s, m.drop_last());
        lemma_step_well_formed(run(s, m.drop_last())->0, m.last());
    }
}

/// Playing `a` then `b` is playing `b` from where `a` ends.
pub proof fn lemma_run_append(s: Seq<u8>, a: Seq<Direction>, b: Seq<Direction>)
    requires
        run(s, a) is Some,
    ensures
        run(s, a + b) == run(run(s, a)->0, b),
    decreases b.len(),
{
    if b.len() == 0 {
        assert(a + b =~= a);
    } else {
        lemma_run_append(s, a, b.drop_last());
        assert((a + b).drop_last() =~= a + b.drop_last());
        assert((a + b).last() == b.last());
    }
}

/// Each direction is one of the four that `direction_at` lists.
pub proof fn lemma_direction_listed(d: Direction)
    ensures
        exists|k: int| 0 <= k < 4 && direction_at(k) == d,
{
    match d {
        Direction::Up => assert(direction_at(0) == d),
        Direction::Down => assert(direction_at(1) == d),
        Direction::Left => assert(direction_at(2) == d),
        Direction::Right => assert(direction_at(3) == d),
    }
}

/// Every well-formed configuration accepts a move up or down.
pub proof fn lemma_some_move(s: Seq<u8>)
    requires
        well_formed(s),
    ensures
        step(s, Direction::Up) is Some || step(s, Direction::Down) is Some,
{
    let b = blank_index(s);
    let i = choose|i: int| 0 <= i < s.len() && s[i] == 0;
    assert(0 <= b < 16);
}

/// Relies on rand::thread_rng and Rng::gen_range: a value drawn from `0..n`.
#[verifier::external_body]
fn random_index(n: usize) -> (r: usize)
    requires
        n > 0,
    ensures
        r < n,
{
    rand::thread_rng().gen_range(0..n)
}

/// A 4x4 puzzle configuration, stored row by row.
#[derive(Clone, Copy, Debug, Hash)]
pub struct Board {
    cells: [Cell; CELLS],
}

impl View for Board {
    type V = Seq<u8>;

    closed spec fn view(&self) -> Seq<u8> {
        self.cells@
    }
}

impl PartialEq for Board {
    fn eq(&self, other: &Board) -> (r: bool) {
        let mut i: usize = 0;
        while i < CELLS
            invariant
                i <= 16,
                forall|k: int| 0 <= k < i ==> self@[k] == other@[k],
            decreases 16 - i,
        {
            if self.cells[i] != other.cells[i] {
                return false;
            }
            i = i + 1;
        }
        assert(self@ =~= other@);
        true
    }
}

impl vstd::std_specs::cmp::PartialEqSpecImpl for Board {
    open spec fn obeys_eq_spec() -> bool {
        true
    }

    open spec fn eq_spec(&self, other: &Board) -> bool {
        self@ == other@
    }
}

impl Eq for Board {
}

impl Board {
    pub open spec fn wf(&self) -> bool {
        well_formed(self@)
    }

    /// The goal board: tiles 1 to 15 in reading order, blank last.
    pub fn goal() -> (r: Board)
        ensures
            r@ == goal_cells(),
            r.wf(),
    {
        let r = Board { cells: [1, 2, 3, 4, 5, 6, 7, 8, 9, 10, 11, 12, 13, 14, 15, 0] };
        assert(r@ =~= goal_cells());
        assert(r@[15] == 0);
        r
    }

    /// Builds a board from its rows.
    pub fn new(cells: [[Cell; N]; N]) -> (r: Board)
        ensures
            r@ == Seq::new(16, |i: int| cells@[i / 4]@[i % 4]),
    {
        let r = Board {
            cells: [
                cells[0][0], cells[0][1], cells[0][2], cells[0][3],
                cells[1][0], cells[1][1], cells[1][2], cells[1][3],
                cells[2][0], cells[2][1], cells[2][2], cells[2][3],
                cells[3][0], cells[3][1], cells[3][2], cells[3][3],
            ],
        };
        assert(r@ =~= Seq::new(16, |i: int| cells@[i / 4]@[i % 4]));
        r
    }

    /// Returns the value of the cell at the given row and column.
    pub fn value_at(&self, line: usize, column: usize) -> (r: Cell)
        requires
            line < 4,
            column < 4,
        ensures
            r == self@[line * 4 + column],
    {
        self.cells[line * 4 + column]
    }

    /// Tells whether the board is a permutation of 0 to 15.
    pub fn is_well_formed(&self) -> (r: bool)
        ensures
            r == self.wf(),
    {
        let mut blank = false;
        let mut i: usize = 0;
        while i < CELLS
            invariant
                i <= 16,
                forall|k: int| 0 <= k < i ==> #[trigger] self@[k] < 16,
                forall|k: int, l: int| 0 <= k < i && 0 <= l < i && k != l ==> self@[k] != self@[l],
                blank ==> self@.contains(0),
                !blank ==> forall|k: int| 0 <= k < i ==> self@[k] != 0,
            decreases 16 - i,
        {
            if self.cells[i] >= 16 {
                return false;
            }
            let mut j: usize = 0;
            while j < i
                invariant
                    i < 16,
                    j <= i,
                    forall|l: int| 0 <= l < j ==> self@[l] != self@[i as int],
                decreases i - j,
            {
                if self.cells[j] == self.cells[i] {
                    return false;
                }
                j = j + 1;
            }
            if self.cells[i] == 0 {
                blank = true;
                assert(self@[i as int] == 0);
            }
            i = i + 1;
        }
        blank
    }

    /// Returns the index of the first cell that holds `value`, read row by
    /// row, as `(line, column)`.
    pub fn position(&self, value: Cell) -> (r: (usize, usize))
        requires
            self@.contains(value),
        ensures
            r.0 < 4,
            r.1 < 4,
            self@[r.0 * 4 + r.1] == value,
            forall|k: int| 0 <= k < r.0 * 4 + r.1 ==> self@[k] != value,
    {
        let mut i: usize = 0;
        while i < CELLS
            invariant
                i <= 16,
                self@.contains(value),
                forall|k: int| 0 <= k < i ==> self@[k] != value,
            decreases 16 - i,
        {
            if self.cells[i] == value {
                return (i / 4, i % 4);
            }
            i = i + 1;
        }
        proof {
            let k = choose|k: int| 0 <= k < self@.len() && self@[k] == value;
            assert(self@[k] == value);
        }
        (0, 0)
    }

    /// Returns the board after moving the blank in direction `dir`, or `None`
    /// when the blank would leave the grid.
    pub fn apply(&self, dir: Direction) -> (r: Option<Board>)
        requires
            self.wf(),
        ensures
            r matches Some(b) ==> b.wf(),
            match r {
                Some(b) => step(self@, dir) == Some(b@),
                None => step(self@, dir) is None,
            },
    {
        let (x, y) = self.position(EMPTY_CELL);
        let b = x * 4 + y;
        proof {
            lemma_blank_unique(self@, b as int);
            lemma_step_well_formed(self@, dir);
        }
        let target: Option<usize> = match dir {
            Direction::Up => if x > 0 { Some(b - 4) } else { None },
            Direction::Down => if x < N - 1 { Some(b + 4) } else { None },
            Direction::Left => if y > 0 { Some(b - 1) } else { None },
            Direction::Right => if y < N - 1 { Some(b + 1) } else { None },
        };
        match target {
            Some(t) => {
                let mut c = self.cells;
                c[b] = c[t];
                c[t] = EMPTY_CELL;
                let r = Board { cells: c };
                assert(r@ =~= self@.update(b as int, self@[t as int]).update(t as int, 0u8));
                Some(r)
            },
            None => None,
        }
    }

    /// Returns a board reached from the goal by `shuffle_moves` random moves.
    pub fn random(shuffle_moves: usize) -> (r: Board)
        ensures
            r.wf(),
            exists|m: Seq<Direction>| m.len() == shuffle_moves && run(goal_cells(), m) == Some(r@),
    {
        let mut board = Board::goal();
        let ghost mut played: Seq<Direction> = Seq::empty();
        let mut n: usize = 0;
        while n < shuffle_moves
            invariant
                n <= shuffle_moves,
                board.wf(),
                played.len() == n,
                run(goal_cells(), played) == Some(board@),
            decreases shuffle_moves - n,
        {
            let mut applicable: Vec<Direction> = Vec::new();
            let mut i: usize = 0;
            while i < 4
                invariant
                    i <= 4,
                    board.wf(),
                    forall|k: int| 0 <= k < applicable.len() ==> (#[trigger] step(board@, applicable@[k])) is Some,
                    applicable.len() == 0 ==> forall|k: int| 0 <= k < i ==> (#[trigger] step(board@, direction_at(k))) is None,
                decreases 4 - i,
            {
                let dir = Direction::from_index(i);
                if board.apply(dir).is_some() {
                    applicable.push(dir);
                }
                i = i + 1;
            }
            proof {
                lemma_some_move(board@);
                assert(step(board@, direction_at(0)) is Some || step(board@, direction_at(1)) is Some);
            }
            if applicable.len() > 0 {
                let k = random_index(applicable.len());
                let dir = applicable[k];
                assert(step(board@, applicable@[k as int]) is Some);
                match board.apply(dir) {
                    Some(next) => {
                        proof {
                            lemma_run_push(goal_cells(), played, dir);
                            played = played.push(dir);
                        }
                        board = next;
                    },
                    None => {},
                }
            }
            n = n + 1;
        }
        board
    }

    /// The board's number encoding, `key_of` its cells: two boards have the
    /// same key exactly when they are equal.
    pub fn key(&self) -> (r: u64)
        requires
            self.wf(),
        ensures
            r == key_of(self@),
    {
        let mut k: u64 = 0;
        let mut i: usize = 0;
        proof {
            reveal_with_fuel(pow16, 16);
            assert(self@.subrange(0, 0) =~= Seq::<u8>::empty());
        }
        while i < CELLS
            invariant
                i <= 16,
                self.wf(),
                k == key_of(self@.subrange(0, i as int)),
                k < pow16(i as nat),
                pow16(15) == 0x1000_0000_0000_0000,
            decreases 16 - i,
        {
            let c = self.cells[i];
            proof {
                lemma_pow16_le(i as nat, 15);
                assert(self@.subrange(0, i + 1).drop_last() =~= self@.subrange(0, i as int));
                assert(c < 16);
                assert(k * 16 + c < 16 * pow16(i as nat)) by (nonlinear_arith)
                    requires
                        k < pow16(i as nat),
                        c < 16,
                ;
                assert(16 * pow16(i as nat) <= 16 * pow16(15)) by (nonlinear_arith)
                    requires
                        pow16(i as nat) <= pow16(15),
                ;
            }
            k = k * 16 + c as u64;
            i = i + 1;
        }
        assert(self@.subrange(0, 16) =~= self@);
        k
    }

    /// Tells whether playing `actions` from this board is accepted at every
    /// move and ends at the goal.
    pub fn is_valid_plan(&self, actions: &[Direction]) -> (r: bool)
        requires
            self.wf(),
        ensures
            r == is_plan(self@, actions@),
    {
        let mut board = *self;
        let mut i: usize = 0;
        assert(actions@.subrange(0, 0) =~= Seq::<Direction>::empty());
        while i < actions.len()
            invariant
                i <= actions@.len(),
                board.wf(),
                run(self@, actions@.subrange(0, i as int)) == Some(board@),
            decreases actions@.len() - i,
        {
            let act = actions[i];
            proof {
                lemma_run_push(self@, actions@.subrange(0, i as int), act);
                assert(actions@.subrange(0, i as int).push(act) =~= actions@.subrange(0, i + 1));
            }
            match board.apply(act) {
                Some(next) => {
                    board = next;
                },
                None => {
                    proof {
                        lemma_run_rejected(self@, actions@.subrange(0, i + 1), actions@.subrange(i + 1, actions@.len() as int));
                        assert(actions@.subrange(0, i + 1) + actions@.subrange(i + 1, actions@.len() as int) =~= actions@);
                    }
                    return false;
                },
            }
            i = i + 1;
        }
        assert(actions@.subrange(0, actions@.len() as int) =~= actions@);
        board == Board::goal()
    }
}

} // verus!
