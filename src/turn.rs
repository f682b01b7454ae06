//! The rules of Reversi: legality of a move, its execution, and who plays next.

use vstd::prelude::*;

verus! {

use crate::board::{flipped_cell, Board, Cell, Coord, Direction, Disk, BOARD_SIZE, NUM_CELLS};
use crate::{ReversiError, Result, Side};

/// A turn is either running, with the side to play next, or ended (`None`).
pub type State = Option<Side>;

/// Whether `(r, c)` names a cell of the board.
pub open spec fn in_board(r: int, c: int) -> bool {
    0 <= r < BOARD_SIZE && 0 <= c < BOARD_SIZE
}

/// Row of the cell `k` steps away from row `r` along `dir`.
pub open spec fn ray_row(r: int, dir: Direction, k: int) -> int {
    match dir {
        Direction::North | Direction::NE | Direction::NW => r - k,
        Direction::South | Direction::SE | Direction::SW => r + k,
        _ => r,
    }
}

/// Column of the cell `k` steps away from column `c` along `dir`.
pub open spec fn ray_col(c: int, dir: Direction, k: int) -> int {
    match dir {
        Direction::NE | Direction::East | Direction::SE => c + k,
        Direction::SW | Direction::West | Direction::NW => c - k,
        _ => c,
    }
}

/// How many steps along `dir` lead from `(r, c)` to `(x, y)`, if `(x, y)` lies on that ray.
pub open spec fn ray_index(r: int, c: int, dir: Direction, x: int, y: int) -> int {
    match dir {
        Direction::North | Direction::NE | Direction::NW => r - x,
        Direction::South | Direction::SE | Direction::SW => x - r,
        Direction::East => y - c,
        Direction::West => c - y,
    }
}

/// The side of the disk `k` steps away from `(r, c)` along `dir` (`None`: empty or off the board).
pub open spec fn ray_side(b: Board, r: int, c: int, dir: Direction, k: int) -> Option<Side> {
    b.side_at(ray_row(r, dir, k), ray_col(c, dir, k))
}

/// The first step, from step `k` on, whose cell does not hold a disk of `opp`
/// (capped at 8, which is always off the board).
pub open spec fn run_end(b: Board, r: int, c: int, dir: Direction, opp: Side, k: int) -> int
    decreases 8 - k,
{
    if k < 8 && ray_side(b, r, c, dir, k) == Some(opp) {
        run_end(b, r, c, dir, opp, k + 1)
    } else {
        k
    }
}

/// A disk of `s` at `(r, c)` outflanks along `dir`: the adjacent cells hold a
/// non-empty run of disks of the opponent, closed by a disk of `s`.
pub open spec fn outflanks(b: Board, r: int, c: int, dir: Direction, s: Side) -> bool {
    let e = run_end(b, r, c, dir, s.opposite(), 1);
    e >= 2 && ray_side(b, r, c, dir, e) == Some(s)
}

/// A disk of `s` at `(r, c)` outflanks in at least one direction.
pub open spec fn can_flank(b: Board, r: int, c: int, s: Side) -> bool {
    exists|d: Direction| outflanks(b, r, c, d, s)
}

/// `s` may play at `(r, c)`: the cell is on the board, empty, and a disk there outflanks.
pub open spec fn legal_at(b: Board, r: int, c: int, s: Side) -> bool {
    in_board(r, c) && b.cell(r, c) is None && can_flank(b, r, c, s)
}

/// `s` has at least one legal move.
pub open spec fn has_move(b: Board, s: Side) -> bool {
    exists|r: int, c: int| legal_at(b, r, c, s)
}

/// `(x, y)` lies strictly inside the run that a disk of `s` at `(r, c)` outflanks along `dir`.
pub open spec fn on_run(b: Board, r: int, c: int, dir: Direction, s: Side, x: int, y: int) -> bool {
    let k = ray_index(r, c, dir, x, y);
    &&& outflanks(b, r, c, dir, s)
    &&& 1 <= k < run_end(b, r, c, dir, s.opposite(), 1)
    &&& x == ray_row(r, dir, k)
    &&& y == ray_col(c, dir, k)
}

/// `(x, y)` is turned over along one of the first `n` directions of the scanning order.
pub open spec fn flipped_upto(b: Board, r: int, c: int, s: Side, n: int, x: int, y: int) -> bool
    decreases n,
{
    if n <= 0 {
        false
    } else {
        flipped_upto(b, r, c, s, n - 1, x, y) || on_run(b, r, c, Direction::spec_nth(n - 1), s, x, y)
    }
}

/// A move of `s` at `(r, c)` turns over the disk at `(x, y)`.
pub open spec fn flips(b: Board, r: int, c: int, s: Side, x: int, y: int) -> bool {
    flipped_upto(b, r, c, s, 8, x, y)
}

/// `nb` is the board `b` after `s` plays at `(r, c)`: the new disk, the outflanked
/// runs turned over, every other cell as it was.
pub open spec fn board_after(b: Board, r: int, c: int, s: Side, nb: Board) -> bool {
    forall|x: int, y: int|
        in_board(x, y) ==> #[trigger] nb.cell(x, y) == if (x == r && y == c) || flips(b, r, c, s, x, y) {
            Some(Disk(s))
        } else {
            b.cell(x, y)
        }
}

/// Number of cells among the first `n` of row `r` whose side is `target` (`None`: empty).
pub open spec fn count_row(b: Board, target: Option<Side>, r: int, n: int) -> nat
    decreases n,
{
    if n <= 0 {
        0
    } else {
        count_row(b, target, r, n - 1) + if b.side_at(r, n - 1) == target {
            1nat
        } else {
            0nat
        }
    }
}

/// Number of cells among the first `m` rows whose side is `target`.
pub open spec fn count_rows(b: Board, target: Option<Side>, m: int) -> nat
    decreases m,
{
    if m <= 0 {
        0
    } else {
        count_rows(b, target, m - 1) + count_row(b, target, m - 1, BOARD_SIZE as int)
    }
}

/// Number of cells of the board whose side is `target` (`None`: empty cells).
pub open spec fn count_board(b: Board, target: Option<Side>) -> nat {
    count_rows(b, target, BOARD_SIZE as int)
}

/// Number of occupied cells.
pub open spec fn occupied(b: Board) -> int {
    NUM_CELLS - count_board(b, None)
}

/// Who plays after `s` has moved, leaving the board `nb`.
pub open spec fn next_state(nb: Board, s: Side) -> State {
    if occupied(nb) == NUM_CELLS {
        None
    } else if has_move(nb, s.opposite()) {
        Some(s.opposite())
    } else if has_move(nb, s) {
        Some(s)
    } else {
        None
    }
}


/// One step along `dir` from step `k` reaches step `k + 1`.
proof fn lemma_ray_step(p: Coord, r: int, c: int, dir: Direction, k: int)
    requires
        in_board(ray_row(r, dir, k), ray_col(c, dir, k)),
        p.0 == ray_row(r, dir, k),
        p.1 == ray_col(c, dir, k),
    ensures
        p.spec_step(dir).in_bounds() <==> in_board(ray_row(r, dir, k + 1), ray_col(c, dir, k + 1)),
        p.spec_step(dir).in_bounds() ==> p.spec_step(dir).0 == ray_row(r, dir, k + 1)
            && p.spec_step(dir).1 == ray_col(c, dir, k + 1),
{
}

/// Eight steps in any direction leave the board.
proof fn lemma_ray_leaves(r: int, c: int, dir: Direction, k: int)
    requires
        in_board(r, c),
        k >= 8,
    ensures
        !in_board(ray_row(r, dir, k), ray_col(c, dir, k)),
{
}

/// The target cell is never on one of its own rays.
proof fn lemma_not_flipped_at_origin(b: Board, r: int, c: int, s: Side, n: int)
    ensures
        !flipped_upto(b, r, c, s, n, r, c),
    decreases n,
{
    if n > 0 {
        lemma_not_flipped_at_origin(b, r, c, s, n - 1);
    }
}

/// Two different rays from one cell share no cell.
proof fn lemma_rays_disjoint(r: int, c: int, d1: Direction, d2: Direction, k1: int, k2: int)
    requires
        k1 >= 1,
        k2 >= 1,
        ray_row(r, d1, k1) == ray_row(r, d2, k2),
        ray_col(c, d1, k1) == ray_col(c, d2, k2),
    ensures
        d1 == d2,
        k1 == k2,
{
}

/// The cells of the ray at position `i` of the scanning order are not turned over
/// along the directions that come before it.
proof fn lemma_ray_untouched(b: Board, r: int, c: int, s: Side, i: int, n: int, k: int)
    requires
        0 <= i < 8,
        n <= i,
        k >= 1,
    ensures
        !flipped_upto(
            b,
            r,
            c,
            s,
            n,
            ray_row(r, Direction::spec_nth(i), k),
            ray_col(c, Direction::spec_nth(i), k),
        ),
    decreases n,
{
    if n > 0 {
        lemma_ray_untouched(b, r, c, s, i, n - 1, k);
        let d = Direction::spec_nth(n - 1);
        let x = ray_row(r, Direction::spec_nth(i), k);
        let y = ray_col(c, Direction::spec_nth(i), k);
        if on_run(b, r, c, d, s, x, y) {
            lemma_rays_disjoint(r, c, d, Direction::spec_nth(i), ray_index(r, c, d, x, y), k);
        }
    }
}

/// Boards that agree along a ray agree on where its run of `opp` ends.
proof fn lemma_run_end_agree(b1: Board, b2: Board, r: int, c: int, dir: Direction, opp: Side, k: int)
    requires
        forall|j: int| k <= j <= 8 ==> ray_side(b1, r, c, dir, j) == ray_side(b2, r, c, dir, j),
    ensures
        run_end(b1, r, c, dir, opp, k) == run_end(b2, r, c, dir, opp, k),
    decreases 8 - k,
{
    if k < 8 {
        lemma_run_end_agree(b1, b2, r, c, dir, opp, k + 1);
    }
}

/// The run of `opp` from step `k` ends at step `k` or later, and at most at step 8.
proof fn lemma_run_end_bounds(b: Board, r: int, c: int, dir: Direction, opp: Side, k: int)
    requires
        k <= 8,
    ensures
        k <= run_end(b, r, c, dir, opp, k) <= 8,
    decreases 8 - k,
{
    if k < 8 {
        lemma_run_end_bounds(b, r, c, dir, opp, k + 1);
    }
}

/// Indicator of `b.side_at(r, c) == target`.
pub open spec fn indicator(b: Board, target: Option<Side>, r: int, c: int) -> int {
    if b.side_at(r, c) == target {
        1
    } else {
        0
    }
}

/// `b1` and `b2` hold the same sides everywhere but at `(r0, c0)`.
pub open spec fn differ_only_at(b1: Board, b2: Board, r0: int, c0: int) -> bool {
    forall|i: int, j: int| (i != r0 || j != c0) ==> #[trigger] b1.side_at(i, j) == b2.side_at(i, j)
}

proof fn lemma_count_row_change(b1: Board, b2: Board, t: Option<Side>, r: int, n: int, r0: int, c0: int)
    requires
        differ_only_at(b1, b2, r0, c0),
    ensures
        count_row(b2, t, r, n) == count_row(b1, t, r, n) + if r == r0 && 0 <= c0 < n {
            indicator(b2, t, r0, c0) - indicator(b1, t, r0, c0)
        } else {
            0
        },
    decreases n,
{
    if n > 0 {
        lemma_count_row_change(b1, b2, t, r, n - 1, r0, c0);
        assert(r != r0 || n - 1 != c0 ==> b1.side_at(r, n - 1) == b2.side_at(r, n - 1));
    }
}

proof fn lemma_count_rows_change(b1: Board, b2: Board, t: Option<Side>, m: int, r0: int, c0: int)
    requires
        differ_only_at(b1, b2, r0, c0),
        0 <= c0 < BOARD_SIZE,
    ensures
        count_rows(b2, t, m) == count_rows(b1, t, m) + if 0 <= r0 < m {
            indicator(b2, t, r0, c0) - indicator(b1, t, r0, c0)
        } else {
            0
        },
    decreases m,
{
    if m > 0 {
        lemma_count_rows_change(b1, b2, t, m - 1, r0, c0);
        lemma_count_row_change(b1, b2, t, m - 1, BOARD_SIZE as int, r0, c0);
    }
}

/// Changing one cell changes each count by what that cell held before and holds after.
proof fn lemma_count_change(b1: Board, b2: Board, t: Option<Side>, r0: int, c0: int)
    requires
        differ_only_at(b1, b2, r0, c0),
        in_board(r0, c0),
    ensures
        count_board(b2, t) == count_board(b1, t) + indicator(b2, t, r0, c0) - indicator(b1, t, r0, c0),
{
    lemma_count_rows_change(b1, b2, t, BOARD_SIZE as int, r0, c0);
}

proof fn lemma_count_row_total(b: Board, r: int, n: int)
    requires
        0 <= n,
    ensures
        count_row(b, Some(Side::Dark), r, n) + count_row(b, Some(Side::Light), r, n) + count_row(
            b,
            None,
            r,
            n,
        ) == n,
    decreases n,
{
    if n > 0 {
        lemma_count_row_total(b, r, n - 1);
    }
}

proof fn lemma_count_rows_total(b: Board, m: int)
    requires
        0 <= m,
    ensures
        count_rows(b, Some(Side::Dark), m) + count_rows(b, Some(Side::Light), m) + count_rows(
            b,
            None,
            m,
        ) == m * BOARD_SIZE,
    decreases m,
{
    if m > 0 {
        lemma_count_rows_total(b, m - 1);
        lemma_count_row_total(b, m - 1, BOARD_SIZE as int);
    }
}

/// Every cell is dark, light or empty.
pub proof fn lemma_count_total(b: Board)
    ensures
        count_board(b, Some(Side::Dark)) + count_board(b, Some(Side::Light)) + count_board(b, None)
            == NUM_CELLS,
{
    lemma_count_rows_total(b, BOARD_SIZE as int);
}

proof fn lemma_count_row_empty(b: Board, r: int, n: int)
    requires
        forall|j: int| #[trigger] b.side_at(r, j) == None::<Side>,
        0 <= n,
    ensures
        count_row(b, None, r, n) == n,
        count_row(b, Some(Side::Dark), r, n) == 0,
        count_row(b, Some(Side::Light), r, n) == 0,
    decreases n,
{
    if n > 0 {
        lemma_count_row_empty(b, r, n - 1);
    }
}

proof fn lemma_count_rows_empty(b: Board, m: int)
    requires
        forall|i: int, j: int| #[trigger] b.side_at(i, j) == None::<Side>,
        0 <= m,
    ensures
        count_rows(b, None, m) == m * BOARD_SIZE,
        count_rows(b, Some(Side::Dark), m) == 0,
        count_rows(b, Some(Side::Light), m) == 0,
    decreases m,
{
    if m > 0 {
        lemma_count_rows_empty(b, m - 1);
        lemma_count_row_empty(b, m - 1, BOARD_SIZE as int);
    }
}

/// The content of cell `(x, y)` in the opening position.
pub open spec fn opening_cell(x: int, y: int) -> Cell {
    if (x == 3 && y == 4) || (x == 4 && y == 3) {
        Some(Disk(Side::Dark))
    } else if (x == 3 && y == 3) || (x == 4 && y == 4) {
        Some(Disk(Side::Light))
    } else {
        None
    }
}


/// The cells from step `k0` to just before the end of the run all hold disks of `opp`.
proof fn lemma_run_cells(b: Board, r: int, c: int, dir: Direction, opp: Side, k0: int, k: int)
    requires
        k0 <= k < run_end(b, r, c, dir, opp, k0),
    ensures
        ray_side(b, r, c, dir, k) == Some(opp),
    decreases 8 - k0,
{
    if k0 < 8 && ray_side(b, r, c, dir, k0) == Some(opp) && k > k0 {
        lemma_run_cells(b, r, c, dir, opp, k0 + 1, k);
    }
}

/// A cell that a move of `s` turns over held a disk of the opponent.
proof fn lemma_flipped_was_opponent(b: Board, r: int, c: int, s: Side, n: int, x: int, y: int)
    requires
        flipped_upto(b, r, c, s, n, x, y),
    ensures
        b.side_at(x, y) == Some(s.opposite()),
    decreases n,
{
    if flipped_upto(b, r, c, s, n - 1, x, y) {
        lemma_flipped_was_opponent(b, r, c, s, n - 1, x, y);
    } else {
        let d = Direction::spec_nth(n - 1);
        lemma_run_cells(b, r, c, d, s.opposite(), 1, ray_index(r, c, d, x, y));
    }
}

proof fn lemma_full_row(b: Board, r: int, n: int)
    requires
        count_row(b, None, r, n) == 0,
    ensures
        forall|j: int| 0 <= j < n ==> #[trigger] b.side_at(r, j) != None::<Side>,
    decreases n,
{
    if n > 0 {
        lemma_full_row(b, r, n - 1);
    }
}

proof fn lemma_full_rows(b: Board, m: int)
    requires
        count_rows(b, None, m) == 0,
    ensures
        forall|i: int, j: int| 0 <= i < m && 0 <= j < BOARD_SIZE ==> #[trigger] b.side_at(i, j) != None::<Side>,
    decreases m,
{
    if m > 0 {
        lemma_full_rows(b, m - 1);
        lemma_full_row(b, m - 1, BOARD_SIZE as int);
    }
}

/// On a full board neither side has a legal move.
pub proof fn lemma_full_board_no_move(b: Board, s: Side)
    requires
        occupied(b) == NUM_CELLS,
    ensures
        !has_move(b, s),
{
    lemma_full_rows(b, BOARD_SIZE as int);
    assert forall|r: int, c: int| !legal_at(b, r, c, s) by {
        if in_board(r, c) {
            assert(b.side_at(r, c) != None::<Side>);
        }
    }
}

/// In every consistent turn the two scores add up to the number of disks on the board.
pub proof fn lemma_scores_count_disks(t: Turn)
    requires
        t.wf(),
    ensures
        t.spec_score_dark() + t.spec_score_light() == occupied(t.spec_board()),
{
    lemma_count_total(t.spec_board());
}

/// In every consistent turn the side to play has a legal move, and once the game has
/// ended the board is full or neither side has a legal move (in fact neither side has one).
pub proof fn lemma_state_invariant(t: Turn)
    requires
        t.wf(),
    ensures
        t.spec_state() is Some ==> has_move(t.spec_board(), t.spec_state()->0),
        t.spec_state() is None ==> occupied(t.spec_board()) == NUM_CELLS || (!has_move(
            t.spec_board(),
            Side::Dark,
        ) && !has_move(t.spec_board(), Side::Light)),
        t.spec_state() is None ==> !has_move(t.spec_board(), Side::Dark) && !has_move(
            t.spec_board(),
            Side::Light,
        ),
{
    if t.spec_state() is None && occupied(t.spec_board()) == NUM_CELLS {
        lemma_full_board_no_move(t.spec_board(), Side::Dark);
        lemma_full_board_no_move(t.spec_board(), Side::Light);
    }
}

/// A move never takes a disk off the board and never fills an empty cell other than
/// its target, which receives a disk of the mover; every other disk keeps its side or
/// is turned over.
pub proof fn lemma_flip_safety(t: Turn, coord: Coord, next: Turn)
    requires
        t.check_outcome(coord) is Ok,
        t.moved_to(coord, next),
    ensures
        t.spec_board().cell(coord.0 as int, coord.1 as int) is None,
        next.spec_board().cell(coord.0 as int, coord.1 as int) == Some(Disk(t.spec_state()->0)),
        forall|x: int, y: int|
            in_board(x, y) && !(x == coord.0 && y == coord.1) ==> (#[trigger] next.spec_board().cell(
                x,
                y,
            ) is Some <==> t.spec_board().cell(x, y) is Some),
        forall|x: int, y: int|
            in_board(x, y) && t.spec_board().cell(x, y) is Some ==> #[trigger] next.spec_board().cell(
                x,
                y,
            ) == t.spec_board().cell(x, y) || next.spec_board().cell(x, y) == flipped_cell(
                t.spec_board().cell(x, y),
            ),
{
    let b = t.spec_board();
    let s = t.spec_state()->0;
    assert forall|x: int, y: int| in_board(x, y) && #[trigger] flips(b, coord.0 as int, coord.1 as int, s, x, y) implies b.cell(x, y) == Some(Disk(s.opposite())) by {
        lemma_flipped_was_opponent(b, coord.0 as int, coord.1 as int, s, 8, x, y);
    }
}

/// A move leads to a single turn.
pub proof fn lemma_moved_to_unique(t: Turn, coord: Coord, n1: Turn, n2: Turn)
    requires
        t.moved_to(coord, n1),
        t.moved_to(coord, n2),
    ensures
        n1 == n2,
{
    let b1 = n1.spec_board();
    let b2 = n2.spec_board();
    assert forall|i: int| 0 <= i < BOARD_SIZE implies b1.0[i] =~= b2.0[i] by {
        assert forall|j: int| 0 <= j < BOARD_SIZE implies b1.0[i][j] == b2.0[i][j] by {
            assert(b1.cell(i, j) == b2.cell(i, j));
        }
    }
    assert(b1.0 =~= b2.0);
    Turn::lemma_same_fields(n1, n2);
}

proof fn lemma_disks_after_moves(turns: Seq<Turn>, coords: Seq<Coord>, n: int)
    requires
        0 <= n < turns.len(),
        coords.len() + 1 == turns.len(),
        occupied(turns[0].spec_board()) == 4,
        forall|i: int| 0 <= i < turns.len() - 1 ==> #[trigger] turns[i].moved_to(coords[i], turns[i + 1]),
    ensures
        occupied(turns[n].spec_board()) == 4 + n,
    decreases n,
{
    if n > 0 {
        lemma_disks_after_moves(turns, coords, n - 1);
        assert(turns[n - 1].moved_to(coords[n - 1], turns[(n - 1) + 1]));
    }
}

/// From the opening position at most 60 moves can follow one another: each move adds
/// exactly one disk, and the board has room for 64.
pub proof fn lemma_game_length(turns: Seq<Turn>, coords: Seq<Coord>)
    requires
        turns.len() >= 1,
        coords.len() + 1 == turns.len(),
        turns[0].wf(),
        turns[0].is_opening(),
        forall|i: int| 0 <= i < turns.len() - 1 ==> #[trigger] turns[i].moved_to(coords[i], turns[i + 1]),
    ensures
        turns.len() - 1 <= NUM_CELLS - 4,
{
    lemma_count_total(turns[0].spec_board());
    let last = turns.len() - 1;
    lemma_disks_after_moves(turns, coords, last);
}

/// A position of the game: the board, who plays next, and the scores.
#[derive(Debug, Clone, Copy)]
pub struct Turn {
    board: Board,
    state: State,
    score_dark: u8,
    score_light: u8,
}

impl Turn {
    /// The board.
    pub closed spec fn spec_board(self) -> Board {
        self.board
    }

    /// Who plays next; `None` once the game is over.
    pub closed spec fn spec_state(self) -> State {
        self.state
    }

    /// Dark's score.
    pub closed spec fn spec_score_dark(self) -> int {
        self.score_dark as int
    }

    /// Light's score.
    pub closed spec fn spec_score_light(self) -> int {
        self.score_light as int
    }

    /// The turn is consistent, as every turn is: each score counts the disks of its
    /// side, a running turn's side has a legal move, and an ended turn has a full board
    /// or no legal move for either side.
    #[verifier::type_invariant]
    pub open spec fn wf(self) -> bool {
        let b = self.spec_board();
        &&& self.spec_score_dark() == count_board(b, Some(Side::Dark))
        &&& self.spec_score_light() == count_board(b, Some(Side::Light))
        &&& match self.spec_state() {
            Some(s) => has_move(b, s),
            None => occupied(b) == NUM_CELLS || (!has_move(b, Side::Dark) && !has_move(b, Side::Light)),
        }
    }

    /// The opening position: the four centre disks, Dark to play, 2 to 2.
    pub open spec fn is_opening(self) -> bool {
        &&& self.spec_state() == Some(Side::Dark)
        &&& self.spec_score_dark() == 2
        &&& self.spec_score_light() == 2
        &&& forall|x: int, y: int| in_board(x, y) ==> #[trigger] self.spec_board().cell(x, y) == opening_cell(x, y)
    }

    /// The turn that follows when the side to play plays at `coord`.
    pub open spec fn successor(self, coord: Coord) -> Turn {
        choose|next: Turn| self.moved_to(coord, next)
    }

    /// Turns with the same board, state and scores are equal.
    proof fn lemma_same_fields(a: Turn, b: Turn)
        requires
            a.spec_board() == b.spec_board(),
            a.spec_state() == b.spec_state(),
            a.spec_score_dark() == b.spec_score_dark(),
            a.spec_score_light() == b.spec_score_light(),
        ensures
            a == b,
    {
    }

    /// What `check_move` answers for `coord`.
    pub open spec fn check_outcome(self, coord: Coord) -> Result<()> {
        let b = self.spec_board();
        match self.spec_state() {
            None => Err(ReversiError::EndedGame(self)),
            Some(s) => if !coord.in_bounds() {
                Err(ReversiError::OutOfBoundCoord(coord))
            } else if b.cell(coord.0 as int, coord.1 as int) is Some {
                Err(ReversiError::CellAlreadyTaken(coord))
            } else if can_flank(b, coord.0 as int, coord.1 as int, s) {
                Ok(())
            } else {
                Err(ReversiError::IllegalMove(coord))
            },
        }
    }

    /// `next` is the turn that follows when the side to play plays at `coord`.
    pub open spec fn moved_to(self, coord: Coord, next: Turn) -> bool {
        let s = self.spec_state()->0;
        &&& self.spec_state() is Some
        &&& board_after(self.spec_board(), coord.0 as int, coord.1 as int, s, next.spec_board())
        &&& next.spec_state() == next_state(next.spec_board(), s)
        &&& next.spec_score_dark() == count_board(next.spec_board(), Some(Side::Dark))
        &&& next.spec_score_light() == count_board(next.spec_board(), Some(Side::Light))
        &&& occupied(next.spec_board()) == occupied(self.spec_board()) + 1
    }


    /// The opening position: two disks of each side in the centre, Dark to play, 2 to 2.
    pub fn first_turn() -> (r: Turn)
        ensures
            r.wf(),
            r.is_opening(),
    {
        let mut board = Board::new([[None;BOARD_SIZE];BOARD_SIZE]);
        let ghost b0 = board;
        proof {
            assert forall|i: int, j: int| #[trigger] b0.side_at(i, j) == None::<Side> by {
                if in_board(i, j) {
                    assert(b0.0[i][j] == None::<Disk>);
                }
            }
            lemma_count_rows_empty(b0, BOARD_SIZE as int);
        }
        let center = BOARD_SIZE / 2;
        let ghost b1 = board;
        let _ = board.place_disk(Side::Dark, Coord::new(center - 1, center));
        proof {
            assert(differ_only_at(b1, board, 3, 4));
            lemma_count_change(b1, board, Some(Side::Dark), 3, 4);
            lemma_count_change(b1, board, Some(Side::Light), 3, 4);
        }
        let ghost b2 = board;
        let _ = board.place_disk(Side::Dark, Coord::new(center, center - 1));
        proof {
            assert(differ_only_at(b2, board, 4, 3));
            lemma_count_change(b2, board, Some(Side::Dark), 4, 3);
            lemma_count_change(b2, board, Some(Side::Light), 4, 3);
        }
        let ghost b3 = board;
        let _ = board.place_disk(Side::Light, Coord::new(center - 1, center - 1));
        proof {
            assert(differ_only_at(b3, board, 3, 3));
            lemma_count_change(b3, board, Some(Side::Dark), 3, 3);
            lemma_count_change(b3, board, Some(Side::Light), 3, 3);
        }
        let ghost b4 = board;
        let _ = board.place_disk(Side::Light, Coord::new(center, center));
        proof {
            assert(differ_only_at(b4, board, 4, 4));
            lemma_count_change(b4, board, Some(Side::Dark), 4, 4);
            lemma_count_change(b4, board, Some(Side::Light), 4, 4);
            assert(run_end(board, 2, 3, Direction::South, Side::Light, 2) == 2);
            assert(run_end(board, 2, 3, Direction::South, Side::Light, 1) == 2);
            assert(outflanks(board, 2, 3, Direction::South, Side::Dark));
            assert(legal_at(board, 2, 3, Side::Dark));
        }
        Turn { board: board, state: Some(Side::Dark), score_dark: 2, score_light: 2 }
    }

    /// Returns the turn's board.
    pub fn get_board(&self) -> (r: &Board)
        ensures
            *r == self.spec_board(),
    {
        &self.board
    }

    /// Returns the cell at `coord`, or `OutOfBoundCoord` when `coord` is off the board.
    pub fn get_cell(&self, coord: Coord) -> (r: Result<&Cell>)
        ensures
            match r {
                Ok(cell) => coord.in_bounds() && *cell == self.spec_board().cell(
                    coord.0 as int,
                    coord.1 as int,
                ),
                Err(e) => !coord.in_bounds() && e == ReversiError::OutOfBoundCoord(coord),
            },
    {
        self.board.get_cell(coord)
    }

    /// Returns who plays next, or `None` when the game is over.
    pub fn get_state(&self) -> (r: State)
        ensures
            r == self.spec_state(),
    {
        self.state
    }

    /// Whether the game is over.
    pub fn is_end_state(&self) -> (r: bool)
        ensures
            r == (self.spec_state() is None),
    {
        self.state.is_none()
    }

    /// Returns the scores, Dark's first.
    pub fn get_score(&self) -> (r: (u8, u8))
        ensures
            r.0 == self.spec_score_dark(),
            r.1 == self.spec_score_light(),
    {
        (self.score_dark, self.score_light)
    }

    /// Returns Light's score minus Dark's.
    pub fn get_score_diff(&self) -> (r: i16)
        ensures
            r == self.spec_score_light() - self.spec_score_dark(),
    {
        self.score_light as i16 - self.score_dark as i16
    }

    /// Returns how many disks are on the board.
    pub fn get_tempo(&self) -> (r: u8)
        ensures
            r == occupied(self.spec_board()),
            r == self.spec_score_dark() + self.spec_score_light(),
    {
        proof {
            use_type_invariant(self);
            lemma_count_total(self.board);
        }
        self.score_light + self.score_dark
    }

    /// Whether a disk of `side` at `coord` outflanks along `dir`.
    fn check_move_along_direction(board: &Board, coord: Coord, dir: Direction, side: Side) -> (r: bool)
        requires
            coord.in_bounds(),
        ensures
            r == outflanks(*board, coord.0 as int, coord.1 as int, dir, side),
    {
        let ghost b = *board;
        let ghost r0 = coord.0 as int;
        let ghost c0 = coord.1 as int;
        proof {
            lemma_ray_step(coord, r0, c0, dir, 0);
        }
        let mut next_coord = coord.step(dir);
        match board.get_cell(next_coord) {
            Ok(cell) => match *cell {
                Some(next_disk) => {
                    if next_disk.get_side() == side {
                        return false;
                    }
                },
                None => {
                    return false;
                },
            },
            Err(_) => {
                return false;
            },
        }
        proof {
            lemma_ray_leaves(r0, c0, dir, 8);
            lemma_ray_step(next_coord, r0, c0, dir, 1);
        }
        next_coord = next_coord.step(dir);
        let ghost mut k: int = 2;
        loop
            invariant
                2 <= k <= 8,
                b == *board,
                coord.in_bounds(),
                r0 == coord.0,
                c0 == coord.1,
                run_end(b, r0, c0, dir, side.opposite(), 1) == run_end(b, r0, c0, dir, side.opposite(), k),
                next_coord.in_bounds() <==> in_board(ray_row(r0, dir, k), ray_col(c0, dir, k)),
                next_coord.in_bounds() ==> next_coord.0 == ray_row(r0, dir, k) && next_coord.1
                    == ray_col(c0, dir, k),
            decreases 8 - k,
        {
            match board.get_cell(next_coord) {
                Ok(cell) => match *cell {
                    Some(next_disk) => {
                        if next_disk.get_side() == side {
                            return true;
                        }
                        proof {
                            lemma_ray_leaves(r0, c0, dir, 8);
                            lemma_ray_step(next_coord, r0, c0, dir, k);
                        }
                        next_coord = next_coord.step(dir);
                        proof {
                            k = k + 1;
                        }
                    },
                    None => {
                        return false;
                    },
                },
                Err(_) => {
                    return false;
                },
            }
        }
    }

    /// Whether a disk of `side` at `coord` outflanks in some direction.
    fn check_move_along_directions(board: &Board, coord: Coord, side: Side) -> (r: bool)
        requires
            coord.in_bounds(),
        ensures
            r == can_flank(*board, coord.0 as int, coord.1 as int, side),
    {
        let mut i: usize = 0;
        while i < 8
            invariant
                i <= 8,
                coord.in_bounds(),
                forall|j: int|
                    0 <= j < i ==> !outflanks(
                        *board,
                        coord.0 as int,
                        coord.1 as int,
                        #[trigger] Direction::spec_nth(j),
                        side,
                    ),
            decreases 8 - i,
        {
            let dir = Direction::nth(i);
            if Turn::check_move_along_direction(board, coord, dir, side) {
                return true;
            }
            i += 1;
        }
        proof {
            assert forall|d: Direction| !outflanks(*board, coord.0 as int, coord.1 as int, d, side) by {
                crate::board::lemma_nth_index(d);
            }
        }
        false
    }

    /// Checks whether the side to play may play at `coord`: `EndedGame` when the game is
    /// over, `OutOfBoundCoord` off the board, `CellAlreadyTaken` on an occupied cell,
    /// `IllegalMove` when a disk there would outflank nothing.
    pub fn check_move(&self, coord: Coord) -> (r: Result<()>)
        ensures
            r == self.check_outcome(coord),
    {
        let state_side = match self.state {
            Some(s) => s,
            None => {
                return Err(ReversiError::EndedGame(*self));
            },
        };
        match self.board.get_cell(coord) {
            Err(e) => Err(e),
            Ok(cell) => {
                if cell.is_some() {
                    Err(ReversiError::CellAlreadyTaken(coord))
                } else if Turn::check_move_along_directions(&self.board, coord, state_side) {
                    Ok(())
                } else {
                    Err(ReversiError::IllegalMove(coord))
                }
            },
        }
    }


    /// Turns over the run of the opponent's disks that a disk of `side` at `coord`
    /// outflanks along `dir`; returns how many disks were turned.
    fn eat_along_direction(board: &mut Board, coord: Coord, dir: Direction, side: Side) -> (eaten: u8)
        requires
            coord.in_bounds(),
            outflanks(*old(board), coord.0 as int, coord.1 as int, dir, side),
        ensures
            forall|x: int, y: int|
                in_board(x, y) ==> #[trigger] (*final(board)).cell(x, y) == if on_run(
                    *old(board),
                    coord.0 as int,
                    coord.1 as int,
                    dir,
                    side,
                    x,
                    y,
                ) {
                    Some(Disk(side))
                } else {
                    (*old(board)).cell(x, y)
                },
            eaten + 1 == run_end(*old(board), coord.0 as int, coord.1 as int, dir, side.opposite(), 1),
            count_board(*final(board), Some(side)) == count_board(*old(board), Some(side)) + eaten,
            count_board(*final(board), Some(side.opposite())) == count_board(
                *old(board),
                Some(side.opposite()),
            ) - eaten,
            count_board(*final(board), None) == count_board(*old(board), None),
    {
        let ghost b0 = *board;
        let ghost r0 = coord.0 as int;
        let ghost c0 = coord.1 as int;
        let ghost opp = side.opposite();
        let ghost e = run_end(b0, r0, c0, dir, opp, 1);
        proof {
            lemma_ray_step(coord, r0, c0, dir, 0);
            lemma_run_end_bounds(b0, r0, c0, dir, opp, 1);
        }
        let mut next_coord = coord.step(dir);
        let mut eaten: u8 = 0;
        let ghost mut k: int = 1;
        loop
            invariant
                1 <= k <= e <= 8,
                eaten == k - 1,
                coord.in_bounds(),
                r0 == coord.0,
                c0 == coord.1,
                opp == side.opposite(),
                b0 == *old(board),
                e == run_end(b0, r0, c0, dir, opp, 1),
                outflanks(b0, r0, c0, dir, side),
                run_end(b0, r0, c0, dir, opp, k) == e,
                next_coord.in_bounds() <==> in_board(ray_row(r0, dir, k), ray_col(c0, dir, k)),
                next_coord.in_bounds() ==> next_coord.0 == ray_row(r0, dir, k) && next_coord.1
                    == ray_col(c0, dir, k),
                forall|x: int, y: int|
                    in_board(x, y) ==> #[trigger] board.cell(x, y) == if 1 <= ray_index(
                        r0,
                        c0,
                        dir,
                        x,
                        y,
                    ) < k && x == ray_row(r0, dir, ray_index(r0, c0, dir, x, y)) && y == ray_col(
                        c0,
                        dir,
                        ray_index(r0, c0, dir, x, y),
                    ) {
                        Some(Disk(side))
                    } else {
                        b0.cell(x, y)
                    },
                count_board(*board, Some(side)) == count_board(b0, Some(side)) + eaten,
                count_board(*board, Some(opp)) == count_board(b0, Some(opp)) - eaten,
                count_board(*board, None) == count_board(b0, None),
            ensures
                k == e,
            decreases 8 - k,
        {
            proof {
                lemma_ray_leaves(r0, c0, dir, 8);
            }
            let ghost x = ray_row(r0, dir, k);
            let ghost y = ray_col(c0, dir, k);
            match board.get_cell(next_coord) {
                Ok(cell) => match *cell {
                    Some(disk) => {
                        if disk.get_side() == side {
                            assert(ray_index(r0, c0, dir, x, y) == k);
                            assert(ray_side(b0, r0, c0, dir, k) == Some(side));
                            break ;
                        }
                        assert(ray_index(r0, c0, dir, x, y) == k);
                        assert(ray_side(b0, r0, c0, dir, k) == Some(opp));
                        let ghost before = *board;
                        let _ = board.flip_disk(next_coord);
                        proof {
                            assert(differ_only_at(before, *board, x, y));
                            lemma_count_change(before, *board, Some(side), x, y);
                            lemma_count_change(before, *board, Some(opp), x, y);
                            lemma_count_change(before, *board, None, x, y);
                            lemma_ray_step(next_coord, r0, c0, dir, k);
                        }
                        eaten = eaten + 1;
                        next_coord = next_coord.step(dir);
                        proof {
                            k = k + 1;
                        }
                    },
                    None => {
                        assert(ray_index(r0, c0, dir, x, y) == k);
                        assert(ray_side(b0, r0, c0, dir, k) == None::<Side>);
                        break ;
                    },
                },
                Err(_) => {
                    assert(ray_side(b0, r0, c0, dir, k) == None::<Side>);
                    break ;
                },
            }
        }
        eaten
    }


    /// The side to play plays at `coord`: every outflanked run is turned over, a disk is
    /// placed at `coord`, the scores follow, and the next side to play is chosen (the
    /// opponent if it can move, else the same side if it can, else the game ends).
    /// Fails exactly as `check_move` does, leaving the turn as it was.
    pub fn make_move(&mut self, coord: Coord) -> (r: Result<()>)
        ensures
            r == old(self).check_outcome(coord),
            r is Err ==> *final(self) == *old(self),
            r is Ok ==> old(self).moved_to(coord, *final(self)),
    {
        proof {
            use_type_invariant(&*self);
        }
        match self.check_move(coord) {
            Ok(()) => {},
            Err(e) => {
                return Err(e);
            },
        }
        let turn_side = match self.state {
            Some(s) => s,
            None => {
                return Err(ReversiError::EndedGame(*self));
            },
        };
        let mut board = self.board;
        let ghost b0 = self.board;
        let ghost r0 = coord.0 as int;
        let ghost c0 = coord.1 as int;
        let ghost opp = turn_side.opposite();
        let mut eating: u8 = 0;
        let mut i: usize = 0;
        while i < 8
            invariant
                i <= 8,
                coord.in_bounds(),
                r0 == coord.0,
                c0 == coord.1,
                opp == turn_side.opposite(),
                b0 == self.board,
                self.wf(),
                self.state == Some(turn_side),
                b0.cell(r0, c0) is None,
                forall|x: int, y: int|
                    in_board(x, y) ==> #[trigger] board.cell(x, y) == if flipped_upto(
                        b0,
                        r0,
                        c0,
                        turn_side,
                        i as int,
                        x,
                        y,
                    ) {
                        Some(Disk(turn_side))
                    } else {
                        b0.cell(x, y)
                    },
                count_board(board, Some(turn_side)) == count_board(b0, Some(turn_side)) + eating,
                count_board(board, Some(opp)) == count_board(b0, Some(opp)) - eating,
                count_board(board, None) == count_board(b0, None),
            decreases 8 - i,
        {
            let dir = Direction::nth(i);
            let ghost before = board;
            proof {
                assert forall|j: int| 1 <= j <= 8 implies ray_side(before, r0, c0, dir, j) == ray_side(
                    b0,
                    r0,
                    c0,
                    dir,
                    j,
                ) by {
                    lemma_ray_untouched(b0, r0, c0, turn_side, i as int, i as int, j);
                }
                lemma_run_end_agree(before, b0, r0, c0, dir, opp, 1);
                assert(outflanks(before, r0, c0, dir, turn_side) == outflanks(b0, r0, c0, dir, turn_side));
            }
            if Turn::check_move_along_direction(&board, coord, dir, turn_side) {
                let eaten = Turn::eat_along_direction(&mut board, coord, dir, turn_side);
                proof {
                    lemma_count_total(b0);
                }
                eating = eating + eaten;
            }
            proof {
                assert forall|x: int, y: int| in_board(x, y) implies #[trigger] board.cell(x, y)
                    == if flipped_upto(b0, r0, c0, turn_side, i + 1, x, y) {
                    Some(Disk(turn_side))
                } else {
                    b0.cell(x, y)
                } by {
                    assert(on_run(before, r0, c0, dir, turn_side, x, y) == on_run(
                        b0,
                        r0,
                        c0,
                        dir,
                        turn_side,
                        x,
                        y,
                    ));
                }
            }
            i += 1;
        }
        proof {
            lemma_not_flipped_at_origin(b0, r0, c0, turn_side, 8);
        }
        let ghost before = board;
        let _ = board.place_disk(turn_side, coord);
        proof {
            assert(differ_only_at(before, board, r0, c0));
            lemma_count_change(before, board, Some(turn_side), r0, c0);
            lemma_count_change(before, board, Some(opp), r0, c0);
            lemma_count_change(before, board, None, r0, c0);
            lemma_count_total(board);
            lemma_count_total(b0);
        }
        let mut score_dark = self.score_dark;
        let mut score_light = self.score_light;
        match turn_side {
            Side::Dark => {
                score_light = score_light - eating;
                score_dark = score_dark + eating + 1;
            },
            Side::Light => {
                score_light = score_light + eating + 1;
                score_dark = score_dark - eating;
            },
        }
        let mut state = None;
        if score_light + score_dark != NUM_CELLS as u8 {
            // The turn passes to the opponent if it can move, else back to the mover
            // if it can, else the game is over.
            if Turn::has_legal_move(&board, turn_side.opposite()) {
                state = Some(turn_side.opposite());
            } else if Turn::has_legal_move(&board, turn_side) {
                state = Some(turn_side);
            }
        }
        *self = Turn { board, state, score_dark, score_light };
        Ok(())
    }

    /// Whether `side` has a legal move anywhere on the board.
    pub fn can_move(&self, side: Side) -> (r: bool)
        ensures
            r == has_move(self.spec_board(), side),
    {
        Turn::has_legal_move(&self.board, side)
    }

    /// Whether `side` has a legal move anywhere on `board`.
    fn has_legal_move(board: &Board, side: Side) -> (r: bool)
        ensures
            r == has_move(*board, side),
    {
        let mut row: usize = 0;
        while row < BOARD_SIZE
            invariant
                row <= BOARD_SIZE,
                forall|i: int, j: int| 0 <= i < row ==> !#[trigger] legal_at(*board, i, j, side),
            decreases BOARD_SIZE - row,
        {
            let mut col: usize = 0;
            while col < BOARD_SIZE
                invariant
                    row < BOARD_SIZE,
                    col <= BOARD_SIZE,
                    forall|i: int, j: int| 0 <= i < row ==> !#[trigger] legal_at(*board, i, j, side),
                    forall|j: int| 0 <= j < col ==> !#[trigger] legal_at(*board, row as int, j, side),
                decreases BOARD_SIZE - col,
            {
                let coord = Coord::new(row, col);
                if board.0[row][col].is_none() && Turn::check_move_along_directions(board, coord, side) {
                    assert(legal_at(*board, row as int, col as int, side));
                    return true;
                }
                col += 1;
            }
            row += 1;
        }
        false
    }
}

} // verus!
