//! Simple players, to exercise the engine: one plays the legal move at a drawn index, one looks ahead.

use vstd::prelude::*;

verus! {

use crate::board::{Coord, BOARD_SIZE, NUM_CELLS};
use crate::game::PlayerAction;
use crate::turn::{has_move, legal_at, lemma_count_total, lemma_game_length, lemma_moved_to_unique, Turn};
use crate::{ReversiError, Result, Side};
use vstd::arithmetic::div_mod::lemma_fundamental_div_mod_converse;

/// The legal moves among the first `n` cells of row `r`, from left to right.
pub open spec fn legal_in_row(t: Turn, r: int, n: int) -> Seq<Coord>
    decreases n,
{
    if n <= 0 {
        seq![]
    } else {
        let c = Coord(r as usize, (n - 1) as usize);
        legal_in_row(t, r, n - 1) + if t.check_outcome(c) is Ok {
            seq![c]
        } else {
            seq![]
        }
    }
}

/// The legal moves among the first `m` rows, in row-major order.
pub open spec fn legal_in_rows(t: Turn, m: int) -> Seq<Coord>
    decreases m,
{
    if m <= 0 {
        seq![]
    } else {
        legal_in_rows(t, m - 1) + legal_in_row(t, m - 1, BOARD_SIZE as int)
    }
}

/// A player that plays one of its legal moves, picked by an index drawn elsewhere.
pub struct FoolPlayer;

impl FoolPlayer {
    /// The legal moves of `turn`, in row-major order.
    pub fn legal_moves(turn: &Turn) -> (r: Vec<Coord>)
        ensures
            r@ == legal_in_rows(*turn, BOARD_SIZE as int),
    {
        let mut moves: Vec<Coord> = Vec::new();
        let mut row: usize = 0;
        while row < BOARD_SIZE
            invariant
                row <= BOARD_SIZE,
                moves@ == legal_in_rows(*turn, row as int),
            decreases BOARD_SIZE - row,
        {
            let ghost done = moves@;
            let mut col: usize = 0;
            while col < BOARD_SIZE
                invariant
                    row < BOARD_SIZE,
                    col <= BOARD_SIZE,
                    done == legal_in_rows(*turn, row as int),
                    moves@ == done + legal_in_row(*turn, row as int, col as int),
                decreases BOARD_SIZE - col,
            {
                let coord = Coord::new(row, col);
                if turn.check_move(coord).is_ok() {
                    moves.push(coord);
                }
                proof {
                    assert(moves@ =~= done + legal_in_row(*turn, row as int, col + 1));
                }
                col += 1;
            }
            row += 1;
        }
        moves
    }

    /// The action for the drawn `index`: the legal move at `index` (taken modulo their
    /// number) in row-major order, or `EndedGame` when there is no legal move.
    pub fn pick(turn: &Turn, index: usize) -> (r: Result<PlayerAction<()>>)
        ensures
            legal_in_rows(*turn, BOARD_SIZE as int).len() == 0 ==> r == Err::<PlayerAction<()>, ReversiError>(
                ReversiError::EndedGame(*turn),
            ),
            legal_in_rows(*turn, BOARD_SIZE as int).len() > 0 ==> r == Ok::<PlayerAction<()>, ReversiError>(
                PlayerAction::Move(
                    legal_in_rows(*turn, BOARD_SIZE as int)[index as int % legal_in_rows(
                        *turn,
                        BOARD_SIZE as int,
                    ).len() as int],
                ),
            ),
    {
        let moves = FoolPlayer::legal_moves(turn);
        if moves.len() == 0 {
            Err(ReversiError::EndedGame(*turn))
        } else {
            Ok(PlayerAction::Move(moves[index % moves.len()]))
        }
    }
}


/// Every move listed among the first `n` cells of row `r` is legal.
proof fn lemma_legal_in_row(t: Turn, r: int, n: int)
    ensures
        forall|i: int|
            0 <= i < legal_in_row(t, r, n).len() ==> t.check_outcome(#[trigger] legal_in_row(t, r, n)[i]) is Ok,
    decreases n,
{
    if n > 0 {
        lemma_legal_in_row(t, r, n - 1);
    }
}

/// Every move listed among the first `m` rows is legal.
proof fn lemma_legal_in_rows(t: Turn, m: int)
    ensures
        forall|i: int|
            0 <= i < legal_in_rows(t, m).len() ==> t.check_outcome(#[trigger] legal_in_rows(t, m)[i]) is Ok,
    decreases m,
{
    if m > 0 {
        lemma_legal_in_rows(t, m - 1);
        lemma_legal_in_row(t, m - 1, BOARD_SIZE as int);
        let a = legal_in_rows(t, m - 1);
        let b = legal_in_row(t, m - 1, BOARD_SIZE as int);
        assert forall|i: int| 0 <= i < (a + b).len() implies t.check_outcome(#[trigger] (a + b)[i]) is Ok by {
            if i >= a.len() {
                assert((a + b)[i] == b[i - a.len()]);
            }
        }
    }
}

/// A legal move among the first `n` cells of row `r` makes that part of the list non-empty.
proof fn lemma_listed_in_row(t: Turn, r: int, n: int, c: int)
    requires
        0 <= c < n,
        t.check_outcome(Coord(r as usize, c as usize)) is Ok,
    ensures
        legal_in_row(t, r, n).len() > 0,
    decreases n,
{
    if c < n - 1 {
        lemma_listed_in_row(t, r, n - 1, c);
    }
}

/// A legal move among the first `m` rows makes that part of the list non-empty.
proof fn lemma_listed_in_rows(t: Turn, m: int, r: int, c: int)
    requires
        0 <= r < m,
        0 <= c < BOARD_SIZE,
        t.check_outcome(Coord(r as usize, c as usize)) is Ok,
    ensures
        legal_in_rows(t, m).len() > 0,
    decreases m,
{
    if r < m - 1 {
        lemma_listed_in_rows(t, m - 1, r, c);
    } else {
        lemma_listed_in_row(t, r, BOARD_SIZE as int, c);
    }
}

/// Self-play in which both sides always play their first legal move in row-major order
/// lasts at most 60 moves, and can stop only once the game has ended: as long as a side
/// is to play, there is a first legal move to play.
pub proof fn lemma_self_play_first_legal(turns: Seq<Turn>, coords: Seq<Coord>)
    requires
        turns.len() >= 1,
        coords.len() + 1 == turns.len(),
        turns[0].wf(),
        turns[0].is_opening(),
        forall|i: int|
            0 <= i < turns.len() - 1 ==> coords[i] == legal_in_rows(turns[i], BOARD_SIZE as int)[0]
                && #[trigger] turns[i].moved_to(coords[i], turns[i + 1]),
    ensures
        turns.len() - 1 <= NUM_CELLS - 4,
        turns.last().spec_state() is Some ==> legal_in_rows(turns.last(), BOARD_SIZE as int).len() > 0,
{
    lemma_game_length(turns, coords);
    let last = turns.last();
    let b = last.spec_board();
    if last.spec_state() is Some {
        let side = last.spec_state()->0;
        if turns.len() > 1 {
            let i = turns.len() - 2;
            assert(turns[i].moved_to(coords[i], turns[i + 1]));
        }
        assert(has_move(b, side));
        let (r, c) = choose|r: int, c: int| legal_at(b, r, c, side);
        assert(last.check_outcome(Coord(r as usize, c as usize)) is Ok);
        lemma_listed_in_rows(last, BOARD_SIZE as int, r, c);
    }
}

/// The cell at position `idx` of the row-major order.
pub open spec fn coord_at(idx: int) -> Coord {
    Coord((idx / BOARD_SIZE as int) as usize, (idx % BOARD_SIZE as int) as usize)
}

/// `new` is a better score than `old` for `side`: Dark wants it low, Light high.
pub open spec fn better_for(side: Side, new: int, old: int) -> bool {
    match side {
        Side::Dark => new < old,
        Side::Light => new > old,
    }
}

/// The score a search for `side` starts from: the worst one for it.
pub open spec fn worst_for(side: Side) -> int {
    match side {
        Side::Dark => i16::MAX as int,
        Side::Light => i16::MIN as int,
    }
}

/// The value of `t` looked at `depth` moves ahead: Light's lead, counted once per
/// cell of the board when the game is over; otherwise, with moves left to look at,
/// the best value for the side to play over its legal moves.
pub open spec fn eval_value(t: Turn, depth: nat) -> int
    decreases depth, 65nat,
{
    let diff = t.spec_score_light() - t.spec_score_dark();
    match t.spec_state() {
        None => diff * NUM_CELLS as int,
        Some(side) => if depth == 0 {
            diff
        } else {
            best_value(t, side, depth, 64)
        },
    }
}

/// The best value for `side`, looked at `depth` moves ahead, over its legal moves among
/// the first `n` cells in row-major order; the first of equal values counts.
pub open spec fn best_value(t: Turn, side: Side, depth: nat, n: nat) -> int
    decreases depth, n,
{
    if n == 0 || depth == 0 {
        worst_for(side)
    } else {
        let prev = best_value(t, side, depth, (n - 1) as nat);
        let c = coord_at(n - 1);
        if t.check_outcome(c) is Ok {
            let v = eval_value(t.successor(c), (depth - 1) as nat);
            if better_for(side, v, prev) {
                v
            } else {
                prev
            }
        } else {
            prev
        }
    }
}

/// The move that a search for `side` keeps among scored moves, with its score: the
/// first one with the best score, `(0, 0)` when there is none.
pub open spec fn best_pick(side: Side, s: Seq<(Coord, i16)>) -> (Coord, int)
    decreases s.len(),
{
    if s.len() == 0 {
        (Coord(0, 0), worst_for(side))
    } else {
        let prev = best_pick(side, s.drop_last());
        if better_for(side, s.last().1 as int, prev.1) {
            (s.last().0, s.last().1 as int)
        } else {
            prev
        }
    }
}

/// A player that looks a few moves ahead.
pub struct SimplePlayer;

impl SimplePlayer {
    fn is_better_dark(new_score: i16, old_score: i16) -> (r: bool)
        ensures
            r == better_for(Side::Dark, new_score as int, old_score as int),
    {
        new_score < old_score
    }

    fn is_better_light(new_score: i16, old_score: i16) -> (r: bool)
        ensures
            r == better_for(Side::Light, new_score as int, old_score as int),
    {
        new_score > old_score
    }

    /// The value of `turn` looked at `depth` moves ahead (see `eval_value`).
    pub fn eval(&self, turn: &Turn, depth: u8) -> (r: i16)
        ensures
            r == eval_value(*turn, depth as nat),
        decreases depth,
    {
        proof {
            use_type_invariant(turn);
            lemma_count_total(turn.spec_board());
        }
        match turn.get_state() {
            None => turn.get_score_diff() * NUM_CELLS as i16,
            Some(side) => {
                if depth == 0 {
                    turn.get_score_diff()
                } else {
                    let mut best_score: i16 = match side {
                        Side::Dark => i16::MAX,
                        Side::Light => i16::MIN,
                    };
                    let mut new_turn = *turn;
                    let mut row: usize = 0;
                    while row < BOARD_SIZE
                        invariant
                            row <= BOARD_SIZE,
                            depth > 0,
                            new_turn == *turn,
                            turn.spec_state() == Some(side),
                            best_score == best_value(*turn, side, depth as nat, (row * BOARD_SIZE) as nat),
                        decreases BOARD_SIZE - row,
                    {
                        let mut col: usize = 0;
                        while col < BOARD_SIZE
                            invariant
                                row < BOARD_SIZE,
                                col <= BOARD_SIZE,
                                depth > 0,
                                new_turn == *turn,
                                turn.spec_state() == Some(side),
                                best_score == best_value(
                                    *turn,
                                    side,
                                    depth as nat,
                                    (row * BOARD_SIZE + col) as nat,
                                ),
                            decreases BOARD_SIZE - col,
                        {
                            let coord = Coord::new(row, col);
                            let ghost idx = row * BOARD_SIZE + col;
                            proof {
                                lemma_fundamental_div_mod_converse(
                                    idx as int,
                                    BOARD_SIZE as int,
                                    row as int,
                                    col as int,
                                );
                                assert(coord_at(idx as int) == coord);
                            }
                            if new_turn.make_move(coord).is_ok() {
                                proof {
                                    lemma_moved_to_unique(*turn, coord, new_turn, turn.successor(coord));
                                }
                                let new_score = self.eval(&new_turn, depth - 1);
                                new_turn = *turn;
                                let better = match side {
                                    Side::Dark => SimplePlayer::is_better_dark(new_score, best_score),
                                    Side::Light => SimplePlayer::is_better_light(new_score, best_score),
                                };
                                if better {
                                    best_score = new_score;
                                }
                            }
                            col += 1;
                        }
                        row += 1;
                    }
                    best_score
                }
            },
        }
    }

    /// Each legal move of `turn`, in row-major order, with the value of the turn it
    /// leads to, looked at three moves ahead.
    pub fn scored_moves(&self, turn: &Turn) -> (r: Vec<(Coord, i16)>)
        ensures
            r@.len() == legal_in_rows(*turn, BOARD_SIZE as int).len(),
            forall|i: int|
                0 <= i < r@.len() ==> (#[trigger] r@[i]).0 == legal_in_rows(*turn, BOARD_SIZE as int)[i]
                    && r@[i].1 == eval_value(turn.successor(r@[i].0), 3),
    {
        let moves = FoolPlayer::legal_moves(turn);
        proof {
            lemma_legal_in_rows(*turn, BOARD_SIZE as int);
        }
        let mut scored: Vec<(Coord, i16)> = Vec::new();
        let mut i: usize = 0;
        while i < moves.len()
            invariant
                i <= moves@.len(),
                moves@ == legal_in_rows(*turn, BOARD_SIZE as int),
                forall|j: int| 0 <= j < moves@.len() ==> turn.check_outcome(#[trigger] moves@[j]) is Ok,
                scored@.len() == i,
                forall|j: int|
                    0 <= j < i ==> (#[trigger] scored@[j]).0 == moves@[j] && scored@[j].1 == eval_value(
                        turn.successor(scored@[j].0),
                        3,
                    ),
            decreases moves.len() - i,
        {
            let coord = moves[i];
            let mut next = *turn;
            let _ = next.make_move(coord);
            proof {
                lemma_moved_to_unique(*turn, coord, next, turn.successor(coord));
            }
            let score = self.eval(&next, 3);
            scored.push((coord, score));
            i += 1;
        }
        scored
    }

    /// The first move with the best score for `side` among `scored`; `(0, 0)` when
    /// `scored` is empty.
    pub fn pick_best(side: Side, scored: &Vec<(Coord, i16)>) -> (r: Coord)
        ensures
            r == best_pick(side, scored@).0,
    {
        let mut best_move = Coord::new(0, 0);
        let mut best_score: i16 = match side {
            Side::Dark => i16::MAX,
            Side::Light => i16::MIN,
        };
        let mut i: usize = 0;
        while i < scored.len()
            invariant
                i <= scored@.len(),
                (best_move, best_score as int) == best_pick(side, scored@.subrange(0, i as int)),
            decreases scored.len() - i,
        {
            let (coord, score) = scored[i];
            proof {
                assert(scored@.subrange(0, i + 1).drop_last() =~= scored@.subrange(0, i as int));
            }
            let better = match side {
                Side::Dark => SimplePlayer::is_better_dark(score, best_score),
                Side::Light => SimplePlayer::is_better_light(score, best_score),
            };
            if better {
                best_move = coord;
                best_score = score;
            }
            i += 1;
        }
        proof {
            assert(scored@.subrange(0, scored@.len() as int) =~= scored@);
        }
        best_move
    }
}

} // verus!
