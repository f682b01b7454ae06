//! A complete match: two players, the current turn, and a history that allows undoing.

use vstd::prelude::*;

verus! {

use core::marker::PhantomData;
use crate::board::{Board, Coord};
use crate::turn::{State, Turn};
use crate::{ReversiError, Result, Side};

/// What a player decides on its turn.
pub enum PlayerAction<A> {
    Move(Coord),
    Undo,
    Other(A),
}

/// A player: it looks at the current turn and decides an action.
pub trait IsPlayer<A> {
    fn make_move(&self, turn: &Turn) -> Result<PlayerAction<A>>;
}

/// Index of the latest entry among the first `n` of `h` whose turn has `side` to play,
/// or -1 when there is none.
pub open spec fn last_turn_of(h: Seq<(Turn, Coord)>, side: Side, n: int) -> int
    decreases n,
{
    if n <= 0 {
        -1
    } else if h[n - 1].0.spec_state() == Some(side) {
        n - 1
    } else {
        last_turn_of(h, side, n - 1)
    }
}

/// Index of the history entry that an undo goes back to from `current`, or -1 when
/// there is none. A running game goes back to the latest turn of the side to play; an
/// ended game goes back to the latest turn of the side that did not make the last move.
pub open spec fn undo_target(h: Seq<(Turn, Coord)>, current: Turn) -> int {
    match current.spec_state() {
        Some(side) => last_turn_of(h, side, h.len() as int),
        None => if h.len() == 0 {
            -1
        } else {
            match h.last().0.spec_state() {
                Some(last_side) => last_turn_of(h, last_side.opposite(), h.len() - 1),
                None => -1,
            }
        },
    }
}


/// Undo right after a move that leaves the mover to play again (the opponent had to
/// pass) brings back exactly the turn the move was played from, and the history as it
/// was before the move.
pub proof fn lemma_undo_after_forced_pass<'a, A, D: 'a + ?Sized + IsPlayer<A>, L: 'a + ?Sized + IsPlayer<A>>(
    g0: Game<'a, A, D, L>,
    coord: Coord,
    r1: Result<PlayerAction<A>>,
    g1: Game<'a, A, D, L>,
    r2: Result<PlayerAction<A>>,
    g2: Game<'a, A, D, L>,
)
    requires
        g0.applied(PlayerAction::Move(coord), r1, g1),
        r1 is Ok,
        g1.spec_current().spec_state() == g0.spec_current().spec_state(),
        g1.applied(PlayerAction::Undo, r2, g2),
    ensures
        r2 is Ok,
        g2.spec_current() == g0.spec_current(),
        g2.spec_history() == g0.spec_history(),
{
    let h = g1.spec_history();
    assert(h[h.len() - 1] == (g0.spec_current(), coord));
    assert(undo_target(h, g1.spec_current()) == h.len() - 1);
    assert(h.subrange(0, h.len() - 1) =~= g0.spec_history());
}

/// Undo right after the opponent's reply, when that reply gives the turn back, brings
/// back exactly the turn of one's own last move: the opponent's turn in between is
/// skipped, and the history is as it was before one's own move.
pub proof fn lemma_undo_after_reply<'a, A, D: 'a + ?Sized + IsPlayer<A>, L: 'a + ?Sized + IsPlayer<A>>(
    g0: Game<'a, A, D, L>,
    own: Coord,
    r1: Result<PlayerAction<A>>,
    g1: Game<'a, A, D, L>,
    reply: Coord,
    r2: Result<PlayerAction<A>>,
    g2: Game<'a, A, D, L>,
    r3: Result<PlayerAction<A>>,
    g3: Game<'a, A, D, L>,
)
    requires
        g0.applied(PlayerAction::Move(own), r1, g1),
        r1 is Ok,
        g1.spec_current().spec_state() != g0.spec_current().spec_state(),
        g1.applied(PlayerAction::Move(reply), r2, g2),
        r2 is Ok,
        g2.spec_current().spec_state() == g0.spec_current().spec_state(),
        g2.applied(PlayerAction::Undo, r3, g3),
    ensures
        r3 is Ok,
        g3.spec_current() == g0.spec_current(),
        g3.spec_history() == g0.spec_history(),
{
    let h = g2.spec_history();
    let n = h.len() as int;
    assert(h[n - 1] == (g1.spec_current(), reply));
    assert(h[n - 2] == (g0.spec_current(), own));
    let side = g0.spec_current().spec_state()->0;
    assert(last_turn_of(h, side, n - 1) == n - 2);
    assert(last_turn_of(h, side, n) == n - 2);
    assert(undo_target(h, g2.spec_current()) == n - 2);
    assert(h.subrange(0, n - 2) =~= g0.spec_history());
}

/// Entries from `lo` to `n` without a turn of `side` do not change where the search ends.
proof fn lemma_last_turn_skips(h: Seq<(Turn, Coord)>, side: Side, lo: int, n: int)
    requires
        0 <= lo <= n <= h.len(),
        forall|j: int| lo <= j < n ==> (#[trigger] h[j]).0.spec_state() != Some(side),
    ensures
        last_turn_of(h, side, n) == last_turn_of(h, side, lo),
    decreases n - lo,
{
    if n > lo {
        lemma_last_turn_skips(h, side, lo, n - 1);
    }
}

/// In a running game, Undo brings back exactly the latest turn at which the side now to
/// play was to play, skipping every later turn (the opponent's, and any the rules passed
/// over), and the history as it was before that turn's move.
pub proof fn lemma_undo_back_to_own_turn<'a, A, D: 'a + ?Sized + IsPlayer<A>, L: 'a + ?Sized + IsPlayer<A>>(
    g: Game<'a, A, D, L>,
    h: Seq<(Turn, Coord)>,
    t: Turn,
    coord: Coord,
    rest: Seq<(Turn, Coord)>,
    r: Result<PlayerAction<A>>,
    next: Game<'a, A, D, L>,
)
    requires
        g.spec_current().spec_state() is Some,
        g.spec_history() == h.push((t, coord)) + rest,
        t.spec_state() == g.spec_current().spec_state(),
        forall|j: int| 0 <= j < rest.len() ==> (#[trigger] rest[j]).0.spec_state() != g.spec_current().spec_state(),
        g.applied(PlayerAction::Undo, r, next),
    ensures
        r is Ok,
        next.spec_current() == t,
        next.spec_history() == h,
{
    let side = g.spec_current().spec_state()->0;
    let all = g.spec_history();
    let lo = h.len() + 1int;
    assert forall|j: int| lo <= j < all.len() implies (#[trigger] all[j]).0.spec_state() != Some(side) by {
        assert(all[j] == rest[j - lo]);
    }
    lemma_last_turn_skips(all, side, lo, all.len() as int);
    assert(all[h.len() as int] == (t, coord));
    assert(last_turn_of(all, side, lo) == h.len());
    assert(all.subrange(0, h.len() as int) =~= h);
}

/// A match between a dark and a light player.
pub struct Game<'a, A, D: 'a + ?Sized + IsPlayer<A>, L: 'a + ?Sized + IsPlayer<A>> {
    current_turn: Turn,
    turns_history: Vec<(Turn, Coord)>,
    dark: &'a D,
    light: &'a L,
    phantom: PhantomData<A>,
}

impl<'a, A, D: 'a + ?Sized + IsPlayer<A>, L: 'a + ?Sized + IsPlayer<A>> Game<'a, A, D, L> {
    /// The current turn.
    pub closed spec fn spec_current(self) -> Turn {
        self.current_turn
    }

    /// The turns that moves were made from, oldest first, each with its move.
    pub closed spec fn spec_history(self) -> Seq<(Turn, Coord)> {
        self.turns_history@
    }

    /// `next` and `r` are what applying `action` to `self` gives.
    pub open spec fn applied(self, action: PlayerAction<A>, r: Result<PlayerAction<A>>, next: Self) -> bool {
        let h = self.spec_history();
        let t = self.spec_current();
        match action {
            PlayerAction::Move(coord) => match t.check_outcome(coord) {
                Ok(_) => {
                    &&& r == Ok::<PlayerAction<A>, ReversiError>(action)
                    &&& next.spec_history() == h.push((t, coord))
                    &&& t.moved_to(coord, next.spec_current())
                },
                Err(e) => r == Err::<PlayerAction<A>, ReversiError>(e) && next == self,
            },
            PlayerAction::Undo => {
                let i = undo_target(h, t);
                if i >= 0 {
                    &&& r == Ok::<PlayerAction<A>, ReversiError>(action)
                    &&& next.spec_current() == h[i].0
                    &&& next.spec_history() == h.subrange(0, i)
                } else {
                    r == Err::<PlayerAction<A>, ReversiError>(ReversiError::NoUndo) && next == self
                }
            },
            PlayerAction::Other(_) => r == Ok::<PlayerAction<A>, ReversiError>(action) && next == self,
        }
    }

    /// Creates a new game at the opening position with an empty history.
    pub fn new(dark: &'a D, light: &'a L) -> (r: Game<'a, A, D, L>)
        ensures
            r.spec_current().is_opening(),
            r.spec_history().len() == 0,
    {
        Game {
            current_turn: Turn::first_turn(),
            turns_history: Vec::new(),
            dark: dark,
            light: light,
            phantom: PhantomData,
        }
    }


    /// Asks the player whose turn it is for an action and applies it. Fails with
    /// `EndedGame` when the game is over; a failure of the player, or of the action,
    /// leaves the game as it was.
    pub fn play_turn(&mut self) -> (r: Result<PlayerAction<A>>)
        ensures
            old(self).spec_current().spec_state() is None ==> r == Err::<PlayerAction<A>, ReversiError>(
                ReversiError::EndedGame(old(self).spec_current()),
            ),
            r is Err ==> *final(self) == *old(self),
            r is Ok ==> old(self).applied(r->Ok_0, r, *final(self)),
    {
        let action = match self.current_turn.get_state() {
            None => {
                return Err(ReversiError::EndedGame(self.current_turn));
            },
            Some(Side::Dark) => self.dark.make_move(&self.current_turn),
            Some(Side::Light) => self.light.make_move(&self.current_turn),
        };
        match action {
            Ok(action) => self.apply_action(action),
            Err(e) => Err(e),
        }
    }

    /// Applies a player's action: a move is played and recorded in the history, an
    /// undo goes back in the history, any other action changes nothing. Returns the
    /// action, or the error of a move or undo that could not be made, in which case
    /// the game is left as it was.
    pub fn apply_action(&mut self, action: PlayerAction<A>) -> (r: Result<PlayerAction<A>>)
        ensures
            old(self).applied(action, r, *final(self)),
            r is Err ==> *final(self) == *old(self),
    {
        match action {
            PlayerAction::Move(coord) => match self.make_move(coord) {
                Ok(()) => Ok(action),
                Err(e) => Err(e),
            },
            PlayerAction::Undo => match self.undo() {
                Ok(()) => Ok(action),
                Err(e) => Err(e),
            },
            PlayerAction::Other(_) => Ok(action),
        }
    }

    /// Plays `coord` on the current turn and records the turn it was played from.
    /// On failure nothing is recorded and the game is left as it was.
    fn make_move(&mut self, coord: Coord) -> (r: Result<()>)
        ensures
            r == old(self).spec_current().check_outcome(coord),
            r is Err ==> *final(self) == *old(self),
            r is Ok ==> final(self).spec_history() == old(self).spec_history().push(
                (old(self).spec_current(), coord),
            ),
            r is Ok ==> old(self).spec_current().moved_to(coord, final(self).spec_current()),
    {
        let previous = self.current_turn;
        match self.current_turn.make_move(coord) {
            Ok(()) => {
                self.turns_history.push((previous, coord));
                proof {
                    assert(self.spec_history()[self.spec_history().len() - 1] == (previous, coord));
                }
                Ok(())
            },
            Err(e) => Err(e),
        }
    }

    /// Goes back in the history until the side that asks can play again (see
    /// `undo_target`). Fails with `NoUndo`, leaving the game as it was, when no such
    /// turn is recorded.
    fn undo(&mut self) -> (r: Result<()>)
        ensures
            undo_target(old(self).spec_history(), old(self).spec_current()) >= 0 ==> {
                let i = undo_target(old(self).spec_history(), old(self).spec_current());
                &&& r is Ok
                &&& final(self).spec_current() == old(self).spec_history()[i].0
                &&& final(self).spec_history() == old(self).spec_history().subrange(0, i)
            },
            undo_target(old(self).spec_history(), old(self).spec_current()) < 0 ==> r == Err::<(), ReversiError>(
                ReversiError::NoUndo,
            ) && *final(self) == *old(self),
    {
        let ghost h = self.turns_history@;
        let n = self.turns_history.len();
        let target_side: Side;
        let end: usize;
        match self.current_turn.get_state() {
            Some(current_side) => {
                target_side = current_side;
                end = n;
            },
            None => {
                if n == 0 {
                    return Err(ReversiError::NoUndo);
                }
                match self.turns_history[n - 1].0.get_state() {
                    Some(last_side) => {
                        target_side = last_side.opposite();
                        end = n - 1;
                    },
                    None => {
                        return Err(ReversiError::NoUndo);
                    },
                }
            },
        }
        let mut j = end;
        while j > 0
            invariant
                j <= end <= n,
                n == h.len(),
                h == self.turns_history@,
                *self == *old(self),
                undo_target(h, self.current_turn) == last_turn_of(h, target_side, end as int),
                last_turn_of(h, target_side, end as int) == last_turn_of(h, target_side, j as int),
            decreases j,
        {
            let previous_turn = self.turns_history[j - 1].0;
            let found = match previous_turn.get_state() {
                Some(side) => side == target_side,
                None => false,
            };
            if found {
                self.current_turn = previous_turn;
                self.turns_history.truncate(j - 1);
                return Ok(());
            }
            j -= 1;
        }
        Err(ReversiError::NoUndo)
    }

    /// Gets the current turn.
    pub fn get_current_turn(&self) -> (r: &Turn)
        ensures
            *r == self.spec_current(),
    {
        &self.current_turn
    }

    /// Gets the board of the current turn.
    pub fn get_current_board(&self) -> (r: &Board)
        ensures
            *r == self.spec_current().spec_board(),
    {
        self.current_turn.get_board()
    }

    /// Gets the state of the current turn.
    pub fn get_current_state(&self) -> (r: State)
        ensures
            r == self.spec_current().spec_state(),
    {
        self.current_turn.get_state()
    }

    /// Whether the game is over.
    pub fn is_ended(&self) -> (r: bool)
        ensures
            r == (self.spec_current().spec_state() is None),
    {
        self.get_current_state().is_none()
    }

    /// Gets the scores of the current turn, Dark's first.
    pub fn get_current_score(&self) -> (r: (u8, u8))
        ensures
            r.0 == self.spec_current().spec_score_dark(),
            r.1 == self.spec_current().spec_score_light(),
    {
        self.current_turn.get_score()
    }

    /// Gets Light's score minus Dark's in the current turn.
    pub fn get_current_score_diff(&self) -> (r: i16)
        ensures
            r == self.spec_current().spec_score_light() - self.spec_current().spec_score_dark(),
    {
        self.current_turn.get_score_diff()
    }
}

} // verus!
