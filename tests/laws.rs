use reversi::board::{Board, Coord, Direction, Disk, BOARD_SIZE, NUM_CELLS};
use reversi::game::{Game, IsPlayer, PlayerAction};
use reversi::turn::Turn;
use reversi::{ReversiError, Side};

/// Plays the lexicographically first legal coordinate.
struct FirstLegal;

impl IsPlayer<u32> for FirstLegal {
    fn make_move(&self, turn: &Turn) -> reversi::Result<PlayerAction<u32>> {
        for row in 0..BOARD_SIZE {
            for col in 0..BOARD_SIZE {
                let coord = Coord::new(row, col);
                if turn.check_move(coord).is_ok() {
                    return Ok(PlayerAction::Move(coord));
                }
            }
        }
        Err(ReversiError::EndedGame(*turn))
    }
}

fn occupied(board: &Board) -> usize {
    board.get_board().iter().flatten().filter(|c| c.is_some()).count()
}

fn count(board: &Board, side: Side) -> usize {
    board
        .get_board()
        .iter()
        .flatten()
        .filter(|c| matches!(c, Some(d) if d.get_side() == side))
        .count()
}

fn legal_moves(turn: &Turn) -> Vec<(usize, usize)> {
    let mut moves = Vec::new();
    for row in 0..BOARD_SIZE {
        for col in 0..BOARD_SIZE {
            if turn.check_move(Coord::new(row, col)).is_ok() {
                moves.push((row, col));
            }
        }
    }
    moves
}

fn same_turn(a: &Turn, b: &Turn) -> bool {
    a.get_board() == b.get_board() && a.get_state() == b.get_state() && a.get_score() == b.get_score()
}

#[test]
fn opening_position() {
    let t = Turn::first_turn();
    assert_eq!(t.get_state(), Some(Side::Dark));
    assert_eq!(t.get_score(), (2, 2));
    assert_eq!(t.get_score_diff(), 0);
    assert_eq!(t.get_tempo(), 4);
    assert!(!t.is_end_state());
    let b = t.get_board();
    assert_eq!(b.get_cell(Coord::new(3, 4)).unwrap(), &Some(Disk::new(Side::Dark)));
    assert_eq!(b.get_cell(Coord::new(4, 3)).unwrap(), &Some(Disk::new(Side::Dark)));
    assert_eq!(b.get_cell(Coord::new(3, 3)).unwrap(), &Some(Disk::new(Side::Light)));
    assert_eq!(b.get_cell(Coord::new(4, 4)).unwrap(), &Some(Disk::new(Side::Light)));
    assert_eq!(occupied(b), 4);
}

#[test]
fn opening_legal_moves_for_dark() {
    let t = Turn::first_turn();
    assert_eq!(legal_moves(&t), vec![(2, 3), (3, 2), (4, 5), (5, 4)]);
    assert!(t.can_move(Side::Dark));
    assert!(t.can_move(Side::Light));
}

#[test]
fn light_replies_after_dark_opens() {
    let mut t = Turn::first_turn();
    t.make_move(Coord::new(2, 3)).unwrap();
    assert_eq!(legal_moves(&t), vec![(2, 2), (2, 4), (4, 2)]);
}

#[test]
fn first_move_flips_and_scores() {
    let mut t = Turn::first_turn();
    t.make_move(Coord::new(2, 3)).unwrap();
    assert_eq!(t.get_state(), Some(Side::Light));
    assert_eq!(t.get_score(), (4, 1));
    assert_eq!(t.get_score_diff(), -3);
    assert_eq!(t.get_tempo(), 5);
    let b = t.get_board();
    assert_eq!(b.get_cell(Coord::new(2, 3)).unwrap(), &Some(Disk::new(Side::Dark)));
    assert_eq!(b.get_cell(Coord::new(3, 3)).unwrap(), &Some(Disk::new(Side::Dark)));
    assert_eq!(b.get_cell(Coord::new(4, 4)).unwrap(), &Some(Disk::new(Side::Light)));
}

#[test]
fn move_errors_leave_turn_unchanged() {
    let t = Turn::first_turn();
    let mut u = t;
    match u.make_move(Coord::new(3, 3)) {
        Err(ReversiError::CellAlreadyTaken(c)) => assert_eq!(c, Coord::new(3, 3)),
        other => panic!("unexpected {:?}", other),
    }
    assert!(same_turn(&t, &u));
    match u.make_move(Coord::new(0, 0)) {
        Err(ReversiError::IllegalMove(c)) => assert_eq!(c, Coord::new(0, 0)),
        other => panic!("unexpected {:?}", other),
    }
    assert!(same_turn(&t, &u));
    match u.make_move(Coord::new(8, 0)) {
        Err(ReversiError::OutOfBoundCoord(c)) => assert_eq!(c, Coord::new(8, 0)),
        other => panic!("unexpected {:?}", other),
    }
    assert!(same_turn(&t, &u));
    assert!(matches!(t.check_move(Coord::new(0, 8)), Err(ReversiError::OutOfBoundCoord(_))));
    assert!(matches!(t.check_move(Coord::new(4, 4)), Err(ReversiError::CellAlreadyTaken(_))));
    assert!(matches!(t.check_move(Coord::new(2, 2)), Err(ReversiError::IllegalMove(_))));
}

#[test]
fn board_errors() {
    let mut b = Board::new([[None; BOARD_SIZE]; BOARD_SIZE]);
    assert!(matches!(b.flip_disk(Coord::new(1, 1)), Err(ReversiError::EmptyCell(_))));
    assert!(matches!(b.flip_disk(Coord::new(9, 1)), Err(ReversiError::OutOfBoundCoord(_))));
    assert!(matches!(b.get_cell(Coord::new(1, 8)), Err(ReversiError::OutOfBoundCoord(_))));
    assert!(matches!(b.is_empty(Coord::new(8, 8)), Err(ReversiError::OutOfBoundCoord(_))));
    assert_eq!(b.is_empty(Coord::new(1, 1)).unwrap(), true);
    b.place_disk(Side::Light, Coord::new(1, 1)).unwrap();
    assert_eq!(b.is_empty(Coord::new(1, 1)).unwrap(), false);
    assert!(matches!(b.place_disk(Side::Dark, Coord::new(1, 1)), Err(ReversiError::CellAlreadyTaken(_))));
    assert_eq!(b.get_cell(Coord::new(1, 1)).unwrap(), &Some(Disk::new(Side::Light)));
}

#[test]
fn geometry() {
    let c = Coord::new(4, 5);
    assert_eq!(c.step(Direction::NE), Coord::new(3, 6));
    assert_eq!(c.step(Direction::SW), Coord::new(5, 4));
    assert_eq!(c.get_row_col(), (4, 5));
    assert_eq!(Coord::new(0, 0).step(Direction::North).get_row(), usize::MAX);
    assert_eq!(Coord::new(0, 0).step(Direction::West).get_col(), usize::MAX);
    assert_eq!(Direction::North.opposite(), Direction::South);
    assert_eq!(Direction::NE.opposite(), Direction::SW);
    assert_eq!(Direction::West.opposite(), Direction::East);
    assert_eq!(Direction::NW.opposite(), Direction::SE);
    for i in 0..8 {
        let d = Direction::nth(i);
        assert_eq!(d.opposite().opposite(), d);
    }
    assert_eq!(Direction::nth(0), Direction::North);
    assert_eq!(Direction::nth(7), Direction::NW);
    assert_eq!(Side::Dark.opposite(), Side::Light);
    assert_eq!(Side::Light.opposite().opposite(), Side::Light);
    let mut d = Disk::new(Side::Dark);
    d.flip();
    assert_eq!(d.get_side(), Side::Light);
    assert_eq!(NUM_CELLS, 64);
}

/// Self-play with the first legal coordinate: the game ends within 64 moves, and along
/// the way scores, states and flips obey the rules.
#[test]
fn self_play_first_legal() {
    let p = FirstLegal;
    let mut game: Game<u32, FirstLegal, FirstLegal> = Game::new(&p, &p);
    let mut moves = 0;
    while !game.is_ended() {
        let before = *game.get_current_turn();
        let action = game.play_turn().unwrap();
        let coord = match action {
            PlayerAction::Move(c) => c,
            _ => panic!("expected a move"),
        };
        moves += 1;
        assert!(moves <= 64);
        let after = game.get_current_turn();
        let (dark, light) = after.get_score();
        assert_eq!(dark as usize + light as usize, occupied(after.get_board()));
        assert_eq!(dark as usize, count(after.get_board(), Side::Dark));
        assert_eq!(light as usize, count(after.get_board(), Side::Light));
        assert_eq!(after.get_tempo() as usize, occupied(before.get_board()) + 1);
        match after.get_state() {
            Some(side) => assert!(after.can_move(side)),
            None => assert!(
                occupied(after.get_board()) == NUM_CELLS
                    || (!after.can_move(Side::Dark) && !after.can_move(Side::Light))
            ),
        }
        for row in 0..BOARD_SIZE {
            for col in 0..BOARD_SIZE {
                let c = Coord::new(row, col);
                let old = *before.get_cell(c).unwrap();
                let new = *after.get_cell(c).unwrap();
                if c == coord {
                    assert!(old.is_none());
                    assert_eq!(new, Some(Disk::new(before.get_state().unwrap())));
                } else {
                    assert_eq!(old.is_some(), new.is_some());
                }
            }
        }
    }
    assert!(game.is_ended());
    assert_eq!(game.get_current_state(), None);
    assert!(matches!(game.play_turn(), Err(ReversiError::EndedGame(_))));
    let (dark, light) = game.get_current_score();
    assert_eq!(game.get_current_score_diff(), light as i16 - dark as i16);
}

#[test]
fn undo_after_reply_restores_own_turn() {
    let p = FirstLegal;
    let mut game: Game<u32, FirstLegal, FirstLegal> = Game::new(&p, &p);
    let start = *game.get_current_turn();
    game.apply_action(PlayerAction::Move(Coord::new(2, 3))).unwrap();
    game.apply_action(PlayerAction::Move(Coord::new(2, 2))).unwrap();
    assert_eq!(game.get_current_state(), Some(Side::Dark));
    assert!(matches!(game.apply_action(PlayerAction::Undo), Ok(PlayerAction::Undo)));
    assert!(same_turn(game.get_current_turn(), &start));
    assert!(matches!(game.apply_action(PlayerAction::Undo), Err(ReversiError::NoUndo)));
    assert!(same_turn(game.get_current_turn(), &start));
}

#[test]
fn undo_on_new_game_fails() {
    let p = FirstLegal;
    let mut game: Game<u32, FirstLegal, FirstLegal> = Game::new(&p, &p);
    assert!(matches!(game.apply_action(PlayerAction::Undo), Err(ReversiError::NoUndo)));
    assert!(same_turn(game.get_current_turn(), &Turn::first_turn()));
}

#[test]
fn illegal_move_in_game_is_not_recorded() {
    let p = FirstLegal;
    let mut game: Game<u32, FirstLegal, FirstLegal> = Game::new(&p, &p);
    assert!(matches!(
        game.apply_action(PlayerAction::Move(Coord::new(0, 0))),
        Err(ReversiError::IllegalMove(_))
    ));
    assert!(same_turn(game.get_current_turn(), &Turn::first_turn()));
    // With nothing recorded, Undo still has nothing to go back to.
    assert!(matches!(game.apply_action(PlayerAction::Undo), Err(ReversiError::NoUndo)));
}

#[test]
fn other_action_is_returned_unchanged() {
    let p = FirstLegal;
    let mut game: Game<u32, FirstLegal, FirstLegal> = Game::new(&p, &p);
    assert!(matches!(game.apply_action(PlayerAction::Other(7)), Ok(PlayerAction::Other(7))));
    assert!(same_turn(game.get_current_turn(), &Turn::first_turn()));
}

/// Plays the legal move at a position that depends on a seed and on the move number.
struct Seeded(usize);

impl IsPlayer<u32> for Seeded {
    fn make_move(&self, turn: &Turn) -> reversi::Result<PlayerAction<u32>> {
        let moves = legal_moves(turn);
        if moves.is_empty() {
            return Err(ReversiError::EndedGame(*turn));
        }
        let k = (self.0 * 7 + turn.get_tempo() as usize * 3) % moves.len();
        Ok(PlayerAction::Move(Coord::new(moves[k].0, moves[k].1)))
    }
}

/// Whenever a move leaves the mover to play again, Undo brings back the turn before it.
#[test]
fn undo_after_forced_pass_restores_turn() {
    let mut forced_passes = 0;
    for seed in 0..60 {
        let p = Seeded(seed);
        let mut game: Game<u32, Seeded, Seeded> = Game::new(&p, &p);
        while !game.is_ended() {
            let before = *game.get_current_turn();
            let coord = match game.play_turn().unwrap() {
                PlayerAction::Move(c) => c,
                _ => panic!("expected a move"),
            };
            if game.get_current_state() == before.get_state() {
                forced_passes += 1;
                let after = *game.get_current_turn();
                game.apply_action(PlayerAction::Undo).unwrap();
                assert!(same_turn(game.get_current_turn(), &before));
                game.apply_action(PlayerAction::Move(coord)).unwrap();
                assert!(same_turn(game.get_current_turn(), &after));
            }
        }
    }
    assert!(forced_passes > 0);
}
