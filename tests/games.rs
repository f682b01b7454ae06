use reversi::board::{self, Board, Coord};
use reversi::game::{Game, IsPlayer, PlayerAction};
use reversi::turn::Turn;
use reversi::{ReversiError, Side};

/// Plays the first legal move in row-major order.
struct FoolPlayer;

impl IsPlayer<()> for FoolPlayer {
    fn make_move(&self, turn: &Turn) -> reversi::Result<PlayerAction<()>> {
        for row in 0..board::BOARD_SIZE {
            for col in 0..board::BOARD_SIZE {
                let coord = Coord::new(row, col);
                if turn.check_move(coord).is_ok() {
                    return Ok(PlayerAction::Move(coord));
                }
            }
        }
        Err(ReversiError::EndedGame(*turn))
    }
}

/// Plays the move with the best score after a short look-ahead.
struct SimplePlayer;

impl IsPlayer<()> for SimplePlayer {
    fn make_move(&self, turn: &Turn) -> reversi::Result<PlayerAction<()>> {
        let mut best_move = Coord::new(0, 0);
        let mut best_score = match turn.get_state() {
            Some(Side::Dark) => i16::max_value(),
            Some(Side::Light) => i16::min_value(),
            None => return Err(ReversiError::EndedGame(*turn)),
        };

        for row in 0..board::BOARD_SIZE {
            for col in 0..board::BOARD_SIZE {
                let coord = Coord::new(row, col);
                if turn.check_move(coord).is_ok() {
                    let mut next = *turn;
                    next.make_move(coord).unwrap();
                    let new_score = self.eval(&next, 3);
                    match turn.get_state() {
                        Some(Side::Dark) => {
                            if new_score < best_score {
                                best_move = coord;
                                best_score = new_score;
                            }
                        }
                        Some(Side::Light) => {
                            if new_score > best_score {
                                best_move = coord;
                                best_score = new_score;
                            }
                        }
                        None => return Err(ReversiError::EndedGame(*turn)),
                    };
                }
            }
        }
        Ok(PlayerAction::Move(best_move))
    }
}

impl SimplePlayer {
    fn eval(&self, turn: &Turn, depth: u8) -> i16 {
        match turn.get_state() {
            None => turn.get_score_diff() * board::NUM_CELLS as i16,
            Some(side) => {
                if depth == 0 {
                    turn.get_score_diff()
                } else {
                    let mut best_score = match side {
                        Side::Dark => i16::max_value(),
                        Side::Light => i16::min_value(),
                    };

                    for row in 0..board::BOARD_SIZE {
                        for col in 0..board::BOARD_SIZE {
                            let coord = Coord::new(row, col);
                            if turn.check_move(coord).is_ok() {
                                let mut next = *turn;
                                next.make_move(coord).unwrap();
                                let new_score = self.eval(&next, depth - 1);
                                match side {
                                    Side::Dark => {
                                        if new_score < best_score {
                                            best_score = new_score;
                                        }
                                    }
                                    Side::Light => {
                                        if new_score > best_score {
                                            best_score = new_score;
                                        }
                                    }
                                };
                            }
                        }
                    }
                    best_score
                }
            }
        }
    }
}

#[test]
fn test_board() {
    let mut board = Board::new([[None; board::BOARD_SIZE]; board::BOARD_SIZE]);
    board.place_disk(Side::Dark, Coord::new(0, 0)).unwrap();
    assert!(board.get_cell(Coord::new(0, 0)).unwrap().unwrap().get_side() == Side::Dark);
    board.flip_disk(Coord::new(0, 0)).unwrap();
    assert!(board.get_cell(Coord::new(0, 0)).unwrap().unwrap().get_side() == Side::Light);
}

/// Checks `check_move` on the opening position and after Dark's first move.
#[test]
fn mod_test_first_turn() {
    let first_turn = Turn::first_turn();

    for row in 0..board::BOARD_SIZE {
        for col in 0..board::BOARD_SIZE {
            let coord = Coord::new(row, col);
            assert!(
                first_turn.check_move(coord).is_ok()
                    == match coord.get_row_col() {
                        (2, 3) | (3, 2) | (4, 5) | (5, 4) => true,
                        _ => false,
                    },
                "fails at {:?} because {:?}",
                coord,
                first_turn.check_move(coord)
            )
        }
    }

    let mut second_turn = first_turn;
    second_turn.make_move(Coord::new(2, 3)).unwrap();
    for row in 0..board::BOARD_SIZE {
        for col in 0..board::BOARD_SIZE {
            let coord = Coord::new(row, col);
            assert!(
                second_turn.check_move(coord).is_ok()
                    == match coord.get_row_col() {
                        (2, 2) | (2, 4) | (4, 2) => true,
                        _ => false,
                    },
                "fails at {:?} because {:?}",
                coord,
                second_turn.check_move(coord)
            )
        }
    }
}

/// Runs a full game between two `FoolPlayer`s.
#[test]
fn bench_game_fool() {
    let d: FoolPlayer = FoolPlayer;
    let l: FoolPlayer = FoolPlayer;
    let mut game: Game<(), FoolPlayer, FoolPlayer> = Game::new(&d, &l);

    while game.get_current_state().is_some() {
        game.play_turn().unwrap();
    }
}

/// Runs a full game between two `SimplePlayer`s.
#[test]
fn bench_game_simple() {
    let d: SimplePlayer = SimplePlayer;
    let l: SimplePlayer = SimplePlayer;
    let mut game: Game<(), SimplePlayer, SimplePlayer> = Game::new(&d, &l);

    while game.get_current_state().is_some() {
        game.play_turn().unwrap();
    }
}

/// Runs a full game between a `FoolPlayer` and a `SimplePlayer`.
#[test]
fn bench_game_fool_vs_simple() {
    let d: FoolPlayer = FoolPlayer;
    let l: SimplePlayer = SimplePlayer;
    let mut game: Game<(), FoolPlayer, SimplePlayer> = Game::new(&d, &l);

    while game.get_current_state().is_some() {
        game.play_turn().unwrap();
    }
}

/// Runs a full game between a `SimplePlayer` and a `FoolPlayer`.
#[test]
fn bench_game_simple_vs_fool() {
    let d: SimplePlayer = SimplePlayer;
    let l: FoolPlayer = FoolPlayer;
    let mut game: Game<(), SimplePlayer, FoolPlayer> = Game::new(&d, &l);

    while game.get_current_state().is_some() {
        game.play_turn().unwrap();
    }
}
