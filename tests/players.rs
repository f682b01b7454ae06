use rand::Rng;
use reversi::board::Coord;
use reversi::game::{Game, IsPlayer, PlayerAction};
use reversi::test_ai::{FoolPlayer, SimplePlayer};
use reversi::turn::Turn;
use reversi::{ReversiError, Side};

#[test]
fn fool_lists_opening_moves() {
    let moves = FoolPlayer::legal_moves(&Turn::first_turn());
    assert_eq!(
        moves,
        vec![Coord::new(2, 3), Coord::new(3, 2), Coord::new(4, 5), Coord::new(5, 4)]
    );
}

/// Plays the legal move at an index drawn with rand.
struct Random;

impl IsPlayer<()> for Random {
    fn make_move(&self, turn: &Turn) -> reversi::Result<PlayerAction<()>> {
        let count = FoolPlayer::legal_moves(turn).len();
        let index = if count == 0 { 0 } else { rand::thread_rng().gen_range(0, count) };
        FoolPlayer::pick(turn, index)
    }
}

#[test]
fn fool_picks_by_index() {
    let t = Turn::first_turn();
    let expect = [Coord::new(2, 3), Coord::new(3, 2), Coord::new(4, 5), Coord::new(5, 4)];
    for index in 0..10 {
        match FoolPlayer::pick(&t, index) {
            Ok(PlayerAction::Move(c)) => assert_eq!(c, expect[index % 4]),
            _ => panic!("expected a move"),
        }
    }
}

#[test]
fn fool_games_end() {
    let p = Random;
    for _ in 0..5 {
        let mut game: Game<(), Random, Random> = Game::new(&p, &p);
        let mut moves = 0;
        while !game.is_ended() {
            game.play_turn().unwrap();
            moves += 1;
            assert!(moves <= 60);
        }
        let (dark, light) = game.get_current_score();
        assert!(dark as usize + light as usize <= 64);
        assert!(FoolPlayer::legal_moves(game.get_current_turn()).is_empty());
        assert!(matches!(FoolPlayer::pick(game.get_current_turn(), 3), Err(ReversiError::EndedGame(_))));
        assert!(matches!(p.make_move(game.get_current_turn()), Err(ReversiError::EndedGame(_))));
    }
}

#[test]
fn simple_eval_values() {
    let t = Turn::first_turn();
    let s = SimplePlayer;
    assert_eq!(s.eval(&t, 0), 0);
    // Every opening move of Dark leaves 4 dark disks and 1 light one.
    assert_eq!(s.eval(&t, 1), -3);
    let mut u = t;
    u.make_move(Coord::new(2, 3)).unwrap();
    assert_eq!(s.eval(&u, 0), -3);
}

#[test]
fn simple_scores_opening_moves() {
    let t = Turn::first_turn();
    let scored = SimplePlayer.scored_moves(&t);
    let coords: Vec<Coord> = scored.iter().map(|p| p.0).collect();
    assert_eq!(
        coords,
        vec![Coord::new(2, 3), Coord::new(3, 2), Coord::new(4, 5), Coord::new(5, 4)]
    );
    for (coord, score) in scored {
        let mut next = t;
        next.make_move(coord).unwrap();
        assert_eq!(score, SimplePlayer.eval(&next, 3));
    }
}

#[test]
fn pick_best_keeps_first_best() {
    let a = Coord::new(1, 1);
    let b = Coord::new(2, 2);
    let c = Coord::new(3, 3);
    let scored = vec![(a, 5), (b, -2), (c, -2)];
    assert_eq!(SimplePlayer::pick_best(Side::Dark, &scored), b);
    assert_eq!(SimplePlayer::pick_best(Side::Light, &scored), a);
    assert_eq!(SimplePlayer::pick_best(Side::Light, &vec![]), Coord::new(0, 0));
}
