use ur_game::game_manager::{Board, ENTER};
use ur_game::strategy::SimpleHeuristic;
use ur_game::tournament::{
    is_listed, play_turn, settle, ExpectimaxPlayer, Greedy, LastMove, Player, RandMove, Turn,
};

fn mid_game() -> Board {
    let mut b = Board { ready: [5, 6], cells: [[false; 14]; 2], out: [0, 0], turn: 0 };
    b.cells[0][1] = true;
    b.cells[0][4] = true;
    b.cells[1][6] = true;
    b
}

#[test]
fn last_move_plays_the_furthest_piece() {
    let b = mid_game();
    assert_eq!(LastMove {}.choose_move(&b, 2), 4);
    assert_eq!(LastMove {}.choose_move(&Board::default(), 3), ENTER);
}

#[test]
fn greedy_takes_a_piece_first() {
    let b = mid_game();
    // roll 2: 4 -> 6 takes; 1 -> 3 lands on a rosetta
    assert_eq!(Greedy {}.choose_move(&b, 2), 4);
}

#[test]
fn greedy_then_looks_for_a_rosetta() {
    let mut b = mid_game();
    b.cells[1][6] = false;
    b.ready[1] = 7;
    assert_eq!(b.possible_moves(2), vec![1, 4]);
    assert_eq!(Greedy {}.choose_move(&b, 2), 1);
    // roll 4: entering lands on the first rosetta
    let mut c = Board::default();
    c.cells[0][5] = true;
    c.ready[0] = 6;
    assert_eq!(c.possible_moves(4), vec![ENTER, 5]);
    assert_eq!(Greedy {}.choose_move(&c, 4), ENTER);
}

#[test]
fn greedy_falls_back_on_the_last_move() {
    let mut b = mid_game();
    b.cells[1][6] = false;
    b.ready[1] = 7;
    assert_eq!(b.possible_moves(1), vec![ENTER, 1, 4]);
    assert_eq!(Greedy {}.choose_move(&b, 1), 4);
}

#[test]
fn random_player_stays_within_the_list() {
    let b = mid_game();
    let moves = b.possible_moves(2);
    let mut p = RandMove { rng: rand::thread_rng() };
    let mut seen = [false; 15];
    for _ in 0..500 {
        let m = p.choose_move(&b, 2);
        assert!(moves.contains(&m));
        seen[m] = true;
    }
    for &m in &moves {
        assert!(seen[m]);
    }
}

#[test]
fn search_player_follows_the_search() {
    let b = mid_game();
    let mut p = ExpectimaxPlayer { h: SimpleHeuristic {}, depth: 1 };
    assert_eq!(p.choose_move(&b, 2), 4);
    assert_eq!(p.depth, 1);
    let mut deep = ExpectimaxPlayer { h: SimpleHeuristic {}, depth: 3 };
    let m = deep.choose_move(&b, 2);
    assert!(b.possible_moves(2).contains(&m));
}

#[test]
fn listing_finds_members_only() {
    let moves = vec![ENTER, 1, 4];
    assert!(is_listed(&moves, ENTER));
    assert!(is_listed(&moves, 4));
    assert!(!is_listed(&moves, 2));
    assert!(!is_listed(&Vec::new(), 0));
}

#[test]
fn illegal_token_is_refused() {
    let mut b = mid_game();
    assert_eq!(settle(&mut b, 2, 3), Turn::Refused { place: 3 });
    assert_eq!(b.ready, [5, 6]);
    assert!(b.cells[0][1] && b.cells[0][4] && b.cells[1][6]);
    assert_eq!(b.turn, 0);
    assert_eq!(settle(&mut b, 0, ENTER), Turn::Refused { place: ENTER });
    assert_eq!(settle(&mut b, 2, 99), Turn::Refused { place: 99 });
}

#[test]
fn legal_token_is_played() {
    let mut b = mid_game();
    assert_eq!(settle(&mut b, 2, 4), Turn::Moved { place: 4 });
    assert!(b.cells[0][6]);
    assert!(!b.cells[1][6]);
    assert_eq!(b.ready, [5, 7]);
    assert_eq!(b.turn, 1);
}

#[test]
fn last_piece_off_wins() {
    let mut b = Board { ready: [0, 7], cells: [[false; 14]; 2], out: [6, 0], turn: 0 };
    b.cells[0][11] = true;
    assert_eq!(settle(&mut b, 3, 11), Turn::Won { place: 11 });
    assert_eq!(b.out, [7, 0]);
    assert_eq!(b.turn, 0);
}

#[test]
fn turn_passes_without_a_move() {
    let mut b = mid_game();
    let t = play_turn(&mut b, 0, &mut LastMove {}, &mut Greedy {});
    assert_eq!(t, Turn::Passed);
    assert_eq!(b.turn, 1);
    assert_eq!(b.ready, [5, 6]);
}

#[test]
fn single_move_is_played_without_asking() {
    struct Stubborn {}
    impl Player for Stubborn {
        fn prepared(&self) -> bool {
            true
        }

        fn choose_move(&mut self, _board: &Board, _dice: usize) -> usize {
            99
        }
    }
    let mut b = Board::default();
    let t = play_turn(&mut b, 3, &mut Stubborn {}, &mut Stubborn {});
    assert_eq!(t, Turn::Moved { place: ENTER });
    assert!(b.cells[0][2]);
    assert_eq!(b.turn, 1);
}

#[test]
fn bad_choice_is_refused_and_leaves_the_board() {
    struct Stubborn {}
    impl Player for Stubborn {
        fn prepared(&self) -> bool {
            true
        }

        fn choose_move(&mut self, _board: &Board, _dice: usize) -> usize {
            99
        }
    }
    let mut b = mid_game();
    let t = play_turn(&mut b, 2, &mut Stubborn {}, &mut LastMove {});
    assert_eq!(t, Turn::Refused { place: 99 });
    assert_eq!(b.turn, 0);
    assert_eq!(b.ready, [5, 6]);
}

#[test]
fn each_side_is_asked_on_its_turn() {
    let mut b = mid_game();
    // player 0 is greedy: takes the piece on 6
    let t = play_turn(&mut b, 2, &mut Greedy {}, &mut LastMove {});
    assert_eq!(t, Turn::Moved { place: 4 });
    assert_eq!(b.turn, 1);
    // player 1 now has all seven pieces ready: entering is the only move
    let t = play_turn(&mut b, 2, &mut Greedy {}, &mut LastMove {});
    assert_eq!(t, Turn::Moved { place: ENTER });
    assert!(b.cells[1][1]);
    assert_eq!(b.turn, 0);
    let mut c = mid_game();
    c.turn = 1;
    // player 1 plays last: the piece on 6, not the entry
    let t = play_turn(&mut c, 2, &mut Greedy {}, &mut LastMove {});
    assert_eq!(t, Turn::Moved { place: 6 });
}

#[test]
fn a_match_runs_to_a_win() {
    let mut b = Board::default();
    let mut light = ExpectimaxPlayer { h: SimpleHeuristic {}, depth: 1 };
    let mut dark = LastMove {};
    let mut rng = rand::thread_rng();
    let mut result = Turn::Passed;
    for _ in 0..100_000 {
        let dice = ur_game::game_manager::roll_dices(&mut rng);
        result = play_turn(&mut b, dice, &mut light, &mut dark);
        assert!(!matches!(result, Turn::Refused { .. }));
        if matches!(result, Turn::Won { .. }) {
            break;
        }
    }
    assert!(matches!(result, Turn::Won { .. }));
    assert_eq!(b.out[b.turn], 7);
}
