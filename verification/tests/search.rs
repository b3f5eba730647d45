use ur_game::game_manager::{roll_dices, Board, ENTER};
use ur_game::reinforcement_learning::{features, held, LinearEval0, UNIT};
use ur_game::tournament::Turn;
use ur_game::training::train_turn;
use ur_game::strategy::{
    best_reply, choose_best, eval_move, eval_no_move, expectimax, pow16, Heuristic,
    SimpleHeuristic,
};

fn sample_board(turn: usize) -> Board {
    let mut b = Board { ready: [1, 0], cells: [[false; 14]; 2], out: [2, 1], turn };
    for &i in &[1usize, 3, 5, 10] {
        b.cells[0][i] = true;
    }
    for &i in &[0usize, 1, 3, 7, 12, 13] {
        b.cells[1][i] = true;
    }
    b
}

fn reflected(b: &Board) -> Board {
    Board {
        ready: [b.ready[1], b.ready[0]],
        cells: [b.cells[1], b.cells[0]],
        out: [b.out[1], b.out[0]],
        turn: b.turn,
    }
}

#[test]
fn victory_is_seven_times_fifteen() {
    assert_eq!(SimpleHeuristic::victory(), 105);
}

#[test]
fn new_board_is_worth_nothing() {
    let h = SimpleHeuristic {};
    assert_eq!(h.eval(&Board::default()), 0);
}

#[test]
fn advancement_counts_places_from_one() {
    let h = SimpleHeuristic {};
    // 15 * (1 - 2) + (1 + 2 + 4 + 8 + 13 + 14) - (2 + 4 + 6 + 11)
    assert_eq!(h.eval(&sample_board(1)), 4);
    assert_eq!(h.eval(&sample_board(0)), -4);
}

#[test]
fn evaluation_is_antisymmetric() {
    let h = SimpleHeuristic {};
    for turn in 0..2 {
        let b = sample_board(turn);
        let mut other = b;
        other.change_turn();
        assert_eq!(h.eval(&b), -h.eval(&other));
        let mirror = reflected(&b);
        assert_eq!(h.eval(&b), -h.eval(&mirror));
        let mut back = mirror;
        back.change_turn();
        assert_eq!(h.eval(&b), h.eval(&back));
    }
}

#[test]
fn depth_zero_is_the_evaluation() {
    let h = SimpleHeuristic {};
    for turn in 0..2 {
        let b = sample_board(turn);
        assert_eq!(expectimax(&h, &b, 0), h.eval(&b) as i128);
    }
    assert_eq!(expectimax(&h, &Board::default(), 0), 0);
}

#[test]
fn powers_of_sixteen() {
    assert_eq!(pow16(0), 1);
    assert_eq!(pow16(1), 16);
    assert_eq!(pow16(3), 4096);
    assert_eq!(pow16(15), 1i128 << 60);
}

#[test]
fn one_ply_from_the_start_is_worth_two() {
    let h = SimpleHeuristic {};
    // rolls 0..=4 are worth 0, 1, 2, 3, 4 with weights 1, 4, 6, 4, 1
    assert_eq!(expectimax(&h, &Board::default(), 1), 32);
}

#[test]
fn each_roll_from_the_start() {
    let h = SimpleHeuristic {};
    let b = Board::default();
    assert_eq!(best_reply(&h, &b, 0, 0), 0);
    assert_eq!(best_reply(&h, &b, 1, 0), 1);
    assert_eq!(best_reply(&h, &b, 2, 0), 2);
    assert_eq!(best_reply(&h, &b, 3, 0), 3);
    assert_eq!(best_reply(&h, &b, 4, 0), 4);
}

#[test]
fn value_is_negated_when_the_turn_passes() {
    let h = SimpleHeuristic {};
    let b = Board::default();
    // entering with 2 passes the turn: the opponent sees -2
    assert_eq!(eval_move(&h, &b, 2, ENTER, 0), 2);
    // entering with 4 keeps the turn: the mover sees 4
    assert_eq!(eval_move(&h, &b, 4, ENTER, 0), 4);
    let mut after = b;
    after.perform_move(2, ENTER);
    assert_eq!(h.eval(&after), -2);
}

#[test]
fn passing_negates_the_value() {
    let h = SimpleHeuristic {};
    let b = sample_board(1);
    assert_eq!(eval_no_move(&h, &b, 0), 4);
    let mut swapped = b;
    swapped.change_turn();
    assert_eq!(eval_no_move(&h, &b, 1), -expectimax(&h, &swapped, 1));
}

#[test]
fn deeper_search_agrees_with_its_definition() {
    let h = SimpleHeuristic {};
    let b = sample_board(0);
    let mut total: i128 = 0;
    let weights = [1i128, 4, 6, 4, 1];
    for dice in 0..5usize {
        let moves = b.possible_moves(dice);
        let v = if moves.is_empty() {
            eval_no_move(&h, &b, 1)
        } else {
            moves.iter().map(|&m| eval_move(&h, &b, dice, m, 1)).max().unwrap()
        };
        assert_eq!(v, best_reply(&h, &b, dice, 1));
        total += weights[dice] * v;
    }
    assert_eq!(expectimax(&h, &b, 2), total);
}

#[test]
fn winning_move_is_worth_the_scaled_victory() {
    let h = SimpleHeuristic {};
    let mut b = Board { ready: [0, 3], cells: [[false; 14]; 2], out: [6, 2], turn: 0 };
    b.cells[0][13] = true;
    b.cells[1][5] = true;
    b.cells[1][9] = true;
    assert_eq!(b.possible_moves(1), vec![13]);
    assert_eq!(eval_move(&h, &b, 1, 13, 0), 105);
    assert_eq!(eval_move(&h, &b, 1, 13, 2), 105 * 256);
    assert_eq!(choose_best(&h, &b, 1, 3), 13);
    // just short of winning: six pieces off and one on the last place
    assert_eq!(h.eval(&b), 15 * 4 + 14 - 6 - 10);
    for depth in 0..3 {
        let v = expectimax(&h, &b, depth);
        assert!(v < 105 * pow16(depth));
        assert!(v > -105 * pow16(depth));
    }
}

#[test]
fn best_move_keeps_the_first_of_equal_worth() {
    let h = SimpleHeuristic {};
    let mut b = Board { ready: [5, 7], cells: [[false; 14]; 2], out: [0, 0], turn: 0 };
    b.cells[0][0] = true;
    b.cells[0][8] = true;
    // roll 1: entering is blocked; both pieces gain one place and pass the turn
    assert_eq!(b.possible_moves(1), vec![0, 8]);
    assert_eq!(eval_move(&h, &b, 1, 0, 0), eval_move(&h, &b, 1, 8, 0));
    assert_eq!(choose_best(&h, &b, 1, 1), 0);
}

#[test]
fn best_move_has_the_greatest_worth() {
    let h = SimpleHeuristic {};
    let b = sample_board(0);
    for dice in 1..5usize {
        let moves = b.possible_moves(dice);
        if moves.is_empty() {
            continue;
        }
        for depth in 1..3u32 {
            let best = choose_best(&h, &b, dice, depth);
            assert!(moves.contains(&best));
            let top = eval_move(&h, &b, dice, best, depth - 1);
            for &m in &moves {
                assert!(eval_move(&h, &b, dice, m, depth - 1) <= top);
            }
            assert_eq!(top, best_reply(&h, &b, dice, depth - 1));
        }
    }
}

#[test]
fn capture_is_preferred_by_the_search() {
    let h = SimpleHeuristic {};
    let mut b = Board { ready: [5, 6], cells: [[false; 14]; 2], out: [0, 0], turn: 0 };
    b.cells[0][1] = true;
    b.cells[0][4] = true;
    b.cells[1][6] = true;
    // 4 -> 6 takes the piece on 6: worth 2 + 7, against 4 + 5 - 7 for 1 -> 3
    assert_eq!(b.possible_moves(2), vec![1, 4]);
    assert_eq!(eval_move(&h, &b, 2, 4, 0), 9);
    assert_eq!(eval_move(&h, &b, 2, 1, 0), 2);
    assert_eq!(choose_best(&h, &b, 2, 1), 4);
}

#[test]
fn features_are_differences_from_the_movers_side() {
    let f = features(&sample_board(1));
    assert_eq!(f.ready, -1);
    assert_eq!(f.out, -1);
    assert_eq!(f.cells, [1, 0, 0, 0, 0, -1, 0, 1, 0, 0, -1, 0, 1, 1]);
    let g = features(&sample_board(0));
    assert_eq!(g.ready, 1);
    assert_eq!(g.out, 1);
    assert_eq!(g.cells, [-1, 0, 0, 0, 0, 1, 0, -1, 0, 0, 1, 0, -1, -1]);
    let zero = features(&Board::default());
    assert_eq!(zero.ready, 0);
    assert_eq!(zero.cells, [0; 14]);
    assert_eq!(zero.out, 0);
}

fn sample_weights() -> LinearEval0 {
    let mut cells = [0i32; 14];
    for i in 0..14 {
        cells[i] = 10 * (i as i32 + 1);
    }
    LinearEval0 { val_ready: -7, val_cells: cells, val_out: 1000, player_adv: 3 }
}

#[test]
fn linear_value_is_the_weighted_sum() {
    let h = sample_weights();
    // features for player 1: ready -1, out -1, places 0, 7, 12, 13 for, 5 and 10 against
    let expected = 3 + 7 - 1000 + 10 * (1 + 8 + 13 + 14) - 10 * (6 + 11);
    assert_eq!(h.eval(&sample_board(1)), expected);
    // to the other player: the opposite, but for the advantage of the move
    assert_eq!(h.eval(&sample_board(0)) - 3, -(expected - 3));
    assert_eq!(h.eval(&Board::default()), 3);
    assert_eq!(LinearEval0::victory(), UNIT);
    assert_eq!(UNIT, 1 << 24);
}

#[test]
fn linear_value_without_advantage_is_antisymmetric() {
    let mut h = sample_weights();
    h.player_adv = 0;
    for turn in 0..2 {
        let b = sample_board(turn);
        let mut other = b;
        other.change_turn();
        assert_eq!(h.eval(&b), -h.eval(&other));
        assert_eq!(h.eval(&b), -h.eval(&reflected(&b)));
    }
}

#[test]
fn training_step_moves_each_weight_along_its_feature() {
    let mut h = sample_weights();
    let b = sample_board(1);
    let value = h.eval(&b) as i128;
    // alpha is one half: the step size is half the gap
    let alpha = (UNIT / 2) as i32;
    assert!(h.step(&b, value + 200, alpha));
    assert_eq!(h.val_ready, -7 - 100);
    assert_eq!(h.val_out, 1000 - 100);
    assert_eq!(h.player_adv, 3 + 100);
    let before = sample_weights();
    let f = features(&b);
    for i in 0..14 {
        assert_eq!(h.val_cells[i], before.val_cells[i] + 100 * f.cells[i]);
    }
    // the value has moved towards the target
    assert!(h.eval(&b) as i128 > value);
}

#[test]
fn training_step_rounds_toward_zero() {
    let mut h = sample_weights();
    let b = Board::default();
    // value 3; gap -5; alpha one half: -2.5 rounds to -2
    assert!(h.step(&b, -2, (UNIT / 2) as i32));
    assert_eq!(h.player_adv, 1);
    assert_eq!(h.val_ready, -7);
    assert_eq!(h.val_out, 1000);
    // gap 5; alpha one half: 2.5 rounds to 2
    assert!(h.step(&b, 6, (UNIT / 2) as i32));
    assert_eq!(h.player_adv, 3);
}

#[test]
fn training_step_is_refused_when_a_weight_would_not_fit() {
    let mut h = sample_weights();
    h.player_adv = i32::MAX - 1;
    let b = Board::default();
    let value = h.eval(&b) as i128;
    assert!(!h.step(&b, value + 100, UNIT as i32));
    assert_eq!(h.player_adv, i32::MAX - 1);
    assert_eq!(h.val_ready, -7);
    assert!(h.step(&b, value + 1, UNIT as i32));
    assert_eq!(h.player_adv, i32::MAX);
}

#[test]
fn held_is_the_range_of_a_weight() {
    assert!(held(i32::MAX as i128));
    assert!(held(i32::MIN as i128));
    assert!(!held(i32::MAX as i128 + 1));
    assert!(!held(i32::MIN as i128 - 1));
}

#[test]
fn training_turn_steps_then_plays() {
    let mut h = LinearEval0::default();
    h.val_out = 1 << 20;
    let mut b = Board::default();
    let before = h;
    // one ply from the start every branch is worth nothing: no step
    let t = train_turn(&mut h, &mut b, 0, 1 << 10);
    assert_eq!(t, Turn::Passed);
    assert_eq!(b.turn, 1);
    assert_eq!(h.val_out, before.val_out);
    assert_eq!(h.player_adv, 0);
    let t = train_turn(&mut h, &mut b, 2, 1 << 10);
    assert_eq!(t, Turn::Moved { place: ENTER });
    assert!(b.cells[1][1]);
    assert_eq!(b.turn, 0);
}

#[test]
fn training_learns_that_bearing_off_is_good() {
    let mut h = LinearEval0::default();
    let mut b = Board { ready: [0, 7], cells: [[false; 14]; 2], out: [6, 0], turn: 0 };
    b.cells[0][13] = true;
    // a roll of one wins, with four chances in sixteen: the target is a quarter
    let target = expectimax(&h, &b, 1);
    assert_eq!(target, 4 * UNIT as i128);
    let t = train_turn(&mut h, &mut b, 3, (UNIT / 4) as i32);
    assert_eq!(t, Turn::Passed);
    // gap a quarter, alpha a quarter: each weight moves a sixteenth along its feature
    let delta = (UNIT / 16) as i32;
    assert_eq!(h.player_adv, delta);
    assert_eq!(h.val_out, 6 * delta);
    assert_eq!(h.val_ready, -7 * delta);
    assert_eq!(h.val_cells[13], delta);
    assert_eq!(h.val_cells[0], 0);
}

#[test]
fn a_training_game_runs_to_a_win() {
    let mut h = LinearEval0::default();
    let mut rng = rand::thread_rng();
    let mut b = Board::default();
    let mut won = false;
    for _ in 0..100_000 {
        let dice = roll_dices(&mut rng);
        let t = train_turn(&mut h, &mut b, dice, 1678);
        assert!(!matches!(t, Turn::Refused { .. }));
        if matches!(t, Turn::Won { .. }) {
            won = true;
            break;
        }
    }
    assert!(won);
    assert_eq!(b.out[b.turn], 7);
}
