//! One turn of the linear evaluator's training against itself.

use crate::game_manager::{lemma_swapped_wf, Board, BoardView};
use crate::reinforcement_learning::{toward_zero, LinearEval0};
use crate::strategy::{choose_best, expected_value, expectimax, first_best, lemma_scale_bounds};
use crate::tournament::{settle, settled, Turn};
use vstd::prelude::*;

verus! {

/// The value towards which a turn of training moves the evaluator: that of
/// a search one ply deep with the evaluator itself.
pub open spec fn one_ply_target(h: &LinearEval0, b: BoardView) -> int {
    toward_zero(expected_value(h, b, 1), 16)
}

/// One turn of training. Before the move the evaluator takes a training
/// step towards the value that one ply of search gives the board. Then the
/// turn is played for the roll `dice`: it passes where no move is legal, and
/// else the move is played that the stepped evaluator values most on the board
/// that follows it.
pub fn train_turn(evaluator: &mut LinearEval0, board: &mut Board, dice: usize, alpha: i32) -> (t:
    Turn)
    requires
        old(board).wf(),
        old(board)@.in_play(),
        dice <= 4,
    ensures
        final(evaluator).is_step_of(
            *old(evaluator),
            old(board)@,
            one_ply_target(old(evaluator), old(board)@),
            alpha as int,
        ),
        final(board).wf(),
        final(board)@.in_play() <==> !(t is Won),
        !(t is Refused),
        old(board)@.legal_moves(dice as int).len() == 0 ==> t == Turn::Passed && final(board)@ == old(
            board,
        )@.swapped(),
        old(board)@.legal_moves(dice as int).len() > 0 ==> exists|place: usize|
            #![trigger settled(old(board)@, dice as int, place)]
            first_best(final(evaluator), old(board)@, dice as int, place, 0) && (final(board)@, t)
                == settled(old(board)@, dice as int, place),
{
    let searched = expectimax(&*evaluator, &*board, 1);
    proof {
        lemma_scale_bounds(1);
    }
    let target: i128 = if searched >= 0 {
        searched / 16
    } else {
        -((-searched) / 16)
    };
    evaluator.step(&*board, target, alpha);
    let moves = board.possible_moves(dice);
    if moves.len() == 0 {
        proof {
            lemma_swapped_wf(board@);
        }
        board.change_turn();
        return Turn::Passed;
    }
    let place = choose_best(&*evaluator, &*board, dice, 1);
    let ghost before = board@;
    let t = settle(board, dice, place);
    assert((board@, t) == settled(before, dice as int, place));
    t
}

} // verus!
