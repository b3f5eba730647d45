//! Static evaluation of a board and expectimax search over rolls and moves.
//!
//! Every value is the worth of a board to the player about to move on it.
//! The search works in exact integer arithmetic: a roll of `k` has weight
//! `C(4, k)` out of sixteen, so a value searched to depth `d` is reported as
//! sixteen to the power `d` times the expected value.

use crate::game_manager::{
    lemma_initial_wf, lemma_legal_moves_ordered, lemma_move_keeps_in_play,
    heads, lemma_move_preserves_wf, lemma_swapped_wf, pieces_on, Board, BoardView, ENTER,
};
use vstd::prelude::*;

verus! {

/// The deepest search whose scaled values are sure to fit the result type.
pub const MAX_DEPTH: u32 = 15;

/// Sixteen to the power `depth`: the factor by which searched values are scaled.
pub open spec fn scale(depth: nat) -> int
    decreases depth,
{
    if depth == 0 {
        1
    } else {
        16 * scale((depth - 1) as nat)
    }
}

/// How many of the sixteen equally likely throws of four coins show `dice` heads.
pub open spec fn roll_weight(dice: int) -> int {
    if dice == 0 || dice == 4 {
        1
    } else if dice == 1 || dice == 3 {
        4
    } else if dice == 2 {
        6
    } else {
        0
    }
}

/// How many of the draws below `n` stand for a throw of `dice` heads.
pub open spec fn draws_for(dice: int, n: nat) -> nat
    decreases n,
{
    if n == 0 {
        0
    } else {
        draws_for(dice, (n - 1) as nat) + if heads((n - 1) as nat, 4) == dice {
            1nat
        } else {
            0nat
        }
    }
}

/// The weights of the search are those of the dice: of the sixteen draws
/// that a roll is counted from, `roll_weight(dice)` stand for `dice`.
pub proof fn lemma_weights_match_dice(dice: int)
    ensures
        draws_for(dice, 16) == roll_weight(dice),
        roll_weight(0) + roll_weight(1) + roll_weight(2) + roll_weight(3) + roll_weight(4) == 16,
{
    reveal_with_fuel(draws_for, 17);
    reveal_with_fuel(heads, 5);
}

/// Whether a scaled value is within what any evaluator can reach at `depth`.
pub open spec fn within(v: int, depth: nat) -> bool {
    -0x8000_0000_0000_0000 * scale(depth) <= v <= 0x8000_0000_0000_0000 * scale(depth)
}

/// An evaluation of boards, always from the side of the player to move.
/// The higher the value, the better the board for that player.
pub trait Heuristic {
    /// The value of a game that the mover has just won.
    spec fn victory_value() -> int;

    /// The value of a board to the player about to move.
    spec fn value(&self, board: BoardView) -> int;

    fn victory() -> (v: i64)
        ensures
            v == Self::victory_value(),
    ;

    fn eval(&self, board: &Board) -> (v: i64)
        requires
            board.turn < 2,
        ensures
            v == self.value(board@),
    ;
}

/// The worth of a board searched `depth` plies deep, times `scale(depth)`.
pub open spec fn expected_value<H: Heuristic>(h: &H, b: BoardView, depth: nat) -> int
    decreases depth, 0nat, 0nat,
{
    if depth == 0 {
        h.value(b)
    } else {
        let d = (depth - 1) as nat;
        roll_weight(0) * roll_value(h, b, 0, d) + roll_weight(1) * roll_value(h, b, 1, d)
            + roll_weight(2) * roll_value(h, b, 2, d) + roll_weight(3) * roll_value(h, b, 3, d)
            + roll_weight(4) * roll_value(h, b, 4, d)
    }
}

/// The worth of a board once `dice` is rolled: that of the mover's best move,
/// or of passing where no move is legal. Scaled by `scale(depth)`.
pub open spec fn roll_value<H: Heuristic>(h: &H, b: BoardView, dice: int, depth: nat) -> int
    decreases depth, 3nat, 0nat,
{
    let moves = b.legal_moves(dice);
    if moves.len() == 0 {
        no_move_value(h, b, depth)
    } else {
        best_value(h, b, dice, moves, depth)
    }
}

/// The greatest worth among the given moves. Scaled by `scale(depth)`.
pub open spec fn best_value<H: Heuristic>(
    h: &H,
    b: BoardView,
    dice: int,
    moves: Seq<usize>,
    depth: nat,
) -> int
    decreases depth, 2nat, moves.len(),
{
    if moves.len() == 0 {
        0
    } else if moves.len() == 1 {
        move_value(h, b, dice, moves[0] as int, depth)
    } else {
        let rest = best_value(h, b, dice, moves.drop_last(), depth);
        let last = move_value(h, b, dice, moves.last() as int, depth);
        if last > rest {
            last
        } else {
            rest
        }
    }
}

/// The worth, to the mover of `b`, of playing `place` on the roll `dice`:
/// the victory value if the move wins, else the worth of the board that
/// follows, negated when the turn has passed to the other player. Scaled by
/// `scale(depth)`.
pub open spec fn move_value<H: Heuristic>(
    h: &H,
    b: BoardView,
    dice: int,
    place: int,
    depth: nat,
) -> int
    decreases depth, 1nat, 0nat,
{
    if b.wins(dice, place) {
        H::victory_value() * scale(depth)
    } else {
        let next = b.after_move(dice, place);
        let v = expected_value(h, next, depth);
        if next.turn == b.turn {
            v
        } else {
            -v
        }
    }
}

/// The worth, to the mover of `b`, of having to pass. Scaled by `scale(depth)`.
pub open spec fn no_move_value<H: Heuristic>(h: &H, b: BoardView, depth: nat) -> int
    decreases depth, 1nat, 0nat,
{
    -expected_value(h, b.swapped(), depth)
}

/// The scale grows with the depth and stays below 2^60 up to `MAX_DEPTH`.
pub proof fn lemma_scale_bounds(depth: nat)
    requires
        depth <= MAX_DEPTH,
    ensures
        1 <= scale(depth) <= 0x1000_0000_0000_0000,
        depth > 0 ==> scale(depth) == 16 * scale((depth - 1) as nat),
{
    reveal_with_fuel(scale, 17);
}

/// Sixteen to the power `depth`.
pub fn pow16(depth: u32) -> (r: i128)
    requires
        depth <= MAX_DEPTH,
    ensures
        r == scale(depth as nat),
{
    let mut r: i128 = 1;
    let mut k: u32 = 0;
    while k < depth
        invariant
            k <= depth <= MAX_DEPTH,
            r == scale(k as nat),
        decreases depth - k,
    {
        proof {
            lemma_scale_bounds(k as nat);
            lemma_scale_bounds((k + 1) as nat);
        }
        r = r * 16;
        k += 1;
    }
    r
}

/// The worth of `board` to its mover, searched `depth` plies deep and scaled
/// by `scale(depth)`. At depth zero it is the static evaluation.
pub fn expectimax<H: Heuristic>(h: &H, board: &Board, depth: u32) -> (v: i128)
    requires
        board.wf(),
        board@.in_play(),
        depth <= MAX_DEPTH,
    ensures
        v == expected_value(h, board@, depth as nat),
        depth == 0 ==> v == h.value(board@),
        within(v as int, depth as nat),
    decreases depth, 0nat,
{
    if depth == 0 {
        return h.eval(board) as i128;
    }
    proof {
        lemma_scale_bounds(depth as nat);
        lemma_scale_bounds((depth - 1) as nat);
    }
    let v0 = best_reply(h, board, 0, depth - 1);
    let v1 = best_reply(h, board, 1, depth - 1);
    let v2 = best_reply(h, board, 2, depth - 1);
    let v3 = best_reply(h, board, 3, depth - 1);
    let v4 = best_reply(h, board, 4, depth - 1);
    v0 + 4 * v1 + 6 * v2 + 4 * v3 + v4
}

/// The worth of `board` to its mover once `dice` is rolled: the greatest
/// worth among the legal moves, or the worth of passing where there is none.
pub fn best_reply<H: Heuristic>(h: &H, board: &Board, dice: usize, depth: u32) -> (v: i128)
    requires
        board.wf(),
        board@.in_play(),
        dice <= 4,
        depth <= MAX_DEPTH,
    ensures
        v == roll_value(h, board@, dice as int, depth as nat),
        within(v as int, depth as nat),
    decreases depth, 3nat,
{
    let moves = board.possible_moves(dice);
    if moves.len() == 0 {
        return eval_no_move(h, board, depth);
    }
    proof {
        lemma_legal_moves_ordered(board@, dice as int);
    }
    assert(moves@.contains(moves@[0]));
    let mut best = eval_move(h, board, dice, moves[0], depth);
    assert(moves@.take(1).len() == 1 && moves@.take(1)[0] == moves@[0]);
    let mut k: usize = 1;
    while k < moves.len()
        invariant
            1 <= k <= moves.len(),
            board.wf(),
            board@.in_play(),
            dice <= 4,
            depth <= MAX_DEPTH,
            moves@ == board@.legal_moves(dice as int),
            forall|m: usize| #[trigger]
                moves@.contains(m) <==> (m <= ENTER && board@.is_legal(dice as int, m as int)),
            best == best_value(h, board@, dice as int, moves@.take(k as int), depth as nat),
            within(best as int, depth as nat),
        decreases moves.len() - k,
    {
        assert(moves@.contains(moves@[k as int]));
        let val = eval_move(h, board, dice, moves[k], depth);
        proof {
            let upto = moves@.take(k + 1);
            assert(upto.drop_last() =~= moves@.take(k as int));
            assert(upto.last() == moves@[k as int]);
        }
        if val > best {
            best = val;
        }
        k += 1;
    }
    assert(moves@.take(k as int) =~= moves@);
    best
}

/// The worth, to the mover of `board`, of playing `place` on the roll `dice`,
/// with the board that follows searched `depth` plies deep.
///
/// The token must be one of `board.possible_moves(dice)`.
pub fn eval_move<H: Heuristic>(h: &H, board: &Board, dice: usize, place: usize, depth: u32) -> (v:
    i128)
    requires
        board.wf(),
        board@.in_play(),
        board@.is_legal(dice as int, place as int),
        depth <= MAX_DEPTH,
    ensures
        v == move_value(h, board@, dice as int, place as int, depth as nat),
        within(v as int, depth as nat),
    decreases depth, 1nat,
{
    let mut copy = *board;
    proof {
        lemma_scale_bounds(depth as nat);
        lemma_move_keeps_in_play(board@, dice as int, place as int);
    }
    if copy.perform_move(dice, place) {
        let win = H::victory() as i128;
        let factor = pow16(depth);
        assert(-0x8000_0000_0000_0000 * factor <= win * factor <= 0x8000_0000_0000_0000 * factor)
            by (nonlinear_arith)
            requires
                -0x8000_0000_0000_0000 <= win <= 0x8000_0000_0000_0000,
                1 <= factor,
        ;
        return win * factor;
    }
    let val = expectimax(h, &copy, depth);
    if copy.turn == board.turn {
        val
    } else {
        -val
    }
}

/// The worth, to the mover of `board`, of a roll that allows no move: the
/// turn passes and the board is searched `depth` plies deep.
pub fn eval_no_move<H: Heuristic>(h: &H, board: &Board, depth: u32) -> (v: i128)
    requires
        board.wf(),
        board@.in_play(),
        depth <= MAX_DEPTH,
    ensures
        v == no_move_value(h, board@, depth as nat),
        within(v as int, depth as nat),
    decreases depth, 1nat,
{
    let mut copy = *board;
    copy.change_turn();
    proof {
        lemma_scale_bounds(depth as nat);
        lemma_swapped_wf(board@);
    }
    -expectimax(h, &copy, depth)
}

/// The sum, over the places of a row that hold a piece, of the place counted from one.
pub open spec fn advancement(row: Seq<bool>) -> int
    decreases row.len(),
{
    if row.len() == 0 {
        0
    } else {
        advancement(row.drop_last()) + if row.last() { row.len() as int } else { 0 }
    }
}

/// A piece on a path of at most fourteen places has advanced by at most fourteen.
pub proof fn lemma_advancement_bounds(row: Seq<bool>)
    requires
        row.len() <= 14,
    ensures
        0 <= advancement(row) <= 14 * pieces_on(row),
    decreases row.len(),
{
    if row.len() > 0 {
        lemma_advancement_bounds(row.drop_last());
    }
}

/// The advancement heuristic: fifteen for each piece borne off and the place,
/// counted from one, of each piece on the board, the mover's counted for and
/// the opponent's against.
pub struct SimpleHeuristic {}

impl Heuristic for SimpleHeuristic {
    open spec fn victory_value() -> int {
        7int * 15
    }

    open spec fn value(&self, board: BoardView) -> int {
        15 * (board.out[board.turn] - board.out[board.opponent()]) + advancement(
            board.cells[board.turn],
        ) - advancement(board.cells[board.opponent()])
    }

    fn victory() -> (v: i64) {
        7 * 15
    }

    fn eval(&self, board: &Board) -> (v: i64) {
        let player = board.turn;
        let adv = 1 - player;
        let mut res: i64 = 15 * (board.out[player] as i64 - board.out[adv] as i64);
        let mut i: usize = 0;
        while i < 14
            invariant
                i <= 14,
                player == board.turn,
                adv == 1 - player,
                player < 2,
                res == 15 * (board.out[player as int] - board.out[adv as int]) + advancement(
                    board.cells[player as int]@.take(i as int),
                ) - advancement(board.cells[adv as int]@.take(i as int)),
                -4000 - 14 * i <= res <= 4000 + 14 * i,
            decreases 14 - i,
        {
            proof {
                let mine = board.cells[player as int]@;
                let theirs = board.cells[adv as int]@;
                assert(mine.take(i + 1).drop_last() =~= mine.take(i as int));
                assert(theirs.take(i + 1).drop_last() =~= theirs.take(i as int));
            }
            if board.cells[player][i] {
                res += (i + 1) as i64;
            }
            if board.cells[adv][i] {
                res -= (i + 1) as i64;
            }
            i += 1;
        }
        proof {
            let mine = board.cells[player as int]@;
            let theirs = board.cells[adv as int]@;
            assert(mine.take(14) =~= mine);
            assert(theirs.take(14) =~= theirs);
        }
        res
    }
}

/// To the other player a board is worth the opposite: the advancement
/// heuristic changes sign when the turn passes, and when the two players'
/// pieces change hands while the turn stays.
pub proof fn lemma_simple_antisymmetric(h: &SimpleHeuristic, board: BoardView)
    requires
        board.shaped(),
    ensures
        h.value(board.swapped()) == -h.value(board),
        h.value(board.mirrored()) == -h.value(board),
        h.value(board.mirrored().swapped()) == h.value(board),
{
}

/// Searching to depth zero is evaluating.
pub proof fn lemma_depth_zero<H: Heuristic>(h: &H, board: BoardView)
    ensures
        expected_value(h, board, 0) == h.value(board),
{
}

/// The static value of every board in play lies strictly between the loss
/// and the victory value.
pub open spec fn dominated<H: Heuristic>(h: &H) -> bool {
    forall|b: BoardView|
        b.wf() && b.in_play() ==> -H::victory_value() < #[trigger] h.value(b)
            < H::victory_value()
}

/// The victory value at `depth`, scaled like every searched value.
pub open spec fn victory_at<H: Heuristic>(depth: nat) -> int {
    H::victory_value() * scale(depth)
}

/// The advancement heuristic stays below its victory value while a game is in play.
pub proof fn lemma_simple_dominated(h: &SimpleHeuristic)
    ensures
        dominated(h),
{
    assert forall|b: BoardView| b.wf() && b.in_play() implies -SimpleHeuristic::victory_value()
        < #[trigger] h.value(b) < SimpleHeuristic::victory_value() by {
        lemma_advancement_bounds(b.cells[0]);
        lemma_advancement_bounds(b.cells[1]);
    }
}

/// With a dominated evaluator the victory value is positive, and it scales
/// by sixteen with each ply.
pub proof fn lemma_victory_at<H: Heuristic>(h: &H, depth: nat)
    requires
        dominated(h),
    ensures
        victory_at::<H>(depth) > 0,
        depth > 0 ==> victory_at::<H>(depth) == 16 * victory_at::<H>((depth - 1) as nat),
    decreases depth,
{
    lemma_initial_wf();
    assert(-H::victory_value() < h.value(BoardView::initial()) < H::victory_value());
    if depth > 0 {
        lemma_victory_at(h, (depth - 1) as nat);
        assert(H::victory_value() * (16 * scale((depth - 1) as nat)) == 16 * (H::victory_value()
            * scale((depth - 1) as nat))) by (nonlinear_arith);
    }
}

/// With a dominated evaluator, a board in play is worth strictly less than
/// a victory and strictly more than a loss, however deep the search.
pub proof fn lemma_search_below_victory<H: Heuristic>(h: &H, b: BoardView, depth: nat)
    requires
        dominated(h),
        b.wf(),
        b.in_play(),
    ensures
        -victory_at::<H>(depth) < expected_value(h, b, depth) < victory_at::<H>(depth),
    decreases depth, 0nat, 0nat,
{
    if depth > 0 {
        let d = (depth - 1) as nat;
        lemma_victory_at(h, depth);
        assert(roll_weight(0) == 1 && roll_weight(1) == 4 && roll_weight(2) == 6 && roll_weight(3)
            == 4 && roll_weight(4) == 1);
        lemma_roll_within_victory(h, b, 0, d);
        lemma_roll_within_victory(h, b, 1, d);
        lemma_roll_within_victory(h, b, 2, d);
        lemma_roll_within_victory(h, b, 3, d);
        lemma_roll_within_victory(h, b, 4, d);
        lemma_legal_moves_ordered(b, 0);
    } else {
        assert(scale(0) == 1);
    }
}

/// With a dominated evaluator, the worth of a roll is at most a victory and
/// at least a loss, strictly so when the roll allows no move.
pub proof fn lemma_roll_within_victory<H: Heuristic>(h: &H, b: BoardView, dice: int, depth: nat)
    requires
        dominated(h),
        b.wf(),
        b.in_play(),
    ensures
        -victory_at::<H>(depth) <= roll_value(h, b, dice, depth) <= victory_at::<H>(depth),
        b.legal_moves(dice).len() == 0 ==> -victory_at::<H>(depth) < roll_value(h, b, dice, depth)
            < victory_at::<H>(depth),
    decreases depth, 3nat, 0nat,
{
    let moves = b.legal_moves(dice);
    if moves.len() == 0 {
        lemma_swapped_wf(b);
        lemma_search_below_victory(h, b.swapped(), depth);
    } else {
        lemma_legal_moves_ordered(b, dice);
        assert forall|k: int| 0 <= k < moves.len() implies b.is_legal(
            dice,
            #[trigger] moves[k] as int,
        ) by {
            assert(moves.contains(moves[k]));
        }
        lemma_best_within_victory(h, b, dice, moves, depth);
    }
}

/// With a dominated evaluator, the best of some legal moves is worth a
/// victory if one of them wins, and strictly less if none does.
pub proof fn lemma_best_within_victory<H: Heuristic>(
    h: &H,
    b: BoardView,
    dice: int,
    moves: Seq<usize>,
    depth: nat,
)
    requires
        dominated(h),
        b.wf(),
        b.in_play(),
        moves.len() >= 1,
        forall|k: int| 0 <= k < moves.len() ==> b.is_legal(dice, #[trigger] moves[k] as int),
    ensures
        -victory_at::<H>(depth) < best_value(h, b, dice, moves, depth) <= victory_at::<H>(depth),
        (exists|k: int| 0 <= k < moves.len() && b.wins(dice, #[trigger] moves[k] as int))
            <==> best_value(h, b, dice, moves, depth) == victory_at::<H>(depth),
        forall|k: int|
            0 <= k < moves.len() ==> move_value(h, b, dice, #[trigger] moves[k] as int, depth)
                <= best_value(h, b, dice, moves, depth),
    decreases depth, 2nat, moves.len(),
{
    let last = moves.last() as int;
    lemma_victory_at(h, depth);
    lemma_move_within_victory(h, b, dice, last, depth);
    if moves.len() > 1 {
        let rest = moves.drop_last();
        lemma_best_within_victory(h, b, dice, rest, depth);
        if exists|k: int| 0 <= k < moves.len() && b.wins(dice, #[trigger] moves[k] as int) {
            let k = choose|k: int| 0 <= k < moves.len() && b.wins(dice, #[trigger] moves[k] as int);
            if k < rest.len() {
                assert(b.wins(dice, rest[k] as int));
            }
        }
        if best_value(h, b, dice, moves, depth) == victory_at::<H>(depth) {
            if b.wins(dice, last) {
                assert(b.wins(dice, moves[moves.len() - 1] as int));
            } else {
                let k = choose|k: int| 0 <= k < rest.len() && b.wins(dice, #[trigger] rest[k] as int);
                assert(b.wins(dice, moves[k] as int));
            }
        }
        assert forall|k: int| 0 <= k < moves.len() implies move_value(
            h,
            b,
            dice,
            #[trigger] moves[k] as int,
            depth,
        ) <= best_value(h, b, dice, moves, depth) by {
            if k < rest.len() {
                assert(moves[k] == rest[k]);
            }
        }
    } else {
        if b.wins(dice, last) {
            assert(b.wins(dice, moves[0] as int));
        }
    }
}

/// With a dominated evaluator, a winning move is worth exactly a victory
/// and any other legal move strictly less, and strictly more than a loss.
pub proof fn lemma_move_within_victory<H: Heuristic>(
    h: &H,
    b: BoardView,
    dice: int,
    place: int,
    depth: nat,
)
    requires
        dominated(h),
        b.wf(),
        b.in_play(),
        b.is_legal(dice, place),
    ensures
        b.wins(dice, place) ==> move_value(h, b, dice, place, depth) == victory_at::<H>(depth),
        !b.wins(dice, place) ==> -victory_at::<H>(depth) < move_value(h, b, dice, place, depth)
            < victory_at::<H>(depth),
    decreases depth, 1nat, 0nat,
{
    lemma_victory_at(h, depth);
    if !b.wins(dice, place) {
        lemma_move_preserves_wf(b, dice, place);
        lemma_move_keeps_in_play(b, dice, place);
        lemma_search_below_victory(h, b.after_move(dice, place), depth);
    }
}

/// A winning move is worth more than any legal move that does not win, at
/// every depth, whenever the evaluator is dominated.
pub proof fn lemma_winning_move_dominates<H: Heuristic>(
    h: &H,
    b: BoardView,
    dice: int,
    winning: int,
    other: int,
    depth: nat,
)
    requires
        dominated(h),
        b.wf(),
        b.in_play(),
        b.is_legal(dice, winning),
        b.is_legal(dice, other),
        b.wins(dice, winning),
        !b.wins(dice, other),
    ensures
        move_value(h, b, dice, other, depth) < move_value(h, b, dice, winning, depth),
{
    lemma_move_within_victory(h, b, dice, winning, depth);
    lemma_move_within_victory(h, b, dice, other, depth);
}

/// Under the advancement heuristic a winning move is worth the full victory
/// value, and more than any legal move that does not win, at every depth.
pub proof fn lemma_simple_winning_move_dominates(
    h: &SimpleHeuristic,
    b: BoardView,
    dice: int,
    winning: int,
    other: int,
    depth: nat,
)
    requires
        b.wf(),
        b.in_play(),
        b.is_legal(dice, winning),
        b.is_legal(dice, other),
        b.wins(dice, winning),
        !b.wins(dice, other),
    ensures
        move_value(h, b, dice, winning, depth) == 7 * 15 * scale(depth),
        move_value(h, b, dice, other, depth) < move_value(h, b, dice, winning, depth),
{
    lemma_simple_dominated(h);
    lemma_winning_move_dominates(h, b, dice, winning, other, depth);
}

/// Whether `place` is the first of the legal moves of greatest worth, each
/// move valued with the board that follows it searched `depth` plies deep.
pub open spec fn first_best<H: Heuristic>(
    h: &H,
    b: BoardView,
    dice: int,
    place: usize,
    depth: nat,
) -> bool {
    let moves = b.legal_moves(dice);
    &&& moves.contains(place)
    &&& forall|j: int|
        0 <= j < moves.len() ==> move_value(h, b, dice, #[trigger] moves[j] as int, depth)
            <= move_value(h, b, dice, place as int, depth)
    &&& forall|i: int, j: int|
        0 <= i < j < moves.len() && moves[j] == place ==> move_value(
            h,
            b,
            dice,
            #[trigger] moves[i] as int,
            depth,
        ) < move_value(h, b, dice, #[trigger] moves[j] as int, depth)
}

/// There is one first best move at most.
pub proof fn lemma_first_best_unique<H: Heuristic>(
    h: &H,
    b: BoardView,
    dice: int,
    one: usize,
    other: usize,
    depth: nat,
)
    requires
        first_best(h, b, dice, one, depth),
        first_best(h, b, dice, other, depth),
    ensures
        one == other,
{
    let moves = b.legal_moves(dice);
    let i = choose|i: int| 0 <= i < moves.len() && moves[i] == one;
    let j = choose|j: int| 0 <= j < moves.len() && moves[j] == other;
    if i < j {
        assert(move_value(h, b, dice, moves[i] as int, depth) < move_value(
            h,
            b,
            dice,
            moves[j] as int,
            depth,
        ));
        assert(move_value(h, b, dice, moves[j] as int, depth) <= move_value(
            h,
            b,
            dice,
            one as int,
            depth,
        ));
    } else if j < i {
        assert(move_value(h, b, dice, moves[j] as int, depth) < move_value(
            h,
            b,
            dice,
            moves[i] as int,
            depth,
        ));
        assert(move_value(h, b, dice, moves[i] as int, depth) <= move_value(
            h,
            b,
            dice,
            other as int,
            depth,
        ));
    }
}

/// The move that the search prefers on the roll `dice`: the legal move whose
/// worth, with the board that follows searched `depth - 1` plies deep, is
/// greatest. Among moves of equal worth the first in the move list is kept.
/// With a dominated evaluator a winning move is always chosen over the rest.
pub fn choose_best<H: Heuristic>(h: &H, board: &Board, dice: usize, depth: u32) -> (place: usize)
    requires
        board.wf(),
        board@.in_play(),
        dice <= 4,
        1 <= depth <= MAX_DEPTH + 1,
        board@.legal_moves(dice as int).len() > 0,
    ensures
        first_best(h, board@, dice as int, place, (depth - 1) as nat),
        board@.is_legal(dice as int, place as int),
        dominated(h) && (exists|m: usize|
            board@.legal_moves(dice as int).contains(m) && board@.wins(dice as int, m as int))
            ==> board@.wins(dice as int, place as int),
{
    let moves = board.possible_moves(dice);
    let ghost b = board@;
    let ghost d = (depth - 1) as nat;
    proof {
        lemma_legal_moves_ordered(b, dice as int);
    }
    assert(moves@.contains(moves@[0]));
    let mut best = moves[0];
    let mut best_val = eval_move(h, board, dice, moves[0], depth - 1);
    let mut k: usize = 1;
    let ghost mut at: int = 0;
    while k < moves.len()
        invariant
            1 <= k <= moves.len(),
            board.wf(),
            board@.in_play(),
            b == board@,
            dice <= 4,
            1 <= depth <= MAX_DEPTH + 1,
            d == (depth - 1) as nat,
            moves@ == b.legal_moves(dice as int),
            forall|m: usize| #[trigger]
                moves@.contains(m) <==> (m <= ENTER && b.is_legal(dice as int, m as int)),
            0 <= at < k,
            moves@[at] == best,
            best_val == move_value(h, b, dice as int, best as int, d),
            forall|j: int|
                0 <= j < k ==> move_value(h, b, dice as int, #[trigger] moves@[j] as int, d)
                    <= best_val,
            forall|i: int|
                0 <= i < at ==> move_value(h, b, dice as int, #[trigger] moves@[i] as int, d)
                    < best_val,
        decreases moves.len() - k,
    {
        assert(moves@.contains(moves@[k as int]));
        let val = eval_move(h, board, dice, moves[k], depth - 1);
        if val > best_val {
            best_val = val;
            best = moves[k];
            proof {
                at = k as int;
            }
        }
        k += 1;
    }
    proof {
        lemma_legal_moves_ordered(b, dice as int);
        assert(moves@.contains(moves@[at]));
        assert forall|i: int, j: int| 0 <= i < j < moves@.len() && moves@[j] == best implies move_value(
            h,
            b,
            dice as int,
            #[trigger] moves@[i] as int,
            d,
        ) < move_value(h, b, dice as int, #[trigger] moves@[j] as int, d) by {
            if j < at {
                assert(moves@[at] < ENTER);
            } else if at < j {
                assert(moves@[j] < ENTER);
            }
        }
        if dominated(h) && (exists|m: usize|
            moves@.contains(m) && b.wins(dice as int, m as int)) {
            let m = choose|m: usize| moves@.contains(m) && b.wins(dice as int, m as int);
            let j = choose|j: int| 0 <= j < moves@.len() && moves@[j] == m;
            lemma_move_within_victory(h, b, dice as int, m as int, d);
            lemma_move_within_victory(h, b, dice as int, best as int, d);
            assert(move_value(h, b, dice as int, moves@[j] as int, d) <= best_val);
        }
    }
    best
}

} // verus!
