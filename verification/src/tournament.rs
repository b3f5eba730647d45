//! Players that choose among the legal moves, and one turn of a match
//! between two of them.

use crate::game_manager::{
    central, is_central, is_rosetta, lemma_legal_moves_ordered, lemma_move_keeps_in_play,
    lemma_swapped_wf, rosetta, Board, BoardView, ENTER,
};
use crate::strategy::{choose_best, dominated, first_best, Heuristic, MAX_DEPTH};
use rand::rngs::ThreadRng;
use rand::seq::SliceRandom;
use vstd::prelude::*;

verus! {

/// Someone who picks a move when a roll leaves a choice.
pub trait Player {
    /// What must hold of the player before it is asked, and still holds after.
    spec fn prepared(&self) -> bool;

    /// Picks a token for the roll `dice` on `board`, which has a legal move.
    /// Nothing is promised of the token: whoever asks checks it.
    fn choose_move(&mut self, board: &Board, dice: usize) -> (place: usize)
        requires
            old(self).prepared(),
            board.wf(),
            board@.in_play(),
            dice <= 4,
            board@.legal_moves(dice as int).len() > 0,
        ensures
            final(self).prepared(),
    ;
}

/// Always plays the last move of the list: the piece that is furthest along.
pub struct LastMove {}

impl Player for LastMove {
    open spec fn prepared(&self) -> bool {
        true
    }

    fn choose_move(&mut self, board: &Board, dice: usize) -> (place: usize)
        ensures
            place == board@.legal_moves(dice as int).last(),
    {
        let moves = board.possible_moves(dice);
        moves[moves.len() - 1]
    }
}

/// Calls `rand::seq::SliceRandom::choose` on the move list. As the crate
/// documents, an empty list gives nothing and any other list gives one of its
/// elements; which one is left open.
#[verifier::external_body]
fn choose_from(moves: &Vec<usize>, rng: &mut ThreadRng) -> (r: Option<usize>)
    ensures
        r is None <==> moves@.len() == 0,
        r matches Some(m) ==> moves@.contains(m),
{
    moves.choose(rng).copied()
}

/// Plays any legal move, drawn with the thread's random generator.
pub struct RandMove {
    pub rng: ThreadRng,
}

impl Player for RandMove {
    open spec fn prepared(&self) -> bool {
        true
    }

    fn choose_move(&mut self, board: &Board, dice: usize) -> (place: usize)
        ensures
            board@.legal_moves(dice as int).contains(place),
    {
        let moves = board.possible_moves(dice);
        match choose_from(&moves, &mut self.rng) {
            Some(m) => m,
            None => moves[0],
        }
    }
}

/// Whether playing `place` takes a piece of the opponent.
pub open spec fn takes(b: BoardView, dice: int, place: int) -> bool {
    central(place + dice) && b.cells[b.opponent()][place + dice]
}

/// Whether playing `place` lands on a rosetta.
pub open spec fn lands_on_rosetta(dice: int, place: int) -> bool {
    rosetta(place + dice) || (place == ENTER && dice == 4)
}

/// The last of the moves that takes a piece, if one does.
pub open spec fn last_taking(b: BoardView, dice: int, moves: Seq<usize>) -> Option<usize>
    decreases moves.len(),
{
    if moves.len() == 0 {
        None
    } else if takes(b, dice, moves.last() as int) {
        Some(moves.last())
    } else {
        last_taking(b, dice, moves.drop_last())
    }
}

/// The last of the moves that lands on a rosetta, if one does.
pub open spec fn last_on_rosetta(dice: int, moves: Seq<usize>) -> Option<usize>
    decreases moves.len(),
{
    if moves.len() == 0 {
        None
    } else if lands_on_rosetta(dice, moves.last() as int) {
        Some(moves.last())
    } else {
        last_on_rosetta(dice, moves.drop_last())
    }
}

/// The greedy choice: the last move that takes a piece; failing that, the
/// last that lands on a rosetta; failing that, the last move.
pub open spec fn greedy_choice(b: BoardView, dice: int) -> usize {
    let moves = b.legal_moves(dice);
    match last_taking(b, dice, moves) {
        Some(m) => m,
        None => match last_on_rosetta(dice, moves) {
            Some(m) => m,
            None => moves.last(),
        },
    }
}

/// Takes a piece when it can, else plays again when it can, else plays the
/// piece that is furthest along.
pub struct Greedy {}

impl Player for Greedy {
    open spec fn prepared(&self) -> bool {
        true
    }

    fn choose_move(&mut self, board: &Board, dice: usize) -> (place: usize)
        ensures
            place == greedy_choice(board@, dice as int),
    {
        let moves = board.possible_moves(dice);
        let adv = 1 - board.turn;
        let ghost b = board@;
        proof {
            lemma_legal_moves_ordered(b, dice as int);
            assert forall|j: int| 0 <= j < moves@.len() implies #[trigger] moves@[j] <= ENTER by {
                assert(moves@.contains(moves@[j]));
            }
            assert(moves@.take(moves@.len() as int) =~= moves@);
        }
        let mut k: usize = moves.len();
        while k > 0
            invariant
                k <= moves.len(),
                dice <= 4,
                board.turn < 2,
                adv == 1 - board.turn,
                b == board@,
                moves@ == b.legal_moves(dice as int),
                forall|j: int| 0 <= j < moves@.len() ==> #[trigger] moves@[j] <= ENTER,
                last_taking(b, dice as int, moves@) == last_taking(
                    b,
                    dice as int,
                    moves@.take(k as int),
                ),
            decreases k,
        {
            let place = moves[k - 1];
            proof {
                assert(moves@.take(k as int).last() == place);
                assert(moves@.take(k as int).drop_last() =~= moves@.take(k - 1));
            }
            if is_central(place + dice) && board.cells[adv][place + dice] {
                return place;
            }
            k -= 1;
        }
        proof {
            assert(moves@.take(moves@.len() as int) =~= moves@);
        }
        let mut k: usize = moves.len();
        while k > 0
            invariant
                k <= moves.len(),
                dice <= 4,
                b == board@,
                moves@ == b.legal_moves(dice as int),
                last_taking(b, dice as int, moves@) is None,
                forall|j: int| 0 <= j < moves@.len() ==> #[trigger] moves@[j] <= ENTER,
                last_on_rosetta(dice as int, moves@) == last_on_rosetta(
                    dice as int,
                    moves@.take(k as int),
                ),
            decreases k,
        {
            let place = moves[k - 1];
            proof {
                assert(moves@.take(k as int).last() == place);
                assert(moves@.take(k as int).drop_last() =~= moves@.take(k - 1));
            }
            if is_rosetta(place + dice) || (place == ENTER && dice == 4) {
                return place;
            }
            k -= 1;
        }
        moves[moves.len() - 1]
    }
}

/// Plays the move that an expectimax search of the given depth prefers.
pub struct ExpectimaxPlayer<H: Heuristic> {
    pub h: H,
    pub depth: u32,
}

impl<H: Heuristic> Player for ExpectimaxPlayer<H> {
    /// The depth is at least one ply and no more than the search can hold.
    open spec fn prepared(&self) -> bool {
        1 <= self.depth <= MAX_DEPTH + 1
    }

    fn choose_move(&mut self, board: &Board, dice: usize) -> (place: usize)
        ensures
            *final(self) == *old(self),
            board@.is_legal(dice as int, place as int),
            first_best(&old(self).h, board@, dice as int, place, (old(self).depth - 1) as nat),
            dominated(&old(self).h) && (exists|m: usize|
                board@.legal_moves(dice as int).contains(m) && board@.wins(dice as int, m as int))
                ==> board@.wins(dice as int, place as int),
    {
        choose_best(&self.h, board, dice, self.depth)
    }
}

/// What one roll of the dice came to.
#[derive(Clone, Copy, Debug, PartialEq, Eq)]
pub enum Turn {
    /// The roll allowed no move and the turn passed to the other player.
    Passed,
    /// The token was played and the game goes on.
    Moved { place: usize },
    /// The token was played and bore off the mover's last piece.
    Won { place: usize },
    /// The player asked chose a token that is not legal; the board is untouched.
    Refused { place: usize },
}

/// Whether `place` is one of `moves`.
pub fn is_listed(moves: &Vec<usize>, place: usize) -> (r: bool)
    ensures
        r == moves@.contains(place),
{
    let mut k: usize = 0;
    while k < moves.len()
        invariant
            k <= moves.len(),
            forall|j: int| 0 <= j < k ==> moves@[j] != place,
        decreases moves.len() - k,
    {
        if moves[k] == place {
            return true;
        }
        k += 1;
    }
    false
}

/// What the board is after the token `place` is put forward for the roll
/// `dice`: played if it is legal, refused if it is not.
pub open spec fn settled(b: BoardView, dice: int, place: usize) -> (BoardView, Turn) {
    if !b.is_legal(dice, place as int) {
        (b, Turn::Refused { place })
    } else if b.wins(dice, place as int) {
        (b.after_move(dice, place as int), Turn::Won { place })
    } else {
        (b.after_move(dice, place as int), Turn::Moved { place })
    }
}

/// Plays the token `place` if it is legal for the roll `dice`, and leaves
/// the board alone if it is not.
pub fn settle(board: &mut Board, dice: usize, place: usize) -> (t: Turn)
    requires
        old(board).wf(),
        old(board)@.in_play(),
        dice <= 4,
    ensures
        (final(board)@, t) == settled(old(board)@, dice as int, place),
        final(board).wf(),
        final(board)@.in_play() <==> !(t is Won),
{
    let moves = board.possible_moves(dice);
    proof {
        lemma_legal_moves_ordered(board@, dice as int);
    }
    if !is_listed(&moves, place) {
        return Turn::Refused { place };
    }
    proof {
        lemma_move_keeps_in_play(board@, dice as int, place as int);
    }
    if board.perform_move(dice, place) {
        Turn::Won { place }
    } else {
        Turn::Moved { place }
    }
}

/// One turn of a match: on a roll without a legal move the turn passes; a
/// single legal move is played without asking; otherwise the player to move
/// is asked, `light` for player 0 and `dark` for player 1, and the answer is
/// settled.
pub fn play_turn<A: Player, B: Player>(
    board: &mut Board,
    dice: usize,
    light: &mut A,
    dark: &mut B,
) -> (t: Turn)
    requires
        old(board).wf(),
        old(board)@.in_play(),
        dice <= 4,
        old(light).prepared(),
        old(dark).prepared(),
    ensures
        final(light).prepared(),
        final(dark).prepared(),
        final(board).wf(),
        final(board)@.in_play() <==> !(t is Won),
        old(board)@.legal_moves(dice as int).len() == 0 ==> t == Turn::Passed && final(board)@ == old(
            board,
        )@.swapped(),
        old(board)@.legal_moves(dice as int).len() == 1 ==> (final(board)@, t) == settled(
            old(board)@,
            dice as int,
            old(board)@.legal_moves(dice as int)[0],
        ),
        old(board)@.legal_moves(dice as int).len() > 0 ==> exists|place: usize|
            (final(board)@, t) == #[trigger] settled(old(board)@, dice as int, place),
        t is Refused ==> old(board)@.legal_moves(dice as int).len() > 1,
        old(board)@.legal_moves(dice as int).len() <= 1 || old(board).turn != 0 ==> *final(light)
            == *old(light),
        old(board)@.legal_moves(dice as int).len() <= 1 || old(board).turn == 0 ==> *final(dark)
            == *old(dark),
{
    let moves = board.possible_moves(dice);
    if moves.len() == 0 {
        proof {
            lemma_swapped_wf(board@);
        }
        board.change_turn();
        return Turn::Passed;
    }
    let place = if moves.len() == 1 {
        moves[0]
    } else if board.turn == 0 {
        light.choose_move(board, dice)
    } else {
        dark.choose_move(board, dice)
    };
    proof {
        lemma_legal_moves_ordered(board@, dice as int);
        assert(moves@.contains(moves@[0]));
    }
    let ghost before = board@;
    let t = settle(board, dice, place);
    assert((board@, t) == settled(before, dice as int, place));
    t
}

} // verus!
