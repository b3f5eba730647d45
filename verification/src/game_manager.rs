//! The board, the legal moves for a roll, and what a move does to the board.
//!
//! Cells are indexed by their place on a player's path of fourteen cells:
//!
//! ```text
//! 3  2  1  0        13  12
//! 4  5  6  7  8  9  10  11
//! 3  2  1  0        13  12
//! ```
//!
//! Places 0..4 and 12..14 are private to each player; places 4..12 are the
//! central row that both paths cross.

use rand::rngs::ThreadRng;
use rand::Rng;
use vstd::prelude::*;

verus! {

/// The thread-local generator of the `rand` crate, carried through as it is.
#[verifier::external_type_specification]
#[verifier::external_body]
pub struct ExThreadRng(rand::rngs::ThreadRng);

/// How many of the lowest `coins` binary digits of `x` are one.
pub open spec fn heads(x: nat, coins: nat) -> nat
    decreases coins,
{
    if coins == 0 {
        0
    } else {
        x % 2 + heads(x / 2, (coins - 1) as nat)
    }
}

/// Calls `rand::Rng::gen_range` on the range from zero up to `bound`, the
/// bound left out. Nothing is proved of the generator: the contract claims
/// only what the crate documents, that the value drawn lies in the range
/// asked for. An empty range makes the crate panic, so the bound is positive.
#[verifier::external_body]
fn draw_below(rng: &mut ThreadRng, bound: u32) -> (x: u32)
    requires
        bound > 0,
    ensures
        x < bound,
{
    rng.gen_range(0..bound)
}

/// The throw that a draw below sixteen stands for: each of its four binary
/// digits is one coin, and the throw is the number of heads.
pub fn count_heads(draw: u32) -> (dice: usize)
    requires
        draw < 16,
    ensures
        dice == heads(draw as nat, 4),
        dice <= 4,
{
    let mut x: u32 = draw;
    let mut dice: usize = 0;
    let mut k: usize = 0;
    while k < 4
        invariant
            k <= 4,
            dice <= k,
            x < 16,
            dice + heads(x as nat, (4 - k) as nat) == heads(draw as nat, 4),
        decreases 4 - k,
    {
        assert(x & 1 == x % 2 && x >> 1 == x / 2) by (bit_vector);
        if x & 1 == 1 {
            dice += 1;
        }
        x >>= 1;
        k += 1;
    }
    dice
}

/// Throws four coins and counts the heads: 0 to 4, with the weights 1, 4, 6,
/// 4, 1 out of sixteen when the generator is uniform.
pub fn roll_dices(rng: &mut ThreadRng) -> (dice: usize)
    ensures
        dice <= 4,
{
    count_heads(draw_below(rng, 16))
}

/// The move token that brings a new piece onto the board.
pub const ENTER: usize = 14;

/// The central rosetta: a piece standing on it cannot be taken.
pub const CENTRAL_ROSETTA: usize = 7;

/// Whether a place lies on the row shared by both paths.
pub open spec fn central(idx: int) -> bool {
    4 <= idx < 12
}

/// Whether landing on a place grants another turn.
pub open spec fn rosetta(idx: int) -> bool {
    idx == 3 || idx == 7 || idx == 13
}

/// How many places of a row hold a piece.
pub open spec fn pieces_on(row: Seq<bool>) -> nat
    decreases row.len(),
{
    if row.len() == 0 {
        0
    } else {
        pieces_on(row.drop_last()) + if row.last() { 1nat } else { 0nat }
    }
}

/// A row without a piece counts zero.
pub proof fn lemma_pieces_on_empty_row(row: Seq<bool>)
    requires
        forall|i: int| 0 <= i < row.len() ==> !row[i],
    ensures
        pieces_on(row) == 0,
    decreases row.len(),
{
    if row.len() > 0 {
        lemma_pieces_on_empty_row(row.drop_last());
    }
}

/// Changing one place of a row changes the count by that place alone.
pub proof fn lemma_pieces_on_update(row: Seq<bool>, i: int, v: bool)
    requires
        0 <= i < row.len(),
    ensures
        pieces_on(row.update(i, v)) == pieces_on(row) - (if row[i] { 1int } else { 0int }) + (if v {
            1int
        } else {
            0int
        }),
    decreases row.len(),
{
    let changed = row.update(i, v);
    if i == row.len() - 1 {
        assert(changed.drop_last() =~= row.drop_last());
    } else {
        assert(changed.drop_last() =~= row.drop_last().update(i, v));
        lemma_pieces_on_update(row.drop_last(), i, v);
    }
}

/// The board as a mathematical value.
pub struct BoardView {
    pub ready: Seq<int>,
    pub cells: Seq<Seq<bool>>,
    pub out: Seq<int>,
    pub turn: int,
}

impl BoardView {
    /// The board at the start of a game.
    pub open spec fn initial() -> BoardView {
        BoardView {
            ready: seq![7int, 7int],
            cells: Seq::new(2, |p: int| Seq::new(14, |i: int| false)),
            out: seq![0int, 0int],
            turn: 0,
        }
    }

    /// Two players, fourteen places each, and a player to move.
    pub open spec fn shaped(self) -> bool {
        &&& self.ready.len() == 2
        &&& self.out.len() == 2
        &&& self.cells.len() == 2
        &&& self.cells[0].len() == 14
        &&& self.cells[1].len() == 14
        &&& (self.turn == 0 || self.turn == 1)
    }

    /// Player `p` owns seven pieces: waiting, on the board, or borne off.
    pub open spec fn conserved(self, p: int) -> bool {
        &&& 0 <= self.ready[p]
        &&& 0 <= self.out[p]
        &&& self.ready[p] + self.out[p] + pieces_on(self.cells[p]) == 7
    }

    /// No place of the central row holds a piece of each player.
    pub open spec fn exclusive(self) -> bool {
        forall|i: int|
            #![trigger self.cells[0][i]]
            #![trigger self.cells[1][i]]
            4 <= i < 12 ==> !(self.cells[0][i] && self.cells[1][i])
    }

    /// What holds of every board that play can reach.
    pub open spec fn wf(self) -> bool {
        &&& self.shaped()
        &&& self.conserved(0)
        &&& self.conserved(1)
        &&& self.exclusive()
    }

    /// The player who is not to move.
    pub open spec fn opponent(self) -> int {
        1 - self.turn
    }

    /// The mover may bring a piece in: one is waiting and the entry place is free.
    pub open spec fn can_enter(self, dice: int) -> bool {
        &&& 1 <= dice <= 4
        &&& self.ready[self.turn] > 0
        &&& !self.cells[self.turn][dice - 1]
    }

    /// The mover may move the piece at `place` by `dice`: it bears off exactly,
    /// or lands on a place that the mover does not hold and that is not the
    /// central rosetta held by the opponent.
    pub open spec fn can_advance(self, dice: int, place: int) -> bool {
        &&& 1 <= dice <= 4
        &&& 0 <= place < 14
        &&& self.cells[self.turn][place]
        &&& (place + dice == 14 || (place + dice < 14 && !self.cells[self.turn][place + dice] && !(
        place + dice == CENTRAL_ROSETTA && self.cells[self.opponent()][CENTRAL_ROSETTA as int])))
    }

    /// Whether `place` is a legal move token for the roll `dice`.
    pub open spec fn is_legal(self, dice: int, place: int) -> bool {
        if place == ENTER {
            self.can_enter(dice)
        } else {
            self.can_advance(dice, place)
        }
    }

    /// The places below `n` from which the mover may advance, ascending.
    pub open spec fn advances_below(self, dice: int, n: int) -> Seq<usize>
        decreases n,
    {
        if n <= 0 {
            Seq::empty()
        } else if self.can_advance(dice, n - 1) {
            self.advances_below(dice, n - 1).push((n - 1) as usize)
        } else {
            self.advances_below(dice, n - 1)
        }
    }

    /// The entry token, if the mover may bring a piece in.
    pub open spec fn entry_moves(self, dice: int) -> Seq<usize> {
        if self.can_enter(dice) {
            seq![ENTER]
        } else {
            Seq::empty()
        }
    }

    /// The legal move tokens for a roll: the entry first, then the places.
    pub open spec fn legal_moves(self, dice: int) -> Seq<usize> {
        self.entry_moves(dice) + self.advances_below(dice, 14)
    }

    /// Whether the move bears off the mover's last piece.
    pub open spec fn wins(self, dice: int, place: int) -> bool {
        place != ENTER && place + dice == 14 && self.out[self.turn] + 1 == 7
    }

    /// The board after the mover plays `place` on the roll `dice`.
    pub open spec fn after_move(self, dice: int, place: int) -> BoardView {
        let p = self.turn;
        let q = self.opponent();
        if place == ENTER {
            let dest = dice - 1;
            BoardView {
                ready: self.ready.update(p, self.ready[p] - 1),
                cells: self.cells.update(p, self.cells[p].update(dest, true)),
                out: self.out,
                turn: if rosetta(dest) { p } else { q },
            }
        } else if place + dice == 14 {
            BoardView {
                ready: self.ready,
                cells: self.cells.update(p, self.cells[p].update(place, false)),
                out: self.out.update(p, self.out[p] + 1),
                turn: if self.out[p] + 1 == 7 { p } else { q },
            }
        } else {
            let dest = place + dice;
            let taken = central(dest) && self.cells[q][dest];
            let mine = self.cells[p].update(place, false).update(dest, true);
            let theirs = if taken { self.cells[q].update(dest, false) } else { self.cells[q] };
            BoardView {
                ready: if taken { self.ready.update(q, self.ready[q] + 1) } else { self.ready },
                cells: self.cells.update(p, mine).update(q, theirs),
                out: self.out,
                turn: if rosetta(dest) { p } else { q },
            }
        }
    }

    /// The same board with the other player to move.
    pub open spec fn swapped(self) -> BoardView {
        BoardView { turn: self.opponent(), ..self }
    }

    /// The same position seen from the other side: the two players' pieces
    /// change hands and the turn stays where it is.
    pub open spec fn mirrored(self) -> BoardView {
        BoardView {
            ready: seq![self.ready[1], self.ready[0]],
            cells: seq![self.cells[1], self.cells[0]],
            out: seq![self.out[1], self.out[0]],
            turn: self.turn,
        }
    }

    /// The player who is not to move has borne off every piece.
    pub open spec fn finished(self) -> bool {
        self.out[self.opponent()] == 7
    }

    /// Neither player has borne off every piece.
    pub open spec fn in_play(self) -> bool {
        self.out[0] < 7 && self.out[1] < 7
    }
}

/// Two boards with the same entries are the same board.
pub proof fn lemma_same_entries(a: BoardView, b: BoardView)
    requires
        a.shaped(),
        b.shaped(),
        a.turn == b.turn,
        forall|p: int| 0 <= p < 2 ==> a.ready[p] == b.ready[p] && a.out[p] == b.out[p],
        forall|p: int, i: int| 0 <= p < 2 && 0 <= i < 14 ==> a.cells[p][i] == b.cells[p][i],
    ensures
        a == b,
{
    assert(a.ready =~= b.ready);
    assert(a.out =~= b.out);
    assert(a.cells[0] =~= b.cells[0]);
    assert(a.cells[1] =~= b.cells[1]);
    assert(a.cells =~= b.cells);
}

/// The starting board is well formed.
pub proof fn lemma_initial_wf()
    ensures
        BoardView::initial().wf(),
        BoardView::initial().in_play(),
{
    let b = BoardView::initial();
    lemma_pieces_on_empty_row(b.cells[0]);
    lemma_pieces_on_empty_row(b.cells[1]);
}

/// Passing the turn keeps a board well formed, and passing twice gives it back.
pub proof fn lemma_swapped_wf(b: BoardView)
    requires
        b.wf(),
    ensures
        b.swapped().wf(),
        b.swapped().swapped() == b,
        b.swapped().in_play() == b.in_play(),
{
}

/// A legal move keeps every piece accounted for and keeps the central row
/// free of shared places.
pub proof fn lemma_move_preserves_wf(b: BoardView, dice: int, place: int)
    requires
        b.wf(),
        b.is_legal(dice, place),
    ensures
        b.after_move(dice, place).wf(),
{
    let p = b.turn;
    let q = b.opponent();
    let a = b.after_move(dice, place);
    if place == ENTER {
        lemma_pieces_on_update(b.cells[p], dice - 1, true);
    } else if place + dice == 14 {
        lemma_pieces_on_update(b.cells[p], place, false);
    } else {
        let dest = place + dice;
        lemma_pieces_on_update(b.cells[p], place, false);
        lemma_pieces_on_update(b.cells[p].update(place, false), dest, true);
        if central(dest) && b.cells[q][dest] {
            lemma_pieces_on_update(b.cells[q], dest, false);
        }
    }
    assert(a.conserved(0));
    assert(a.conserved(1));
    assert(a.exclusive());
}

/// Whether play can lead from `a` to `b` in one step: the turn passes, or
/// the mover plays a legal move.
pub open spec fn follows(a: BoardView, b: BoardView) -> bool {
    b == a.swapped() || exists|dice: int, place: int|
        a.is_legal(dice, place) && b == #[trigger] a.after_move(dice, place)
}

/// Whether `trace` is a course of play from the starting board.
pub open spec fn played(trace: Seq<BoardView>) -> bool {
    &&& trace.len() > 0
    &&& trace[0] == BoardView::initial()
    &&& forall|k: int| 0 < k < trace.len() ==> follows(trace[k - 1], #[trigger] trace[k])
}

/// On every board that play reaches from the start, each player's seven
/// pieces are accounted for and no place of the central row holds a piece
/// of each player.
pub proof fn lemma_reachable_wf(trace: Seq<BoardView>, k: int)
    requires
        played(trace),
        0 <= k < trace.len(),
    ensures
        trace[k].wf(),
        trace[k].conserved(0),
        trace[k].conserved(1),
        trace[k].exclusive(),
    decreases k,
{
    if k == 0 {
        lemma_initial_wf();
    } else {
        let a = trace[k - 1];
        let b = trace[k];
        lemma_reachable_wf(trace, k - 1);
        assert(follows(a, b));
        if b == a.swapped() {
            lemma_swapped_wf(a);
        } else {
            let (dice, place) = choose|dice: int, place: int|
                a.is_legal(dice, place) && b == #[trigger] a.after_move(dice, place);
            lemma_move_preserves_wf(a, dice, place);
        }
    }
}

/// While a game is in play, a legal move either wins or leaves it in play.
pub proof fn lemma_move_keeps_in_play(b: BoardView, dice: int, place: int)
    requires
        b.wf(),
        b.in_play(),
        b.is_legal(dice, place),
    ensures
        b.wins(dice, place) <==> !b.after_move(dice, place).in_play(),
        b.wins(dice, place) ==> b.after_move(dice, place).out[b.turn] == 7,
{
}

/// The places listed below `n` are exactly those from which the mover may
/// advance, each below `n`, in strictly ascending order.
pub proof fn lemma_advances_below(b: BoardView, dice: int, n: int)
    requires
        0 <= n <= 14,
    ensures
        forall|k: int|
            0 <= k < b.advances_below(dice, n).len() ==> 0 <= #[trigger] b.advances_below(
                dice,
                n,
            )[k] < n,
        forall|j: int, k: int|
            0 <= j < k < b.advances_below(dice, n).len() ==> b.advances_below(dice, n)[j]
                < b.advances_below(dice, n)[k],
        forall|m: usize| #[trigger]
            b.advances_below(dice, n).contains(m) <==> (m < n && b.can_advance(dice, m as int)),
    decreases n,
{
    if n > 0 {
        lemma_advances_below(b, dice, n - 1);
        let prev = b.advances_below(dice, n - 1);
        let cur = b.advances_below(dice, n);
        if b.can_advance(dice, n - 1) {
            assert(cur == prev.push((n - 1) as usize));
            assert forall|m: usize| cur.contains(m) <==> (m < n && b.can_advance(
                dice,
                m as int,
            )) by {
                if cur.contains(m) {
                    let k = choose|k: int| 0 <= k < cur.len() && cur[k] == m;
                    if k < prev.len() {
                        assert(prev[k] == m);
                        assert(prev.contains(m));
                    }
                }
                if m < n && b.can_advance(dice, m as int) {
                    if m == n - 1 {
                        assert(cur[prev.len() as int] == m);
                    } else {
                        assert(prev.contains(m));
                        let k = choose|k: int| 0 <= k < prev.len() && prev[k] == m;
                        assert(cur[k] == m);
                    }
                }
            }
        }
    }
}

/// The move list holds exactly the legal tokens; the entry token, when
/// present, comes first and only there; the places that follow ascend strictly.
pub proof fn lemma_legal_moves_ordered(b: BoardView, dice: int)
    ensures
        forall|m: usize| #[trigger]
            b.legal_moves(dice).contains(m) <==> (m <= ENTER && b.is_legal(dice, m as int)),
        b.can_enter(dice) <==> (b.legal_moves(dice).len() > 0 && b.legal_moves(dice)[0] == ENTER),
        forall|k: int| 1 <= k < b.legal_moves(dice).len() ==> #[trigger] b.legal_moves(dice)[k] < ENTER,
        forall|j: int, k: int|
            0 <= j < k < b.legal_moves(dice).len() && b.legal_moves(dice)[j] != ENTER
                ==> b.legal_moves(dice)[j] < b.legal_moves(dice)[k],
        dice == 0 ==> b.legal_moves(dice).len() == 0,
{
    lemma_advances_below(b, dice, 14);
    let entry = b.entry_moves(dice);
    let adv = b.advances_below(dice, 14);
    let all = b.legal_moves(dice);
    assert forall|k: int| 0 <= k < all.len() implies (if k < entry.len() {
        all[k] == ENTER
    } else {
        all[k] == adv[k - entry.len()] && all[k] < 14
    }) by {}
    assert forall|m: usize| all.contains(m) <==> (m <= ENTER && b.is_legal(dice, m as int)) by {
        if all.contains(m) {
            let k = choose|k: int| 0 <= k < all.len() && all[k] == m;
            if k >= entry.len() {
                assert(adv[k - entry.len()] == m);
                assert(adv.contains(m));
            }
        }
        if m <= ENTER && b.is_legal(dice, m as int) {
            if m == ENTER {
                assert(all[0] == m);
            } else {
                assert(adv.contains(m));
                let k = choose|k: int| 0 <= k < adv.len() && adv[k] == m;
                assert(all[k + entry.len()] == m);
            }
        }
    }
    assert forall|j: int, k: int| 0 <= j < k < all.len() && all[j] != ENTER implies all[j]
        < all[k] by {
        assert(all[j] == adv[j - entry.len()]);
        assert(all[k] == adv[k - entry.len()]);
    }
    if dice == 0 {
        lemma_no_advance(b, dice, 14);
    }
}

/// A roll outside 1..=4 moves no piece.
pub proof fn lemma_no_advance(b: BoardView, dice: int, n: int)
    requires
        !(1 <= dice <= 4),
    ensures
        b.advances_below(dice, n).len() == 0,
    decreases n,
{
    if n > 0 {
        lemma_no_advance(b, dice, n - 1);
    }
}

/// The state of a game: a plain value that search copies freely.
#[derive(Clone, Copy, Debug)]
pub struct Board {
    /// Pieces that each player has not yet brought in.
    pub ready: [u8; 2],
    /// `cells[p][i]` holds whether player `p` has a piece at place `i` of their path.
    pub cells: [[bool; 14]; 2],
    /// Pieces that each player has borne off.
    pub out: [u8; 2],
    /// The player to move, 0 or 1.
    pub turn: usize,
}

impl View for Board {
    type V = BoardView;

    open spec fn view(&self) -> BoardView {
        BoardView {
            ready: Seq::new(2, |p: int| self.ready[p] as int),
            cells: Seq::new(2, |p: int| self.cells[p]@),
            out: Seq::new(2, |p: int| self.out[p] as int),
            turn: self.turn as int,
        }
    }
}

impl Default for Board {
    /// A new game: seven pieces waiting on each side, player 0 to move.
    fn default() -> (b: Board)
        ensures
            b@ == BoardView::initial(),
            b.wf(),
    {
        let b = Board { ready: [7, 7], cells: [[false; 14]; 2], out: [0, 0], turn: 0 };
        proof {
            lemma_initial_wf();
            lemma_same_entries(b@, BoardView::initial());
        }
        b
    }
}

impl Board {
    /// The board keeps its pieces accounted for and its central row exclusive.
    pub open spec fn wf(&self) -> bool {
        self@.wf()
    }

    /// The legal move tokens for the roll `dice`, the entry token first when a
    /// piece may come in, then the places of the pieces that may advance, in
    /// ascending order. A roll of zero allows nothing.
    pub fn possible_moves(&self, dice: usize) -> (moves: Vec<usize>)
        requires
            self.turn < 2,
            dice <= 4,
        ensures
            moves@ == self@.legal_moves(dice as int),
            dice == 0 ==> moves@.len() == 0,
            moves@.len() <= 15,
    {
        let mut moves: Vec<usize> = Vec::new();
        if dice == 0 {
            proof {
                lemma_no_advance(self@, 0, 14);
                assert(moves@ =~= self@.legal_moves(0));
            }
            return moves;
        }
        if self.ready[self.turn] > 0 && !self.cells[self.turn][dice - 1] {
            moves.push(ENTER);
        }
        assert(moves@ =~= self@.entry_moves(dice as int));
        let mut i: usize = 0;
        while i < 14
            invariant
                i <= 14,
                self.turn < 2,
                1 <= dice <= 4,
                moves@ == self@.entry_moves(dice as int) + self@.advances_below(
                    dice as int,
                    i as int,
                ),
                self@.advances_below(dice as int, i as int).len() <= i,
            decreases 14 - i,
        {
            let ghost before = self@.advances_below(dice as int, i as int);
            let here = self.cells[self.turn][i];
            let bears_off = i + dice == 14;
            let lands = i + dice < 14 && !self.cells[self.turn][i + dice] && !(i + dice
                == CENTRAL_ROSETTA && self.cells[1 - self.turn][CENTRAL_ROSETTA]);
            if here && (bears_off || lands) {
                moves.push(i);
                assert(moves@ =~= self@.entry_moves(dice as int) + before.push(i));
            }
            i += 1;
        }
        moves
    }

    /// Plays the token `place` on the roll `dice` for the player to move and
    /// says whether that player has now borne off every piece.
    ///
    /// The token must be one of `possible_moves(dice)`; this is not checked
    /// again here.
    pub fn perform_move(&mut self, dice: usize, place: usize) -> (won: bool)
        requires
            old(self).wf(),
            !old(self)@.finished(),
            old(self)@.is_legal(dice as int, place as int),
        ensures
            final(self)@ == old(self)@.after_move(dice as int, place as int),
            won == old(self)@.wins(dice as int, place as int),
            final(self).wf(),
    {
        let ghost before = self@;
        let turn = self.turn;
        proof {
            lemma_move_preserves_wf(before, dice as int, place as int);
        }
        if place == ENTER {
            self.cells[turn][dice - 1] = true;
            self.ready[turn] -= 1;
            if !is_rosetta(dice - 1) {
                self.change_turn();
            }
            proof {
                lemma_same_entries(self@, before.after_move(dice as int, place as int));
            }
            false
        } else if place + dice == 14 {
            self.cells[turn][place] = false;
            self.out[turn] += 1;
            let won = self.out[turn] == 7;
            if !won {
                self.change_turn();
            }
            proof {
                lemma_same_entries(self@, before.after_move(dice as int, place as int));
            }
            won
        } else {
            self.cells[turn][place] = false;
            self.cells[turn][place + dice] = true;
            if is_central(place + dice) && self.cells[1 - turn][place + dice] {
                self.cells[1 - turn][place + dice] = false;
                self.ready[1 - turn] += 1;
            }
            if !is_rosetta(place + dice) {
                self.change_turn();
            }
            proof {
                lemma_same_entries(self@, before.after_move(dice as int, place as int));
            }
            false
        }
    }

    /// Passes the turn to the other player, as when a roll allows no move.
    pub fn change_turn(&mut self)
        requires
            old(self).turn < 2,
        ensures
            final(self)@ == old(self)@.swapped(),
            final(self).ready == old(self).ready,
            final(self).cells == old(self).cells,
            final(self).out == old(self).out,
            final(self).turn == 1 - old(self).turn,
            old(self).wf() ==> final(self).wf(),
    {
        self.turn = 1 - self.turn;
        proof {
            lemma_same_entries(self@, old(self)@.swapped());
            if old(self).wf() {
                lemma_swapped_wf(old(self)@);
            }
        }
    }

    /// Whether the player who is not to move has borne off all seven pieces.
    pub fn finished(&self) -> (r: bool)
        requires
            self.turn < 2,
        ensures
            r == self@.finished(),
    {
        self.out[1 - self.turn] == 7
    }
}

/// Whether a place lies on the row shared by both paths.
pub fn is_central(idx: usize) -> (r: bool)
    ensures
        r == central(idx as int),
{
    4 <= idx && idx < 12
}

/// Whether landing on a place grants another turn.
pub fn is_rosetta(idx: usize) -> (r: bool)
    ensures
        r == rosetta(idx as int),
{
    match idx {
        3 | 7 | 13 => true,
        _ => false,
    }
}

} // verus!
