//! The linear evaluator and the features of a board on which it is built.
//!
//! A linear evaluator weighs, from the side of the player to move, the
//! difference in pieces waiting, the difference in pieces borne off and, for
//! each place of the path, who holds it. Its value is the weighted sum of
//! these features plus a constant for having the move; a training step moves
//! each weight along its feature.
//!
//! Weights and values are fixed-point numbers: whole multiples of one part
//! in `UNIT`.

use crate::game_manager::{Board, BoardView};
use crate::strategy::Heuristic;
use vstd::prelude::*;

verus! {

/// What a linear evaluator sees of a board, from the mover's side.
#[derive(Clone, Copy, Debug, PartialEq, Eq)]
pub struct Features {
    /// Pieces waiting: the mover's less the opponent's.
    pub ready: i32,
    /// For each place, 1 for a piece of the mover and -1 for one of the opponent.
    pub cells: [i32; 14],
    /// Pieces borne off: the mover's less the opponent's.
    pub out: i32,
}

/// The features as mathematical values.
pub struct FeaturesView {
    pub ready: int,
    pub cells: Seq<int>,
    pub out: int,
}

impl View for Features {
    type V = FeaturesView;

    open spec fn view(&self) -> FeaturesView {
        FeaturesView {
            ready: self.ready as int,
            cells: Seq::new(14, |i: int| self.cells[i] as int),
            out: self.out as int,
        }
    }
}

/// One for a piece, zero for none.
pub open spec fn piece(held: bool) -> int {
    if held {
        1
    } else {
        0
    }
}

impl FeaturesView {
    /// The features of a board for the player to move.
    pub open spec fn of(b: BoardView) -> FeaturesView {
        let p = b.turn;
        let q = b.opponent();
        FeaturesView {
            ready: b.ready[p] - b.ready[q],
            cells: Seq::new(14, |i: int| piece(b.cells[p][i]) - piece(b.cells[q][i])),
            out: b.out[p] - b.out[q],
        }
    }

    /// Every feature turned into its opposite.
    pub open spec fn negated(self) -> FeaturesView {
        FeaturesView {
            ready: -self.ready,
            cells: Seq::new(14, |i: int| -self.cells[i]),
            out: -self.out,
        }
    }

    /// The weighted sum of the features over the first `n` places.
    pub open spec fn cells_dot(self, weights: Seq<int>, n: int) -> int
        decreases n,
    {
        if n <= 0 {
            0
        } else {
            self.cells_dot(weights, n - 1) + weights[n - 1] * self.cells[n - 1]
        }
    }

    /// The value that a linear evaluator with the given weights gives.
    pub open spec fn weighed(
        self,
        val_ready: int,
        val_cells: Seq<int>,
        val_out: int,
        player_adv: int,
    ) -> int {
        player_adv + val_ready * self.ready + self.cells_dot(val_cells, 14) + val_out * self.out
    }
}

/// To the other player every feature is the opposite, whether the turn
/// passes or the two players' pieces change hands.
pub proof fn lemma_features_negate(b: BoardView)
    requires
        b.shaped(),
    ensures
        FeaturesView::of(b.swapped()) == FeaturesView::of(b).negated(),
        FeaturesView::of(b.mirrored()) == FeaturesView::of(b).negated(),
{
    let f = FeaturesView::of(b).negated();
    assert(FeaturesView::of(b.swapped()).cells =~= f.cells);
    assert(FeaturesView::of(b.mirrored()).cells =~= f.cells);
}

/// Negating the features negates the weighted sum over the places.
pub proof fn lemma_cells_dot_negated(f: FeaturesView, weights: Seq<int>, n: int)
    requires
        0 <= n <= 14,
    ensures
        f.negated().cells_dot(weights, n) == -f.cells_dot(weights, n),
    decreases n,
{
    if n > 0 {
        lemma_cells_dot_negated(f, weights, n - 1);
        assert(weights[n - 1] * (-f.cells[n - 1]) == -(weights[n - 1] * f.cells[n - 1]))
            by (nonlinear_arith);
    }
}

/// A linear evaluator gives the other player the opposite value, but for the
/// constant that it grants for having the move, which both players get.
pub proof fn lemma_linear_antisymmetric(
    b: BoardView,
    val_ready: int,
    val_cells: Seq<int>,
    val_out: int,
    player_adv: int,
)
    requires
        b.shaped(),
    ensures
        FeaturesView::of(b.swapped()).weighed(val_ready, val_cells, val_out, player_adv)
            - player_adv == -(FeaturesView::of(b).weighed(val_ready, val_cells, val_out, player_adv)
            - player_adv),
{
    let f = FeaturesView::of(b);
    lemma_features_negate(b);
    lemma_cells_dot_negated(f, val_cells, 14);
    assert(val_ready * (-f.ready) == -(val_ready * f.ready)) by (nonlinear_arith);
    assert(val_out * (-f.out) == -(val_out * f.out)) by (nonlinear_arith);
}

/// The features of `board` for the player to move.
pub fn features(board: &Board) -> (f: Features)
    requires
        board.turn < 2,
    ensures
        f@ == FeaturesView::of(board@),
{
    let player = board.turn;
    let adv = 1 - player;
    let mut cells: [i32; 14] = [0;14];
    let mut i: usize = 0;
    while i < 14
        invariant
            i <= 14,
            player == board.turn,
            adv == 1 - player,
            player < 2,
            forall|j: int|
                0 <= j < i ==> #[trigger] cells[j] == piece(board.cells[player as int][j]) - piece(
                    board.cells[adv as int][j],
                ),
        decreases 14 - i,
    {
        let mut c: i32 = 0;
        if board.cells[player][i] {
            c += 1;
        }
        if board.cells[adv][i] {
            c -= 1;
        }
        cells[i] = c;
        i += 1;
    }
    let f = Features {
        ready: board.ready[player] as i32 - board.ready[adv] as i32,
        cells,
        out: board.out[player] as i32 - board.out[adv] as i32,
    };
    proof {
        assert(f@.cells =~= FeaturesView::of(board@).cells);
    }
    f
}

/// The fixed-point representation of one.
pub const UNIT: i64 = 0x100_0000;

/// A linear evaluator: one weight for the pieces waiting, one for each place
/// of the path, one for the pieces borne off, and the advantage of having the
/// move. Each is a whole number of parts in `UNIT`.
#[derive(Clone, Copy, Debug, Default)]
pub struct LinearEval0 {
    pub val_ready: i32,
    pub val_cells: [i32; 14],
    pub val_out: i32,
    pub player_adv: i32,
}

/// The quotient rounded toward zero.
pub open spec fn toward_zero(n: int, d: int) -> int {
    if n >= 0 {
        n / d
    } else {
        -((-n) / d)
    }
}

/// A weight after it has moved by `delta` along its feature.
pub open spec fn moved(weight: int, feature: int, delta: int) -> int {
    weight + feature * delta
}

/// Whether a value can be held as a weight.
pub open spec fn fits(v: int) -> bool {
    i32::MIN <= v <= i32::MAX
}

/// The largest target, either way, that a training step takes.
pub open spec fn target_limit() -> int {
    0x1_0000_0000_0000_0000
}

impl LinearEval0 {
    /// The weights of the places as mathematical values.
    pub open spec fn cell_weights(&self) -> Seq<int> {
        Seq::new(14, |i: int| self.val_cells[i] as int)
    }

    /// How far a training step moves the weights: the learning rate `alpha`,
    /// in parts of `UNIT`, times the gap between the target and the value.
    pub open spec fn step_size(&self, b: BoardView, target: int, alpha: int) -> int {
        toward_zero(alpha * (target - self.value(b)), UNIT as int)
    }

    /// Whether every weight can still be held after moving by `delta`.
    pub open spec fn step_fits(&self, b: BoardView, delta: int) -> bool {
        let f = FeaturesView::of(b);
        &&& fits(moved(self.val_ready as int, f.ready, delta))
        &&& fits(moved(self.val_out as int, f.out, delta))
        &&& fits(self.player_adv + delta)
        &&& forall|i: int|
            0 <= i < 14 ==> fits(#[trigger] moved(self.val_cells[i] as int, f.cells[i], delta))
    }

    /// Whether `self` is what `before` becomes by a training step on `b`:
    /// every weight moved by the step size along its feature, the advantage
    /// of the move by the step size itself; or, where a weight would no
    /// longer fit, nothing changed.
    pub open spec fn is_step_of(
        &self,
        before: LinearEval0,
        b: BoardView,
        target: int,
        alpha: int,
    ) -> bool {
        let f = FeaturesView::of(b);
        let delta = before.step_size(b, target, alpha);
        if before.step_fits(b, delta) {
            &&& self.val_ready == moved(before.val_ready as int, f.ready, delta)
            &&& self.val_out == moved(before.val_out as int, f.out, delta)
            &&& self.player_adv == before.player_adv + delta
            &&& forall|i: int|
                0 <= i < 14 ==> self.val_cells[i] == #[trigger] moved(
                    before.val_cells[i] as int,
                    f.cells[i],
                    delta,
                )
        } else {
            *self == before
        }
    }

    /// One training step: shifts the value of `board` towards `target` by
    /// moving every weight along its feature. Says whether the weights were
    /// moved; they are left alone where one would no longer fit.
    pub fn step(&mut self, board: &Board, target: i128, alpha: i32) -> (done: bool)
        requires
            board.turn < 2,
            -target_limit() <= target <= target_limit(),
        ensures
            done == old(self).step_fits(
                board@,
                old(self).step_size(board@, target as int, alpha as int),
            ),
            final(self).is_step_of(*old(self), board@, target as int, alpha as int),
    {
        let f = features(board);
        let ghost fv = FeaturesView::of(board@);
        let gap: i128 = target - self.eval(board) as i128;
        proof {
            lemma_product_bound(alpha as int, gap as int, 0x8000_0000, 0x2_0000_0000_0000_0000);
        }
        let num: i128 = alpha as i128 * gap;
        let delta: i128 = if num >= 0 {
            num / (UNIT as i128)
        } else {
            -((-num) / (UNIT as i128))
        };
        assert(delta == self.step_size(board@, target as int, alpha as int));
        assert(-0x1_0000_0000_0000_0000_0000_0000 <= delta <= 0x1_0000_0000_0000_0000_0000_0000);
        proof {
            lemma_product_bound(f.ready as int, delta as int, 255, 0x1_0000_0000_0000_0000_0000_0000);
            lemma_product_bound(f.out as int, delta as int, 255, 0x1_0000_0000_0000_0000_0000_0000);
        }
        let ready: i128 = self.val_ready as i128 + f.ready as i128 * delta;
        let out: i128 = self.val_out as i128 + f.out as i128 * delta;
        let adv: i128 = self.player_adv as i128 + delta;
        if !held(ready) || !held(out) || !held(adv) {
            return false;
        }
        let mut cells: [i32; 14] = self.val_cells;
        let mut i: usize = 0;
        while i < 14
            invariant
                i <= 14,
                f@ == fv,
                fv == FeaturesView::of(board@),
                *self == *old(self),
                delta == self.step_size(board@, target as int, alpha as int),
                -0x1_0000_0000_0000_0000_0000_0000 <= delta <= 0x1_0000_0000_0000_0000_0000_0000,
                forall|j: int| 0 <= j < 14 ==> -1 <= #[trigger] fv.cells[j] <= 1,
                forall|j: int|
                    0 <= j < i ==> cells[j] == #[trigger] moved(
                        self.val_cells[j] as int,
                        fv.cells[j],
                        delta as int,
                    ),
            decreases 14 - i,
        {
            proof {
                assert(f.cells[i as int] == fv.cells[i as int]);
                lemma_product_bound(
                    f.cells[i as int] as int,
                    delta as int,
                    1,
                    0x1_0000_0000_0000_0000_0000_0000,
                );
            }
            let c: i128 = self.val_cells[i] as i128 + f.cells[i] as i128 * delta;
            if !held(c) {
                assert(!fits(moved(self.val_cells[i as int] as int, fv.cells[i as int], delta as int)));
                return false;
            }
            cells[i] = c as i32;
            i += 1;
        }
        self.val_ready = ready as i32;
        self.val_out = out as i32;
        self.player_adv = adv as i32;
        self.val_cells = cells;
        true
    }
}

/// Whether a value can be held as a weight.
pub fn held(v: i128) -> (r: bool)
    ensures
        r == fits(v as int),
{
    -0x8000_0000 <= v && v <= 0x7fff_ffff
}

/// A product is bounded by the product of the bounds of its factors.
pub proof fn lemma_product_bound(a: int, b: int, bound_a: int, bound_b: int)
    requires
        -bound_a <= a <= bound_a,
        -bound_b <= b <= bound_b,
    ensures
        -(bound_a * bound_b) <= a * b <= bound_a * bound_b,
{
    assert(-(bound_a * bound_b) <= a * b <= bound_a * bound_b) by (nonlinear_arith)
        requires
            -bound_a <= a <= bound_a,
            -bound_b <= b <= bound_b,
    ;
}

impl Heuristic for LinearEval0 {
    open spec fn victory_value() -> int {
        UNIT as int
    }

    open spec fn value(&self, board: BoardView) -> int {
        FeaturesView::of(board).weighed(
            self.val_ready as int,
            self.cell_weights(),
            self.val_out as int,
            self.player_adv as int,
        )
    }

    fn victory() -> (v: i64) {
        UNIT
    }

    fn eval(&self, board: &Board) -> (v: i64) {
        let f = features(board);
        let ghost fv = FeaturesView::of(board@);
        let ghost weights = self.cell_weights();
        proof {
            lemma_product_bound(self.val_ready as int, f.ready as int, 0x8000_0000, 255);
            lemma_product_bound(self.val_out as int, f.out as int, 0x8000_0000, 255);
        }
        let mut val: i64 = self.player_adv as i64;
        val += self.val_ready as i64 * f.ready as i64;
        let mut i: usize = 0;
        while i < 14
            invariant
                i <= 14,
                f@ == fv,
                weights == self.cell_weights(),
                forall|j: int| 0 <= j < 14 ==> -1 <= #[trigger] fv.cells[j] <= 1,
                val == self.player_adv + self.val_ready * fv.ready + fv.cells_dot(weights, i as int),
                -0x8000_0000 * (257 + i) <= val <= 0x8000_0000 * (257 + i),
            decreases 14 - i,
        {
            proof {
                assert(f.cells[i as int] == fv.cells[i as int]);
                lemma_product_bound(self.val_cells[i as int] as int, f.cells[i as int] as int, 0x8000_0000, 1);
            }
            val += self.val_cells[i] as i64 * f.cells[i] as i64;
            i += 1;
        }
        val += self.val_out as i64 * f.out as i64;
        val
    }
}

/// The linear evaluator of exact arithmetic gives the other player the
/// opposite value, but for the advantage of having the move. With no such
/// advantage it is antisymmetric.
pub proof fn lemma_linear_eval_antisymmetric(h: &LinearEval0, b: BoardView)
    requires
        b.shaped(),
    ensures
        h.value(b.swapped()) - h.player_adv == -(h.value(b) - h.player_adv),
        h.player_adv == 0 ==> h.value(b.swapped()) == -h.value(b),
{
    lemma_linear_antisymmetric(
        b,
        h.val_ready as int,
        h.cell_weights(),
        h.val_out as int,
        h.player_adv as int,
    );
}

} // verus!
