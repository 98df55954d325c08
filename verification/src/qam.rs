//! The square QAM grid.
//!
//! An `m`-QAM constellation with `m = side * side` places symbol `s` in
//! column `s % side` and row `s / side` of a square grid centred on the
//! origin. Levels are given doubled, so that they stay integers: column `c`
//! sits at in-phase level `2 * c - (side - 1)`, that is at `c - (side - 1) / 2`
//! grid steps from the centre; rows likewise on the quadrature axis.

use vstd::arithmetic::div_mod::*;
use vstd::arithmetic::mul::*;
use vstd::prelude::*;

verus! {

/// A point of the square QAM grid: its symbol and its doubled in-phase and
/// quadrature levels.
#[derive(Debug, Clone, Copy, PartialEq, Eq, Structural)]
pub struct QamPoint {
    pub symbol: u32,
    pub in_phase: i64,
    pub quadrature: i64,
}

/// The doubled level of grid index `index` on an axis of `side` positions.
pub open spec fn axis_level(index: int, side: int) -> int {
    2 * index - (side - 1)
}

/// The grid point of symbol `s` on a `side` by `side` grid.
pub open spec fn grid_point(s: int, side: int) -> QamPoint {
    QamPoint {
        symbol: s as u32,
        in_phase: axis_level(s % side, side) as i64,
        quadrature: axis_level(s / side, side) as i64,
    }
}

/// The whole grid, in symbol order.
pub open spec fn qam_grid_spec(side: nat) -> Seq<QamPoint> {
    Seq::new(side * side, |s: int| grid_point(s, side as int))
}

/// Whether `m` is the order of a square constellation: a perfect square.
pub open spec fn is_square_order(m: nat) -> bool {
    exists|side: nat| #[trigger] (side * side) == m
}

/// Sum of the in-phase levels of a sequence of points.
pub open spec fn in_phase_total(points: Seq<QamPoint>) -> int
    decreases points.len(),
{
    if points.len() == 0 {
        0
    } else {
        in_phase_total(points.drop_last()) + points.last().in_phase
    }
}

/// Sum of the quadrature levels of a sequence of points.
pub open spec fn quadrature_total(points: Seq<QamPoint>) -> int
    decreases points.len(),
{
    if points.len() == 0 {
        0
    } else {
        quadrature_total(points.drop_last()) + points.last().quadrature
    }
}

/// The side of the square grid for a constellation of order `m`, or `None`
/// when `m` is not a perfect square.
pub fn qam_side(m: u32) -> (r: Option<u32>)
    ensures
        match r {
            Some(side) => side * side == m,
            None => !is_square_order(m as nat),
        },
{
    let target = m as u64;
    let mut s: u64 = 0;
    let mut next_square: u64 = 1;
    while next_square <= target
        invariant
            target == m as u64,
            s * s <= target,
            s < 0x10000,
            next_square == (s + 1) * (s + 1),
        decreases 0x10000 - s,
    {
        proof {
            assert(s + 1 < 0x10000) by (nonlinear_arith)
                requires
                    (s + 1) * (s + 1) <= target,
                    target <= 0xffff_ffff,
                    s >= 0,
            ;
            assert((s + 2) * (s + 2) == next_square + 2 * s + 3) by (nonlinear_arith)
                requires
                    next_square == (s + 1) * (s + 1),
            ;
        }
        s = s + 1;
        next_square = next_square + 2 * s + 1;
    }
    if s * s == target {
        Some(s as u32)
    } else {
        proof {
            assert forall|t: nat| #[trigger] (t * t) != m as nat by {
                if t <= s {
                    assert(t * t <= s * s) by (nonlinear_arith)
                        requires
                            t <= s,
                    ;
                } else {
                    assert(t * t >= (s + 1) * (s + 1)) by (nonlinear_arith)
                        requires
                            t >= s + 1,
                    ;
                }
            }
        }
        None
    }
}

/// The doubled level of grid index `index` on an axis of `side` positions.
pub fn qam_level(index: u32, side: u32) -> (r: i64)
    requires
        index < side,
    ensures
        r == axis_level(index as int, side as int),
{
    2 * (index as i64) - (side as i64 - 1)
}

/// The points of the square QAM grid with `side` positions per axis, in symbol
/// order: symbol `s` in column `s % side` and row `s / side`.
pub fn qam_grid(side: u32) -> (r: Vec<QamPoint>)
    requires
        side * side <= u32::MAX,
    ensures
        r@ == qam_grid_spec(side as nat),
        r@.len() == side * side,
        forall|s: int|
            0 <= s < r@.len() ==> (#[trigger] r@[s]).symbol == s && r@[s].in_phase == 2 * (s % (
            side as int)) - (side - 1) && r@[s].quadrature == 2 * (s / (side as int)) - (side - 1),
{
    let mut r: Vec<QamPoint> = Vec::new();
    let mut row: u32 = 0;
    let mut symbol: u32 = 0;
    while row < side
        invariant
            side * side <= u32::MAX,
            row <= side,
            symbol == row * side,
            r@.len() == symbol,
            forall|s: int| 0 <= s < r@.len() ==> #[trigger] r@[s] == grid_point(s, side as int),
        decreases side - row,
    {
        proof {
            lemma_mul_inequality(row as int + 1, side as int, side as int);
            lemma_mul_is_distributive_add_other_way(side as int, row as int, 1);
        }
        let quadrature = qam_level(row, side);
        let mut col: u32 = 0;
        while col < side
            invariant
                side * side <= u32::MAX,
                row < side,
                col <= side,
                (row + 1) * side <= side * side,
                (row + 1) * side == row * side + side,
                symbol == row * side + col,
                r@.len() == symbol,
                quadrature == axis_level(row as int, side as int),
                forall|s: int| 0 <= s < r@.len() ==> #[trigger] r@[s] == grid_point(s, side as int),
            decreases side - col,
        {
            proof {
                lemma_fundamental_div_mod_converse(symbol as int, side as int, row as int, col as int);
            }
            let in_phase = qam_level(col, side);
            r.push(QamPoint { symbol, in_phase, quadrature });
            symbol = symbol + 1;
            col = col + 1;
        }
        row = row + 1;
    }
    proof {
        assert(r@ =~= qam_grid_spec(side as nat));
        assert forall|s: int| 0 <= s < r@.len() implies (#[trigger] r@[s]).symbol == s && r@[s].in_phase
            == 2 * (s % (side as int)) - (side - 1) && r@[s].quadrature == 2 * (s / (side as int)) - (side
            - 1) by {
            lemma_grid_level_in_range(side as nat, s);
        }
    }
    r
}

/// The in-phase levels of the first `n` grid points add up to the levels of
/// the first `n % side` columns, `(n % side) * (n % side - side)`.
proof fn lemma_in_phase_prefix(side: nat, n: nat)
    requires
        side > 0,
        side * side <= u32::MAX,
        n <= side * side,
    ensures
        in_phase_total(qam_grid_spec(side).take(n as int)) == (n % side) * ((n % side) - side),
    decreases n,
{
    let g = qam_grid_spec(side);
    if n == 0 {
        assert(g.take(0) =~= Seq::<QamPoint>::empty());
    } else {
        let k = (n - 1) as nat;
        lemma_in_phase_prefix(side, k);
        assert(g.take(n as int).drop_last() =~= g.take(k as int));
        let c = k % side;
        lemma_fundamental_div_mod(k as int, side as int);
        lemma_mod_pos_bound(k as int, side as int);
        let q = k / side;
        if c + 1 < side {
            assert(n == q * side + (c + 1)) by (nonlinear_arith)
                requires
                    k == side * q + c,
                    n == k + 1,
            ;
            lemma_fundamental_div_mod_converse(n as int, side as int, q as int, (c + 1) as int);
        } else {
            assert(n == (q + 1) * side + 0) by (nonlinear_arith)
                requires
                    k == side * q + c,
                    c + 1 == side,
                    n == k + 1,
            ;
            lemma_fundamental_div_mod_converse(n as int, side as int, (q + 1) as int, 0);
        }
        assert(g.take(n as int).last() == grid_point(k as int, side as int));
        lemma_grid_level_in_range(side, k as int);
        assert(in_phase_total(g.take(n as int)) == in_phase_total(g.take(k as int)) + axis_level(
            c as int,
            side as int,
        ));
        assert(c * (c - side) + axis_level(c as int, side as int) == (c + 1) * (c + 1 - side))
            by (nonlinear_arith);
        if c + 1 == side {
            assert((c + 1) * (c + 1 - side) == 0) by (nonlinear_arith)
                requires
                    c + 1 == side,
            ;
        }
    }
}

/// The quadrature levels of the first `n` grid points: the rows completed so
/// far contribute `side` times their level each, the current row `n % side`
/// times its level.
proof fn lemma_quadrature_prefix(side: nat, n: nat)
    requires
        side > 0,
        side * side <= u32::MAX,
        n <= side * side,
    ensures
        quadrature_total(qam_grid_spec(side).take(n as int)) == (n % side) * axis_level(
            (n / side) as int,
            side as int,
        ) + side * ((n / side) * ((n / side) - side)),
    decreases n,
{
    let g = qam_grid_spec(side);
    if n == 0 {
        assert(g.take(0) =~= Seq::<QamPoint>::empty());
        lemma_small_mod(0, side);
        lemma_basic_div(0, side as int);
        assert(side * (0 * (0 - side)) == 0) by (nonlinear_arith);
    } else {
        let k = (n - 1) as nat;
        lemma_quadrature_prefix(side, k);
        assert(g.take(n as int).drop_last() =~= g.take(k as int));
        let c = k % side;
        let q = k / side;
        lemma_fundamental_div_mod(k as int, side as int);
        lemma_mod_pos_bound(k as int, side as int);
        assert(g.take(n as int).last() == grid_point(k as int, side as int));
        lemma_grid_level_in_range(side, k as int);
        let lq = axis_level(q as int, side as int);
        assert(quadrature_total(g.take(n as int)) == quadrature_total(g.take(k as int)) + lq);
        assert(quadrature_total(g.take(k as int)) == c * lq + side * (q * (q - side)));
        if c + 1 < side {
            assert(n == q * side + (c + 1)) by (nonlinear_arith)
                requires
                    k == side * q + c,
                    n == k + 1,
            ;
            lemma_fundamental_div_mod_converse(n as int, side as int, q as int, (c + 1) as int);
            assert(c * lq + side * (q * (q - side)) + lq == (c + 1) * lq + side * (q * (q - side)))
                by (nonlinear_arith);
            assert(n % side == c + 1 && n / side == q);
            assert(quadrature_total(g.take(n as int)) == (n % side) * axis_level(
                (n / side) as int,
                side as int,
            ) + side * ((n / side) * ((n / side) - side)));
        } else {
            assert(n == (q + 1) * side + 0) by (nonlinear_arith)
                requires
                    k == side * q + c,
                    c + 1 == side,
                    n == k + 1,
            ;
            lemma_fundamental_div_mod_converse(n as int, side as int, (q + 1) as int, 0);
            assert(c * lq + side * (q * (q - side)) + lq == 0 * axis_level((q + 1) as int, side as int) + side
                * ((q + 1) * (q + 1 - side))) by (nonlinear_arith)
                requires
                    c + 1 == side,
                    lq == 2 * q - (side - 1),
            ;
            assert(n % side == 0 && n / side == q + 1);
            assert(quadrature_total(g.take(n as int)) == (n % side) * axis_level(
                (n / side) as int,
                side as int,
            ) + side * ((n / side) * ((n / side) - side)));
        }
    }
}

/// The square QAM constellation is centred on the origin: its in-phase
/// levels, and its quadrature levels, each add up to zero.
pub proof fn lemma_grid_centered(side: nat)
    requires
        side > 0,
        side * side <= u32::MAX,
    ensures
        in_phase_total(qam_grid_spec(side)) == 0,
        quadrature_total(qam_grid_spec(side)) == 0,
{
    let n = side * side;
    lemma_in_phase_prefix(side, n);
    lemma_quadrature_prefix(side, n);
    assert(qam_grid_spec(side).take(n as int) =~= qam_grid_spec(side));
    lemma_fundamental_div_mod_converse(n as int, side as int, side as int, 0);
    assert((n % side) * ((n % side) - side) == 0) by (nonlinear_arith)
        requires
            n % side == 0,
    ;
    assert((n % side) * axis_level((n / side) as int, side as int) + side * ((n / side) * ((n / side)
        - side)) == 0) by (nonlinear_arith)
        requires
            n % side == 0,
            n / side == side,
    ;
}

/// The square QAM constellation is symmetric about the origin: symbol
/// `side * side - 1 - s` sits opposite symbol `s`, with both levels negated.
pub proof fn lemma_grid_point_symmetric(side: nat, s: int)
    requires
        side > 0,
        side * side <= u32::MAX,
        0 <= s < side * side,
    ensures
        qam_grid_spec(side)[side * side - 1 - s].in_phase == -qam_grid_spec(side)[s].in_phase,
        qam_grid_spec(side)[side * side - 1 - s].quadrature == -qam_grid_spec(side)[s].quadrature,
{
    let sd = side as int;
    lemma_fundamental_div_mod(s, sd);
    lemma_mod_pos_bound(s, sd);
    let c = s % sd;
    let q = s / sd;
    lemma_div_pos_is_pos(s, sd);
    lemma_mul_is_commutative(sd, q);
    if q >= sd {
        lemma_mul_inequality(sd, q, sd);
    }
    let t = sd * sd - 1 - s;
    assert(t == (sd - 1 - q) * sd + (sd - 1 - c)) by (nonlinear_arith)
        requires
            s == q * sd + c,
            t == sd * sd - 1 - s,
    ;
    lemma_fundamental_div_mod_converse(t, sd, sd - 1 - q, sd - 1 - c);
    lemma_grid_level_in_range(side, s);
    lemma_grid_level_in_range(side, t);
}

/// Distinct symbols of the grid sit at distinct points.
pub proof fn lemma_grid_points_distinct(side: nat, s: int, t: int)
    requires
        side > 0,
        side * side <= u32::MAX,
        0 <= s < side * side,
        0 <= t < side * side,
        s != t,
    ensures
        qam_grid_spec(side)[s].in_phase != qam_grid_spec(side)[t].in_phase
            || qam_grid_spec(side)[s].quadrature != qam_grid_spec(side)[t].quadrature,
{
    let sd = side as int;
    lemma_fundamental_div_mod(s, sd);
    lemma_fundamental_div_mod(t, sd);
    lemma_mod_pos_bound(s, sd);
    lemma_mod_pos_bound(t, sd);
    lemma_div_pos_is_pos(s, sd);
    lemma_div_pos_is_pos(t, sd);
    lemma_mul_is_commutative(sd, s / sd);
    lemma_mul_is_commutative(sd, t / sd);
    lemma_grid_level_in_range(side, s);
    lemma_grid_level_in_range(side, t);
}

/// Both levels of a grid point fit comfortably in an `i64`.
proof fn lemma_grid_level_in_range(side: nat, s: int)
    requires
        side > 0,
        0 <= s < side * side,
        side * side <= u32::MAX,
    ensures
        -0x1_0000_0000 < axis_level(s % (side as int), side as int) < 0x1_0000_0000,
        -0x1_0000_0000 < axis_level(s / (side as int), side as int) < 0x1_0000_0000,
{
    let sd = side as int;
    lemma_mod_pos_bound(s, sd);
    lemma_div_pos_is_pos(s, sd);
    lemma_div_is_ordered(s, sd * sd, sd);
    lemma_div_multiples_vanish(sd, sd);
    assert(sd <= sd * sd) by (nonlinear_arith)
        requires
            sd >= 1,
    ;
}

/// Every point of the grid is labelled with its own position, read off the
/// grid row by row: the label of point `s` is `s`, that is the row
/// `(quadrature + side - 1) / 2` times `side` plus the column
/// `(in_phase + side - 1) / 2`, both recovered from the point's levels. So the
/// labels run through `0 .. side * side` in order, each exactly once, and
/// detecting a point gives back the symbol that was placed there.
pub proof fn lemma_grid_labels_are_positions(side: nat, s: int)
    requires
        side > 0,
        side * side <= u32::MAX,
        0 <= s < side * side,
    ensures
        qam_grid_spec(side)[s].symbol == s,
        0 <= (qam_grid_spec(side)[s].in_phase + side - 1) / 2 < side,
        0 <= (qam_grid_spec(side)[s].quadrature + side - 1) / 2 < side,
        qam_grid_spec(side)[s].symbol == ((qam_grid_spec(side)[s].quadrature + side - 1) / 2) * side + (
        qam_grid_spec(side)[s].in_phase + side - 1) / 2,
{
    let sd = side as int;
    lemma_grid_level_in_range(side, s);
    lemma_fundamental_div_mod(s, sd);
    lemma_mod_pos_bound(s, sd);
    lemma_div_pos_is_pos(s, sd);
    lemma_mul_is_commutative(sd, s / sd);
    if s / sd >= sd {
        lemma_mul_inequality(sd, s / sd, sd);
    }
    let p = qam_grid_spec(side)[s];
    assert(p.in_phase + side - 1 == 2 * (s % sd));
    assert(p.quadrature + side - 1 == 2 * (s / sd));
}

} // verus!
