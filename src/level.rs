//! Level assignment.
//!
//! A new node's top layer is `floor(-ln(r) / ln(M))` for a uniform `r` in
//! `(0, 1]`. The draw is a `u32` value `u` standing for `r = (u + 1) / 2^32`;
//! then the level is the largest `l` with `(u + 1) * M^l <= 2^32`, which this
//! module computes exactly in integers. Each layer so holds about `1/M` of
//! the nodes of the layer below.
use vstd::prelude::*;

verus! {

/// The number of distinct draws, `2^32`.
pub const DRAW_SPAN: u64 = 0x1_0000_0000;

pub open spec fn power(b: nat, e: nat) -> nat
    decreases e,
{
    if e == 0 {
        1
    } else {
        b * power(b, (e - 1) as nat)
    }
}

/// Level `l` is reached by the draw `draw` when the degree cap is `m`.
pub open spec fn level_reached(draw: u32, m: nat, l: nat) -> bool {
    (draw as nat + 1) * power(m, l) <= DRAW_SPAN as nat
}

/// The top layer for the draw: the highest level it reaches.
pub open spec fn is_level_of(draw: u32, m: nat, l: nat) -> bool {
    level_reached(draw, m, l) && !level_reached(draw, m, l + 1)
}

/// The top layer for the draw.
pub open spec fn level_of(draw: u32, m: nat) -> nat {
    choose|l: nat| is_level_of(draw, m, l)
}

/// A draw has one top layer.
pub proof fn lemma_level_unique(draw: u32, m: nat, l1: nat, l2: nat)
    requires
        m >= 1,
        is_level_of(draw, m, l1),
        is_level_of(draw, m, l2),
    ensures
        l1 == l2,
{
    if l1 < l2 {
        lemma_power_grows(m, l1 + 1, l2);
        let a = power(m, l1 + 1);
        let b = power(m, l2);
        assert((draw as nat + 1) * a <= (draw as nat + 1) * b) by (nonlinear_arith)
            requires
                a <= b,
        ;
    } else if l2 < l1 {
        lemma_power_grows(m, l2 + 1, l1);
        let a = power(m, l2 + 1);
        let b = power(m, l1);
        assert((draw as nat + 1) * a <= (draw as nat + 1) * b) by (nonlinear_arith)
            requires
                a <= b,
        ;
    }
}

proof fn lemma_power_grows(b: nat, e1: nat, e2: nat)
    requires
        b >= 1,
        e1 <= e2,
    ensures
        power(b, e1) <= power(b, e2),
    decreases e2,
{
    if e2 > e1 {
        lemma_power_grows(b, e1, (e2 - 1) as nat);
        assert(power(b, e2) == b * power(b, (e2 - 1) as nat));
        assert(b * power(b, (e2 - 1) as nat) >= power(b, (e2 - 1) as nat)) by (nonlinear_arith)
            requires
                b >= 1,
        ;
    }
}

/// The top layer of a new node for the draw `draw` under the degree cap `m`.
pub fn level_for_draw(draw: u32, m: usize) -> (l: usize)
    requires
        m >= 2,
    ensures
        is_level_of(draw, m as nat, l as nat),
        l == level_of(draw, m as nat),
        l <= 32,
{
    let mut t: u64 = draw as u64 + 1;
    let mut l: usize = 0;
    assert(power(m as nat, 0) == 1);
    assert(power(2, 0) == 1);
    loop
        invariant
            m >= 2,
            1 <= t <= DRAW_SPAN,
            t as nat == (draw as nat + 1) * power(m as nat, l as nat),
            power(2, l as nat) <= t,
            l <= 32,
        ensures
            is_level_of(draw, m as nat, l as nat),
            l <= 32,
        decreases DRAW_SPAN - t,
    {
        let ghost pm = power(m as nat, l as nat);
        let ghost p2 = power(2, l as nat);
        assert(power(m as nat, (l + 1) as nat) == m * pm);
        assert((draw as nat + 1) * (m * pm) == (t as nat) * (m as nat)) by (nonlinear_arith)
            requires
                t as nat == (draw as nat + 1) * pm,
        ;
        assert((t as nat) * (m as nat) <= 0x1_0000_0000 * 0x1_0000_0000_0000_0000) by (nonlinear_arith)
            requires
                t <= DRAW_SPAN,
                m < 0x1_0000_0000_0000_0000,
        ;
        let prod: u128 = (t as u128) * (m as u128);
        if prod > DRAW_SPAN as u128 {
            break;
        }
        assert(t * m >= 2 * t) by (nonlinear_arith)
            requires
                m >= 2,
                t >= 1,
        ;
        if l >= 32 {
            proof {
                reveal_with_fuel(power, 33);
                assert(power(2, 32) == DRAW_SPAN);
                lemma_power_grows(2, 32, l as nat);
            }
        }
        t = prod as u64;
        l = l + 1;
        assert(power(2, l as nat) == 2 * p2);
    }
    proof {
        let c = level_of(draw, m as nat);
        assert(is_level_of(draw, m as nat, c));
        lemma_level_unique(draw, m as nat, l as nat, c);
    }
    l
}

} // verus!
