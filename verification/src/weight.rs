//! The candidate scoring function of the generator.
//!
//! A candidate's weight rises with the time since it was last scheduled and
//! falls with its own flexibility, its total historical load, and — with
//! cubic severity — the load it already carries within the run being built,
//! so that a third same-run assignment is essentially prohibited. The
//! formula works in integers, scaled so that every term is exact: weight =
//! 20·weeksSince − flexibility − 4·totalLoad − 20·(2 + currentLoad)³. The
//! current-run load is capped at an astronomically dominant value before it
//! is cubed, which keeps the arithmetic exact on every input; the cap is far
//! beyond any load a run can reach (two assignments per slot).

use vstd::prelude::*;

verus! {

/// Cap on the current-run load before it is cubed.
pub const CURRENT_LOAD_CAP: u64 = 0x100000;

/// Weeks since the subject last worked: one less than the hop count of its
/// last appearance, or a large constant when it never appeared.
pub open spec fn weeks_since(last: Option<int>) -> int {
    match last {
        Option::Some(k) => k - 1,
        Option::None => 99,
    }
}

/// The scoring formula over unbounded integers.
pub open spec fn weight_spec(last: Option<int>, flexibility: int, total: int, current: int) -> int {
    let ws = weeks_since(last);
    let c = if current > CURRENT_LOAD_CAP {
        CURRENT_LOAD_CAP as int
    } else {
        current
    };
    20 * ws - flexibility - 4 * total - 20 * ((2 + c) * (2 + c) * (2 + c))
}

/// The abstract value of an optional machine counter.
pub open spec fn opt_int(o: Option<u64>) -> Option<int> {
    match o {
        Option::Some(k) => Option::Some(k as int),
        Option::None => Option::None,
    }
}

/// Score one candidate from its four aggregates.
pub fn weight(last: Option<u64>, flexibility: u64, total: u64, current: u64) -> (r: i128)
    ensures
        r == weight_spec(opt_int(last), flexibility as int, total as int, current as int),
{
    let ws: i128 = match last {
        Option::Some(k) => k as i128 - 1,
        Option::None => 99,
    };
    let f: i128 = flexibility as i128;
    let t: i128 = total as i128;
    let c: i128 = if current > CURRENT_LOAD_CAP {
        CURRENT_LOAD_CAP as i128
    } else {
        current as i128
    };
    let base: i128 = 2 + c;
    proof {
        assert(0 < base <= 0x100002);
        assert(base * base <= 0x100002 * 0x100002) by (nonlinear_arith)
            requires
                0 < base <= 0x100002,
        ;
        assert(base * base >= 4) by (nonlinear_arith)
            requires
                base >= 2,
        ;
    }
    let sq: i128 = base * base;
    proof {
        assert(sq * base <= 0x100004000004 * 0x100002) by (nonlinear_arith)
            requires
                0 <= sq <= 0x100004000004 && 0 < base <= 0x100002,
        ;
        assert(sq * base >= 8) by (nonlinear_arith)
            requires
                sq >= 4 && base >= 2,
        ;
    }
    let cube: i128 = sq * base;
    20 * ws - f - 4 * t - 20 * cube
}

/// Law: with identical flexibility, total load and current-run load, the
/// candidate with the larger weeks-since value weighs strictly more, and is
/// therefore assigned preferentially.
pub proof fn lemma_weight_recency(
    l1: Option<int>,
    l2: Option<int>,
    flexibility: int,
    total: int,
    current: int,
)
    requires
        weeks_since(l1) > weeks_since(l2),
    ensures
        weight_spec(l1, flexibility, total, current) > weight_spec(l2, flexibility, total, current),
{
}

/// The weight falls strictly as the total historical load rises, all else
/// equal.
pub proof fn lemma_weight_load(last: Option<int>, flexibility: int, t1: int, t2: int, current: int)
    requires
        t1 > t2,
    ensures
        weight_spec(last, flexibility, t1, current) < weight_spec(last, flexibility, t2, current),
{
}

/// The weight falls strictly as the current-run load rises, all else equal,
/// up to the cap; the penalty is cubic in the load.
pub proof fn lemma_weight_current(
    last: Option<int>,
    flexibility: int,
    total: int,
    c1: int,
    c2: int,
)
    requires
        0 <= c2 < c1 <= CURRENT_LOAD_CAP,
    ensures
        weight_spec(last, flexibility, total, c1) < weight_spec(last, flexibility, total, c2),
{
    assert((2 + c1) * (2 + c1) * (2 + c1) > (2 + c2) * (2 + c2) * (2 + c2)) by (nonlinear_arith)
        requires
            0 <= c2 < c1,
    ;
}

} // verus!
