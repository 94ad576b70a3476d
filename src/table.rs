use vstd::prelude::*;
use crate::rates::{MAX_ORDER_COST, MAX_ORDER_LMD};

verus! {

/// Probability mass of certainty: weights are counted in units of `1 / WEIGHT_ONE`.
pub const WEIGHT_ONE: u64 = 1099511627776;

/// One state of the sweep: the probability mass that sits there, and the yields
/// that this mass has accumulated, each already multiplied by the mass.
#[derive(Clone, Copy, Debug)]
pub struct Cell {
    pub weight: u64,
    /// First resource gained, times the weight.
    pub lmd: u64,
    /// Second resource spent, times the weight.
    pub cost: u64,
}

pub open spec fn empty_cell() -> Cell {
    Cell { weight: 0, lmd: 0, cost: 0 }
}

/// Position of the state at time slot `t` and queue depth `d` in the flat table.
pub open spec fn idx(t: int, d: int, cap: int) -> int {
    t * cap + d
}

/// A cell at depth `d` holds no more yield than `d + 1` orders could give its mass.
pub open spec fn cell_ok(c: Cell, d: int) -> bool {
    &&& c.lmd <= MAX_ORDER_LMD * (d + 1) * c.weight
    &&& c.cost <= MAX_ORDER_COST * (d + 1) * c.weight
}

pub open spec fn table_ok(tbl: Seq<Cell>, cap: int) -> bool {
    forall|k: int| 0 <= k < tbl.len() ==> cell_ok(#[trigger] tbl[k], k % cap)
}

/// Total weight of the cells at positions `lo..hi`.
pub open spec fn wsum(s: Seq<Cell>, lo: int, hi: int) -> int
    decreases hi - lo,
{
    if hi <= lo {
        0
    } else {
        wsum(s, lo, hi - 1) + s[hi - 1].weight
    }
}

/// Total first-resource yield of the cells at positions `lo..hi`.
pub open spec fn lsum(s: Seq<Cell>, lo: int, hi: int) -> int
    decreases hi - lo,
{
    if hi <= lo {
        0
    } else {
        lsum(s, lo, hi - 1) + s[hi - 1].lmd
    }
}

/// Total second-resource cost of the cells at positions `lo..hi`.
pub open spec fn csum(s: Seq<Cell>, lo: int, hi: int) -> int
    decreases hi - lo,
{
    if hi <= lo {
        0
    } else {
        csum(s, lo, hi - 1) + s[hi - 1].cost
    }
}

pub proof fn lemma_wsum_update(s: Seq<Cell>, lo: int, hi: int, k: int, c: Cell)
    requires
        0 <= lo,
        hi <= s.len(),
        0 <= k < s.len(),
    ensures
        wsum(s.update(k, c), lo, hi) == wsum(s, lo, hi) + if lo <= k < hi {
            c.weight - s[k].weight
        } else {
            0
        },
    decreases hi - lo,
{
    if hi > lo {
        lemma_wsum_update(s, lo, hi - 1, k, c);
    }
}

pub proof fn lemma_wsum_split(s: Seq<Cell>, lo: int, mid: int, hi: int)
    requires
        lo <= mid <= hi,
    ensures
        wsum(s, lo, hi) == wsum(s, lo, mid) + wsum(s, mid, hi),
    decreases hi - mid,
{
    if hi > mid {
        lemma_wsum_split(s, lo, mid, hi - 1);
    }
}

pub proof fn lemma_wsum_nonneg(s: Seq<Cell>, lo: int, hi: int)
    ensures
        wsum(s, lo, hi) >= 0,
    decreases hi - lo,
{
    if hi > lo {
        lemma_wsum_nonneg(s, lo, hi - 1);
    }
}

pub proof fn lemma_wsum_elem(s: Seq<Cell>, lo: int, hi: int, k: int)
    requires
        lo <= k < hi,
    ensures
        s[k].weight <= wsum(s, lo, hi),
    decreases hi - lo,
{
    if k < hi - 1 {
        lemma_wsum_elem(s, lo, hi - 1, k);
    } else {
        lemma_wsum_nonneg(s, lo, hi - 1);
    }
}

pub proof fn lemma_wsum_zero(s: Seq<Cell>, lo: int, hi: int)
    requires
        forall|k: int| lo <= k < hi ==> (#[trigger] s[k]).weight == 0,
    ensures
        wsum(s, lo, hi) == 0,
    decreases hi - lo,
{
    if hi > lo {
        lemma_wsum_zero(s, lo, hi - 1);
    }
}

/// Facts on the position of the state `(t, d)` in a table of `h + 1` rows of `cap` cells.
pub proof fn lemma_idx(t: int, d: int, cap: int, h: int)
    requires
        0 <= t <= h,
        0 <= d < cap,
    ensures
        0 <= t * cap <= idx(t, d, cap) < (t + 1) * cap,
        (t + 1) * cap == t * cap + cap,
        (t + 1) * cap <= (h + 1) * cap,
        idx(t, d, cap) % cap == d,
{
    assert((t + 1) * cap == t * cap + cap) by (nonlinear_arith);
    assert(0 <= t * cap) by (nonlinear_arith)
        requires
            0 <= t,
            0 < cap,
    ;
    assert((t + 1) * cap <= (h + 1) * cap) by (nonlinear_arith)
        requires
            t <= h,
            cap > 0,
    ;
    vstd::arithmetic::div_mod::lemma_fundamental_div_mod_converse(t * cap + d, cap, t, d);
}

/// `a <= bound * w` carries over to the part `a * m / w` that follows a share `m` of `w`.
pub proof fn lemma_share_bound(a: int, bound: int, w: int, m: int)
    requires
        0 <= a <= bound * w,
        w > 0,
        m >= 0,
        bound >= 0,
    ensures
        0 <= a * m / w <= bound * m,
{
    assert(a * m <= w * (bound * m)) by (nonlinear_arith)
        requires
            a <= bound * w,
            m >= 0,
    ;
    assert(a * m >= 0) by (nonlinear_arith)
        requires
            a >= 0,
            m >= 0,
    ;
    vstd::arithmetic::div_mod::lemma_div_is_ordered(a * m, w * (bound * m), w);
    vstd::arithmetic::div_mod::lemma_div_multiples_vanish(bound * m, w);
    vstd::arithmetic::div_mod::lemma_div_pos_is_pos(a * m, w);
}

} // verus!
