use vstd::prelude::*;
use crate::model::{HighRarityOperatorPhase, TradingPostProductionInput};
use crate::rates::{
    bonus_of, cost_of, depth_speed, lemma_mix_total, lemma_ramp_monotonic, lmd_of, mix_share,
    order_bonus, order_cost, order_lmd, order_seconds, order_share, partial_yield, ramp_factor,
    ramp_of, scaled_seconds, MAX_ORDER_COST, MAX_ORDER_LMD, MIX_ONE,
};
use crate::table::{
    cell_ok, empty_cell, idx, lemma_idx, lemma_share_bound, lemma_wsum_elem, lemma_wsum_nonneg,
    lemma_wsum_split, lemma_wsum_update, lemma_wsum_zero, table_ok, wsum, Cell, WEIGHT_ONE,
};

verus! {

/// Longest window the engine accepts, in minutes.
pub const MAX_MINUTES: i32 = 5400;

/// Last time slot of the longest window: `MAX_MINUTES` in seconds.
pub const MAX_HORIZON: i64 = 324000;

/// Largest queue capacity the engine accepts.
pub const MAX_CAPACITY: i32 = 38;

/// Inputs the engine is defined on: a window of one minute up to `MAX_MINUTES`,
/// a capacity up to `MAX_CAPACITY`, and a positive speed at every queue depth
/// at which an order can start.
pub open spec fn valid_input(inp: TradingPostProductionInput) -> bool {
    &&& 1 <= inp.duration_minutes <= MAX_MINUTES
    &&& 0 <= inp.capacity <= MAX_CAPACITY
    &&& inp.speed100 >= 1
    &&& (inp.jaye_phase == HighRarityOperatorPhase::E0 && inp.capacity >= 2 ==> inp.speed100 > 4
        * (inp.capacity - 1))
}

/// Last time slot of the sweep: the window in seconds.
pub open spec fn horizon(inp: TradingPostProductionInput) -> int {
    inp.duration_minutes * 60
}

pub open spec fn cap_of(inp: TradingPostProductionInput) -> int {
    inp.capacity as int
}

pub open spec fn table_len(inp: TradingPostProductionInput) -> int {
    (horizon(inp) + 1) * cap_of(inp)
}

/// Part of the mass `w` that goes to order type `otype` at time `t`: types 1 and 2
/// take their share rounded down, type 0 takes the rest.
pub open spec fn split_share(inp: TradingPostProductionInput, t: int, w: int, otype: int) -> int {
    let r = ramp_of(inp.tailoring_ramped@, t);
    let m1 = w * mix_share(inp.phase, 1, r) / MIX_ONE as int;
    let m2 = w * mix_share(inp.phase, 2, r) / MIX_ONE as int;
    if otype == 0 {
        w - m1 - m2
    } else if otype == 1 {
        m1
    } else {
        m2
    }
}

/// Duration in seconds of an order of type `otype` started at queue depth `d`.
pub open spec fn duration_at(inp: TradingPostProductionInput, otype: int, d: int) -> int {
    scaled_seconds(otype, depth_speed(inp.jaye_phase, inp.speed100 as int, d))
}

/// The table after mass `mv` of the state `(t, d)`, whose contents are `src`,
/// starts an order of type `otype`. The mass lands one depth deeper when the order
/// completes, or at the horizon if it would complete there or later. It carries its
/// share of `src`'s yields, plus the order's yields: in full when the order
/// completes, in proportion to the time worked when it is cut off at the horizon,
/// except the bonus, which is always granted in full.
pub open spec fn deliver_spec(
    tbl: Seq<Cell>,
    inp: TradingPostProductionInput,
    t: int,
    d: int,
    src: Cell,
    otype: int,
    mv: int,
) -> Seq<Cell> {
    let h = horizon(inp);
    let dur = duration_at(inp, otype, d);
    let land = t + dur;
    let y = order_lmd(inp.proviso_phase, otype);
    let b = order_bonus(inp.tequila_phase, otype);
    let c = order_cost(inp.proviso_phase, otype);
    let row = if land < h { land } else { h };
    let gain = if land < h { (y + b) * mv } else { y * mv * (h - t) / dur + b * mv };
    let spend = if land < h { c * mv } else { c * mv * (h - t) / dur };
    let k = idx(row, d + 1, cap_of(inp));
    let old = tbl[k];
    tbl.update(
        k,
        Cell {
            weight: (old.weight + mv) as u64,
            lmd: (old.lmd + src.lmd * mv / src.weight as int + gain) as u64,
            cost: (old.cost + src.cost * mv / src.weight as int + spend) as u64,
        },
    )
}

proof fn lemma_cell_grow(
    old: Cell,
    d: int,
    mv: int,
    carried_l: int,
    carried_c: int,
    gain: int,
    spend: int,
)
    requires
        0 <= d,
        d + 2 <= MAX_CAPACITY,
        cell_ok(old, d + 1),
        0 <= mv,
        old.weight + mv <= WEIGHT_ONE,
        0 <= carried_l <= MAX_ORDER_LMD * (d + 1) * mv,
        0 <= carried_c <= MAX_ORDER_COST * (d + 1) * mv,
        0 <= gain <= MAX_ORDER_LMD * mv,
        0 <= spend <= MAX_ORDER_COST * mv,
    ensures
        old.lmd + carried_l + gain <= MAX_ORDER_LMD * (d + 2) * (old.weight + mv),
        old.cost + carried_c + spend <= MAX_ORDER_COST * (d + 2) * (old.weight + mv),
        MAX_ORDER_LMD * (d + 2) * (old.weight + mv) <= MAX_ORDER_LMD * MAX_CAPACITY * WEIGHT_ONE,
        MAX_ORDER_COST * (d + 2) * (old.weight + mv) <= MAX_ORDER_COST * MAX_CAPACITY
            * WEIGHT_ONE,
{
    let w = old.weight as int;
    assert(MAX_ORDER_LMD * (d + 1) * mv + MAX_ORDER_LMD * mv == MAX_ORDER_LMD * (d + 2) * mv)
        by (nonlinear_arith);
    assert(MAX_ORDER_COST * (d + 1) * mv + MAX_ORDER_COST * mv == MAX_ORDER_COST * (d + 2) * mv)
        by (nonlinear_arith);
    assert(MAX_ORDER_LMD * (d + 2) * w + MAX_ORDER_LMD * (d + 2) * mv == MAX_ORDER_LMD * (d + 2)
        * (w + mv)) by (nonlinear_arith);
    assert(MAX_ORDER_COST * (d + 2) * w + MAX_ORDER_COST * (d + 2) * mv == MAX_ORDER_COST * (d
        + 2) * (w + mv)) by (nonlinear_arith);
    assert((d + 2) * (w + mv) <= MAX_CAPACITY * WEIGHT_ONE) by (nonlinear_arith)
        requires
            0 <= d + 2 <= MAX_CAPACITY,
            0 <= w + mv <= WEIGHT_ONE,
    ;
    assert(MAX_ORDER_LMD * ((d + 2) * (w + mv)) == MAX_ORDER_LMD * (d + 2) * (w + mv))
        by (nonlinear_arith);
    assert(MAX_ORDER_COST * ((d + 2) * (w + mv)) == MAX_ORDER_COST * (d + 2) * (w + mv))
        by (nonlinear_arith);
}

/// Carries out `deliver_spec` on the table.
#[verifier::rlimit(50)]
fn deliver(
    tbl: &mut Vec<Cell>,
    inp: &TradingPostProductionInput,
    t: usize,
    d: usize,
    src: Cell,
    otype: usize,
    mv: u64,
)
    requires
        valid_input(*inp),
        d + 1 < inp.capacity,
        t < horizon(*inp),
        otype < 3,
        old(tbl)@.len() == table_len(*inp),
        table_ok(old(tbl)@, cap_of(*inp)),
        cell_ok(src, d as int),
        0 < src.weight <= WEIGHT_ONE,
        mv <= src.weight,
        wsum(old(tbl)@, t * cap_of(*inp), table_len(*inp)) + mv <= WEIGHT_ONE,
    ensures
        final(tbl)@ == deliver_spec(
            old(tbl)@,
            *inp,
            t as int,
            d as int,
            src,
            otype as int,
            mv as int,
        ),
        final(tbl)@.len() == old(tbl)@.len(),
        table_ok(final(tbl)@, cap_of(*inp)),
        wsum(final(tbl)@, t * cap_of(*inp), table_len(*inp)) == wsum(
            old(tbl)@,
            t * cap_of(*inp),
            table_len(*inp),
        ) + mv,
        forall|j: int|
            0 <= j < (t + 1) * cap_of(*inp) ==> #[trigger] final(tbl)@[j] == old(tbl)@[j],
{
    let ghost cap_i = cap_of(*inp);
    let ghost len = table_len(*inp);
    let cap: usize = inp.capacity as usize;
    let h: usize = (inp.duration_minutes as usize) * 60;
    let speed: i32 = match inp.jaye_phase {
        HighRarityOperatorPhase::E0 => inp.speed100 - 4 * (d as i32 + 1),
        _ => inp.speed100,
    };
    let dur: u64 = order_seconds(otype, speed);
    let land: usize = t + dur as usize;
    let y64: u64 = lmd_of(inp.proviso_phase, otype);
    let c64: u64 = cost_of(inp.proviso_phase, otype);
    let y: u128 = y64 as u128;
    let b: u128 = bonus_of(inp.tequila_phase, otype) as u128;
    let c: u128 = c64 as u128;
    let mv128: u128 = mv as u128;
    let w128: u128 = src.weight as u128;
    proof {
        assert(src.lmd <= MAX_ORDER_LMD * MAX_CAPACITY * WEIGHT_ONE) by (nonlinear_arith)
            requires
                src.lmd <= MAX_ORDER_LMD * (d + 1) * src.weight,
                d + 1 <= MAX_CAPACITY,
                src.weight <= WEIGHT_ONE,
        ;
        assert(src.cost <= MAX_ORDER_COST * MAX_CAPACITY * WEIGHT_ONE) by (nonlinear_arith)
            requires
                src.cost <= MAX_ORDER_COST * (d + 1) * src.weight,
                d + 1 <= MAX_CAPACITY,
                src.weight <= WEIGHT_ONE,
        ;
        assert(src.lmd * mv <= MAX_ORDER_LMD * MAX_CAPACITY * WEIGHT_ONE * WEIGHT_ONE)
            by (nonlinear_arith)
            requires
                src.lmd <= MAX_ORDER_LMD * MAX_CAPACITY * WEIGHT_ONE,
                mv <= WEIGHT_ONE,
        ;
        assert(src.cost * mv <= MAX_ORDER_COST * MAX_CAPACITY * WEIGHT_ONE * WEIGHT_ONE)
            by (nonlinear_arith)
            requires
                src.cost <= MAX_ORDER_COST * MAX_CAPACITY * WEIGHT_ONE,
                mv <= WEIGHT_ONE,
        ;
        lemma_share_bound(src.lmd as int, MAX_ORDER_LMD * (d + 1), src.weight as int, mv as int);
        lemma_share_bound(src.cost as int, MAX_ORDER_COST * (d + 1), src.weight as int, mv as int);
        assert(y * mv <= MAX_ORDER_LMD * WEIGHT_ONE) by (nonlinear_arith)
            requires
                y <= MAX_ORDER_LMD,
                mv <= WEIGHT_ONE,
        ;
        assert(b * mv <= MAX_ORDER_LMD * WEIGHT_ONE) by (nonlinear_arith)
            requires
                b <= MAX_ORDER_LMD,
                mv <= WEIGHT_ONE,
        ;
        assert(c * mv <= MAX_ORDER_COST * WEIGHT_ONE) by (nonlinear_arith)
            requires
                c <= MAX_ORDER_COST,
                mv <= WEIGHT_ONE,
        ;
    }
    let carried_l: u128 = (src.lmd as u128) * mv128 / w128;
    let carried_c: u128 = (src.cost as u128) * mv128 / w128;
    let row: usize;
    let gain: u128;
    let spend: u128;
    if land < h {
        row = land;
        proof {
            assert((y + b) * mv <= MAX_ORDER_LMD * mv) by (nonlinear_arith)
                requires
                    y + b <= MAX_ORDER_LMD,
                    mv >= 0,
            ;
            assert(c * mv <= MAX_ORDER_COST * mv) by (nonlinear_arith)
                requires
                    c <= MAX_ORDER_COST,
                    mv >= 0,
            ;
            assert(MAX_ORDER_LMD * mv <= MAX_ORDER_LMD * WEIGHT_ONE) by (nonlinear_arith)
                requires
                    mv <= WEIGHT_ONE,
            ;
        }
        gain = (y + b) * mv128;
        spend = c * mv128;
    } else {
        row = h;
        let done: u64 = (h - t) as u64;
        proof {
            assert(y * mv + b * mv <= MAX_ORDER_LMD * mv) by (nonlinear_arith)
                requires
                    y + b <= MAX_ORDER_LMD,
                    mv >= 0,
            ;
            assert(c * mv <= MAX_ORDER_COST * mv) by (nonlinear_arith)
                requires
                    c <= MAX_ORDER_COST,
                    mv >= 0,
            ;
        }
        gain = partial_yield(y64, mv, done, dur) + b * mv128;
        spend = partial_yield(c64, mv, done, dur);
    }
    proof {
        lemma_idx(row as int, d + 1, cap_i, h as int);
        lemma_idx(t as int, d as int, cap_i, h as int);
        assert(row * cap_i >= (t + 1) * cap_i) by (nonlinear_arith)
            requires
                row >= t + 1,
                cap_i >= 0,
        ;
        assert(row * cap_i + cap_i <= (MAX_HORIZON + 1) * MAX_CAPACITY) by (nonlinear_arith)
            requires
                row <= MAX_HORIZON,
                0 <= cap_i <= MAX_CAPACITY,
        ;
    }
    let k: usize = row * cap + d + 1;
    let old_cell = tbl[k];
    proof {
        lemma_wsum_elem(tbl@, t * cap_i, len, k as int);
        assert(cell_ok(tbl@[k as int], (k as int) % cap_i));
        lemma_cell_grow(
            old_cell,
            d as int,
            mv as int,
            carried_l as int,
            carried_c as int,
            gain as int,
            spend as int,
        );
    }
    let new_cell = Cell {
        weight: old_cell.weight + mv,
        lmd: (old_cell.lmd as u128 + carried_l + gain) as u64,
        cost: (old_cell.cost as u128 + carried_c + spend) as u64,
    };
    proof {
        lemma_wsum_update(tbl@, t * cap_i, len, k as int, new_cell);
    }
    tbl[k] = new_cell;
    proof {
        assert forall|j: int| 0 <= j < tbl@.len() implies cell_ok(#[trigger] tbl@[j], j % cap_i) by {
            if j != k {
                assert(cell_ok(old(tbl)@[j], j % cap_i));
            }
        }
    }
}

/// The table after the state `(t, d)` has started its next order: its mass, if
/// any, leaves it and is split over the three order types by the mix at time `t`.
pub open spec fn advance_cell_spec(
    tbl: Seq<Cell>,
    inp: TradingPostProductionInput,
    t: int,
    d: int,
) -> Seq<Cell> {
    let k = idx(t, d, cap_of(inp));
    let src = tbl[k];
    if src.weight == 0 {
        tbl
    } else {
        let w = src.weight as int;
        let z = tbl.update(k, empty_cell());
        let a = deliver_spec(z, inp, t, d, src, 0, split_share(inp, t, w, 0));
        let b = deliver_spec(a, inp, t, d, src, 1, split_share(inp, t, w, 1));
        deliver_spec(b, inp, t, d, src, 2, split_share(inp, t, w, 2))
    }
}

/// The table after the states `(t, 0)` to `(t, n - 1)` have started their orders.
pub open spec fn advance_row_spec(
    tbl: Seq<Cell>,
    inp: TradingPostProductionInput,
    t: int,
    n: int,
) -> Seq<Cell>
    decreases n,
{
    if n <= 0 {
        tbl
    } else {
        advance_cell_spec(advance_row_spec(tbl, inp, t, n - 1), inp, t, n - 1)
    }
}

proof fn lemma_split_parts(w: int, s1: int, s2: int)
    requires
        0 <= w,
        0 <= s1,
        0 <= s2,
        s1 + s2 <= MIX_ONE,
    ensures
        0 <= w * s1 / MIX_ONE as int,
        0 <= w * s2 / MIX_ONE as int,
        w * s1 / MIX_ONE as int + w * s2 / MIX_ONE as int <= w,
{
    let m = MIX_ONE as int;
    vstd::arithmetic::div_mod::lemma_fundamental_div_mod(w * s1, m);
    vstd::arithmetic::div_mod::lemma_fundamental_div_mod(w * s2, m);
    vstd::arithmetic::div_mod::lemma_mod_pos_bound(w * s1, m);
    vstd::arithmetic::div_mod::lemma_mod_pos_bound(w * s2, m);
    assert(w * s1 >= 0 && w * s2 >= 0) by (nonlinear_arith)
        requires
            w >= 0,
            s1 >= 0,
            s2 >= 0,
    ;
    vstd::arithmetic::div_mod::lemma_div_pos_is_pos(w * s1, m);
    vstd::arithmetic::div_mod::lemma_div_pos_is_pos(w * s2, m);
    let q1 = w * s1 / m;
    let q2 = w * s2 / m;
    assert(m * (q1 + q2) <= w * s1 + w * s2) by (nonlinear_arith)
        requires
            m * q1 <= w * s1,
            m * q2 <= w * s2,
    ;
    assert(w * s1 + w * s2 <= w * m) by (nonlinear_arith)
        requires
            s1 + s2 <= m,
            w >= 0,
    ;
    assert(q1 + q2 <= w) by (nonlinear_arith)
        requires
            m * (q1 + q2) <= w * m,
            m > 0,
    ;
}

/// Carries out `advance_cell_spec` on the table.
fn advance_cell(
    tbl: &mut Vec<Cell>,
    inp: &TradingPostProductionInput,
    t: usize,
    d: usize,
    ramp: u64,
)
    requires
        valid_input(*inp),
        d + 1 < inp.capacity,
        t < horizon(*inp),
        ramp == ramp_of(inp.tailoring_ramped@, t as int),
        old(tbl)@.len() == table_len(*inp),
        table_ok(old(tbl)@, cap_of(*inp)),
        wsum(old(tbl)@, t * cap_of(*inp), table_len(*inp)) <= WEIGHT_ONE,
    ensures
        final(tbl)@ == advance_cell_spec(old(tbl)@, *inp, t as int, d as int),
        final(tbl)@.len() == old(tbl)@.len(),
        table_ok(final(tbl)@, cap_of(*inp)),
        wsum(final(tbl)@, t * cap_of(*inp), table_len(*inp)) == wsum(
            old(tbl)@,
            t * cap_of(*inp),
            table_len(*inp),
        ),
        final(tbl)@[idx(t as int, d as int, cap_of(*inp))].weight == 0,
        forall|j: int|
            0 <= j < (t + 1) * cap_of(*inp) && j != idx(t as int, d as int, cap_of(*inp))
                ==> #[trigger] final(tbl)@[j] == old(tbl)@[j],
{
    let ghost cap_i = cap_of(*inp);
    let ghost len = table_len(*inp);
    let ghost h = horizon(*inp);
    let cap: usize = inp.capacity as usize;
    proof {
        lemma_idx(t as int, d as int, cap_i, h);
        assert(t * cap_i + cap_i <= (MAX_HORIZON + 1) * MAX_CAPACITY) by (nonlinear_arith)
            requires
                t <= MAX_HORIZON,
                0 <= cap_i <= MAX_CAPACITY,
        ;
    }
    let k: usize = t * cap + d;
    let src = tbl[k];
    if src.weight == 0 {
        return;
    }
    proof {
        lemma_wsum_elem(tbl@, t * cap_i, len, k as int);
        assert(cell_ok(tbl@[k as int], (k as int) % cap_i));
        lemma_wsum_update(tbl@, t * cap_i, len, k as int, empty_cell());
    }
    tbl[k] = Cell { weight: 0, lmd: 0, cost: 0 };
    proof {
        assert forall|j: int| 0 <= j < tbl@.len() implies cell_ok(#[trigger] tbl@[j], j % cap_i) by {
            if j != k {
                assert(cell_ok(old(tbl)@[j], j % cap_i));
            }
        }
    }
    let (m0, m1, m2) = split_mass(inp, t as u32, ramp, src.weight);
    deliver(tbl, inp, t, d, src, 0, m0);
    deliver(tbl, inp, t, d, src, 1, m1);
    deliver(tbl, inp, t, d, src, 2, m2);
}

/// Running totals of the mass that reached the full queue, and of what it holds.
#[derive(Clone, Copy, Debug)]
pub struct StallTally {
    pub weight: u64,
    /// First resource gained by that mass, times the weight.
    pub lmd: u64,
    /// Second resource spent by that mass, times the weight.
    pub cost: u64,
    /// Blocked time up to the horizon, in seconds, times the weight.
    pub time: u64,
}

pub open spec fn empty_tally() -> StallTally {
    StallTally { weight: 0, lmd: 0, cost: 0, time: 0 }
}

/// The tally after the full-queue state at time `t`, holding `c`, is swept into it:
/// its mass stays blocked for the `h - t` seconds left.
pub open spec fn collect_spec(st: StallTally, c: Cell, t: int, h: int) -> StallTally {
    if c.weight == 0 {
        st
    } else {
        StallTally {
            weight: (st.weight + c.weight) as u64,
            lmd: (st.lmd + c.lmd) as u64,
            cost: (st.cost + c.cost) as u64,
            time: (st.time + c.weight * (h - t)) as u64,
        }
    }
}

/// The table and the stall tally after the time slots `0..n` have been swept,
/// starting from the table `tbl0`.
pub open spec fn sweep_spec(inp: TradingPostProductionInput, tbl0: Seq<Cell>, n: int) -> (Seq<
    Cell,
>, StallTally)
    decreases n,
{
    if n <= 0 {
        (tbl0, empty_tally())
    } else {
        let (tbl, st) = sweep_spec(inp, tbl0, n - 1);
        let t = n - 1;
        let cap = cap_of(inp);
        let tbl2 = advance_row_spec(tbl, inp, t, cap - 1);
        (tbl2, collect_spec(st, tbl2[idx(t, cap - 1, cap)], t, horizon(inp)))
    }
}

pub open spec fn tally_ok(st: StallTally, cap: int, h: int) -> bool {
    &&& st.weight <= WEIGHT_ONE
    &&& st.lmd <= MAX_ORDER_LMD * cap * st.weight
    &&& st.cost <= MAX_ORDER_COST * cap * st.weight
    &&& st.time <= h * st.weight
}

/// Sweeps the time slots `0..horizon` over the table: every state below the full
/// queue starts its next order, and the full-queue states are swept into the
/// stall tally.
pub(crate) fn run_sweep(tbl: &mut Vec<Cell>, inp: &TradingPostProductionInput) -> (st: StallTally)
    requires
        valid_input(*inp),
        inp.capacity >= 1,
        old(tbl)@.len() == table_len(*inp),
        table_ok(old(tbl)@, cap_of(*inp)),
        wsum(old(tbl)@, 0, table_len(*inp)) == WEIGHT_ONE,
    ensures
        (final(tbl)@, st) == sweep_spec(*inp, old(tbl)@, horizon(*inp)),
        final(tbl)@.len() == table_len(*inp),
        table_ok(final(tbl)@, cap_of(*inp)),
        tally_ok(st, cap_of(*inp), horizon(*inp)),
        st.weight + wsum(final(tbl)@, horizon(*inp) * cap_of(*inp), table_len(*inp))
            == WEIGHT_ONE,
{
    let ghost tbl0 = tbl@;
    let ghost cap_i = cap_of(*inp);
    let ghost len = table_len(*inp);
    let ghost hi = horizon(*inp);
    let cap: usize = inp.capacity as usize;
    let h: usize = (inp.duration_minutes as usize) * 60;
    let mut st = StallTally { weight: 0, lmd: 0, cost: 0, time: 0 };
    let mut t: usize = 0;
    while t < h
        invariant
            valid_input(*inp),
            cap == cap_i,
            cap_i == cap_of(*inp),
            cap_i >= 1,
            h == hi,
            hi == horizon(*inp),
            len == table_len(*inp),
            t <= h,
            tbl@.len() == len,
            table_ok(tbl@, cap_i),
            (tbl@, st) == sweep_spec(*inp, tbl0, t as int),
            tally_ok(st, cap_i, hi),
            st.weight + wsum(tbl@, t * cap_i, len) == WEIGHT_ONE,
        decreases h - t,
    {
        let ramp = ramp_factor(&inp.tailoring_ramped, t as u32);
        let ghost row0 = tbl@;
        proof {
            lemma_wsum_nonneg(tbl@, t * cap_i, len);
        }
        let mut d: usize = 0;
        while d + 1 < cap
            invariant
                valid_input(*inp),
                cap == cap_i,
                cap_i == cap_of(*inp),
                cap_i >= 1,
                h == hi,
                hi == horizon(*inp),
                len == table_len(*inp),
                t < h,
                d + 1 <= cap,
                ramp == ramp_of(inp.tailoring_ramped@, t as int),
                tbl@.len() == len,
                table_ok(tbl@, cap_i),
                tbl@ == advance_row_spec(row0, *inp, t as int, d as int),
                wsum(tbl@, t * cap_i, len) == wsum(row0, t * cap_i, len),
                wsum(row0, t * cap_i, len) <= WEIGHT_ONE,
                forall|j: int| t * cap_i <= j < t * cap_i + d ==> (#[trigger] tbl@[j]).weight == 0,
            decreases cap - d,
        {
            let ghost before = tbl@;
            advance_cell(tbl, inp, t, d, ramp);
            proof {
                lemma_idx(t as int, d as int, cap_i, hi);
                assert forall|j: int| t * cap_i <= j < t * cap_i + d + 1 implies (
                #[trigger] tbl@[j]).weight == 0 by {
                    if j != idx(t as int, d as int, cap_i) {
                        assert(tbl@[j] == before[j]);
                    }
                }
            }
            d = d + 1;
        }
        proof {
            assert(hi <= MAX_HORIZON);
            lemma_idx(t as int, cap_i - 1, cap_i, hi);
            assert(t * cap_i + cap_i <= (MAX_HORIZON + 1) * MAX_CAPACITY) by (nonlinear_arith)
                requires
                    t <= MAX_HORIZON,
                    0 <= cap_i <= MAX_CAPACITY,
            ;
        }
        let k: usize = t * cap + cap - 1;
        let c = tbl[k];
        proof {
            let lo = t * cap_i;
            lemma_wsum_zero(tbl@, lo, k as int);
            lemma_wsum_split(tbl@, lo, k as int, len);
            lemma_wsum_split(tbl@, k as int, k + 1, len);
            assert(wsum(tbl@, k as int, k + 1) == c.weight) by {
                assert(wsum(tbl@, k as int, k as int) == 0);
            }
            assert((t + 1) * cap_i == k + 1);
            assert(cell_ok(tbl@[k as int], (k as int) % cap_i));
            lemma_wsum_nonneg(tbl@, k + 1, len);
        }
        if c.weight > 0 {
            proof {
                lemma_tally_grow(st, c, cap_i, t as int, hi);
            }
            st = StallTally {
                weight: st.weight + c.weight,
                lmd: st.lmd + c.lmd,
                cost: st.cost + c.cost,
                time: st.time + c.weight * ((h - t) as u64),
            };
        }
        t = t + 1;
    }
    st
}

proof fn lemma_tally_grow(st: StallTally, c: Cell, cap: int, t: int, h: int)
    requires
        1 <= cap <= MAX_CAPACITY,
        0 <= t < h <= MAX_HORIZON,
        tally_ok(st, cap, h),
        cell_ok(c, cap - 1),
        st.weight + c.weight <= WEIGHT_ONE,
    ensures
        st.lmd + c.lmd <= MAX_ORDER_LMD * cap * (st.weight + c.weight),
        st.cost + c.cost <= MAX_ORDER_COST * cap * (st.weight + c.weight),
        c.weight * (h - t) <= h * c.weight,
        st.time + c.weight * (h - t) <= h * (st.weight + c.weight),
        MAX_ORDER_LMD * cap * (st.weight + c.weight) <= MAX_ORDER_LMD * MAX_CAPACITY * WEIGHT_ONE,
        MAX_ORDER_COST * cap * (st.weight + c.weight) <= MAX_ORDER_COST * MAX_CAPACITY
            * WEIGHT_ONE,
        h * (st.weight + c.weight) <= MAX_HORIZON * WEIGHT_ONE,
{
    let a = st.weight as int;
    let b = c.weight as int;
    assert(MAX_ORDER_LMD * cap * a + MAX_ORDER_LMD * cap * b == MAX_ORDER_LMD * cap * (a + b))
        by (nonlinear_arith);
    assert(MAX_ORDER_COST * cap * a + MAX_ORDER_COST * cap * b == MAX_ORDER_COST * cap * (a + b))
        by (nonlinear_arith);
    assert(MAX_ORDER_LMD * (cap - 1 + 1) * b == MAX_ORDER_LMD * cap * b) by (nonlinear_arith);
    assert(MAX_ORDER_COST * (cap - 1 + 1) * b == MAX_ORDER_COST * cap * b) by (nonlinear_arith);
    assert(b * (h - t) <= h * b) by (nonlinear_arith)
        requires
            b >= 0,
            0 <= t,
    ;
    assert(h * a + h * b == h * (a + b)) by (nonlinear_arith);
    assert(cap * (a + b) <= MAX_CAPACITY * WEIGHT_ONE) by (nonlinear_arith)
        requires
            0 <= cap <= MAX_CAPACITY,
            0 <= a + b <= WEIGHT_ONE,
    ;
    assert(MAX_ORDER_LMD * (cap * (a + b)) == MAX_ORDER_LMD * cap * (a + b)) by (nonlinear_arith);
    assert(MAX_ORDER_COST * (cap * (a + b)) == MAX_ORDER_COST * cap * (a + b))
        by (nonlinear_arith);
    assert(h * (a + b) <= MAX_HORIZON * WEIGHT_ONE) by (nonlinear_arith)
        requires
            0 <= h <= MAX_HORIZON,
            0 <= a + b <= WEIGHT_ONE,
    ;
}

/// Duration of an order of type `otype` at the undisturbed speed.
pub open spec fn first_duration(inp: TradingPostProductionInput, otype: int) -> int {
    scaled_seconds(otype, inp.speed100 as int)
}

/// Mass of type `otype` whose order in progress at time 0 completes at slot `c`:
/// the type's share spread evenly over its duration, the first slot also taking
/// what the division leaves.
pub open spec fn seed_amount(inp: TradingPostProductionInput, otype: int, c: int) -> int {
    let share = split_share(inp, 0, WEIGHT_ONE as int, otype);
    let dur = first_duration(inp, otype);
    if c == 0 {
        share / dur + share % dur
    } else {
        share / dur
    }
}

/// The table after the mass of type `otype` whose first order completes at `c` is
/// placed at depth 0: at slot `c`, or at the horizon if `c` lies at or beyond it. It
/// is credited the fraction of the order worked inside the window, without bonus.
pub open spec fn seed_put_spec(
    tbl: Seq<Cell>,
    inp: TradingPostProductionInput,
    otype: int,
    c: int,
) -> Seq<Cell> {
    let h = horizon(inp);
    let dur = first_duration(inp, otype);
    let amount = seed_amount(inp, otype, c);
    let done = if c < h { c } else { h };
    let k = idx(done, 0, cap_of(inp));
    let old = tbl[k];
    tbl.update(
        k,
        Cell {
            weight: (old.weight + amount) as u64,
            lmd: (old.lmd + order_lmd(inp.proviso_phase, otype) * amount * done / dur) as u64,
            cost: (old.cost + order_cost(inp.proviso_phase, otype) * amount * done / dur) as u64,
        },
    )
}

pub open spec fn seed_slots_spec(
    tbl: Seq<Cell>,
    inp: TradingPostProductionInput,
    otype: int,
    n: int,
) -> Seq<Cell>
    decreases n,
{
    if n <= 0 {
        tbl
    } else {
        seed_put_spec(seed_slots_spec(tbl, inp, otype, n - 1), inp, otype, n - 1)
    }
}

/// The table, all empty, with the first orders of the types `0..n` placed.
pub open spec fn seed_spec(inp: TradingPostProductionInput, n: int) -> Seq<Cell>
    decreases n,
{
    if n <= 0 {
        Seq::new(table_len(inp) as nat, |k: int| empty_cell())
    } else {
        seed_slots_spec(seed_spec(inp, n - 1), inp, n - 1, first_duration(inp, n - 1))
    }
}

pub open spec fn placed_before(inp: TradingPostProductionInput, n: int) -> int
    decreases n,
{
    if n <= 0 {
        0
    } else {
        placed_before(inp, n - 1) + split_share(inp, 0, WEIGHT_ONE as int, n - 1)
    }
}

/// Splits the mass `w` over the three order types by the mix at time `t`.
fn split_mass(inp: &TradingPostProductionInput, t: u32, ramp: u64, w: u64) -> (r: (u64, u64, u64))
    requires
        ramp == ramp_of(inp.tailoring_ramped@, t as int),
        w <= WEIGHT_ONE,
    ensures
        r.0 == split_share(*inp, t as int, w as int, 0),
        r.1 == split_share(*inp, t as int, w as int, 1),
        r.2 == split_share(*inp, t as int, w as int, 2),
        r.0 + r.1 + r.2 == w,
{
    proof {
        lemma_ramp_monotonic(inp.tailoring_ramped@, t as int, t as int);
        lemma_mix_total(inp.phase, ramp as int);
    }
    let s1: u64 = order_share(inp.phase, 1, ramp);
    let s2: u64 = order_share(inp.phase, 2, ramp);
    let w128: u128 = w as u128;
    proof {
        lemma_split_parts(w as int, s1 as int, s2 as int);
        assert(w * s1 <= WEIGHT_ONE * MIX_ONE) by (nonlinear_arith)
            requires
                w <= WEIGHT_ONE,
                s1 <= MIX_ONE,
        ;
        assert(w * s2 <= WEIGHT_ONE * MIX_ONE) by (nonlinear_arith)
            requires
                w <= WEIGHT_ONE,
                s2 <= MIX_ONE,
        ;
    }
    let m1: u64 = (w128 * (s1 as u128) / (MIX_ONE as u128)) as u64;
    let m2: u64 = (w128 * (s2 as u128) / (MIX_ONE as u128)) as u64;
    (w - m1 - m2, m1, m2)
}

/// Builds the table with the orders in progress at time 0 placed.
pub(crate) fn seed_table(inp: &TradingPostProductionInput) -> (tbl: Vec<Cell>)
    requires
        valid_input(*inp),
        inp.capacity >= 1,
    ensures
        tbl@ == seed_spec(*inp, 3),
        tbl@.len() == table_len(*inp),
        table_ok(tbl@, cap_of(*inp)),
        wsum(tbl@, 0, table_len(*inp)) == WEIGHT_ONE,
{
    let ghost cap_i = cap_of(*inp);
    let ghost len = table_len(*inp);
    let ghost hi = horizon(*inp);
    let cap: usize = inp.capacity as usize;
    let h: usize = (inp.duration_minutes as usize) * 60;
    proof {
        assert((hi + 1) * cap_i <= (MAX_HORIZON + 1) * MAX_CAPACITY) by (nonlinear_arith)
            requires
                0 <= hi <= MAX_HORIZON,
                0 <= cap_i <= MAX_CAPACITY,
        ;
    }
    let n: usize = (h + 1) * cap;
    let mut tbl: Vec<Cell> = Vec::with_capacity(n);
    let mut i: usize = 0;
    while i < n
        invariant
            i <= n,
            tbl@.len() == i,
            forall|k: int| 0 <= k < i ==> #[trigger] tbl@[k] == empty_cell(),
        decreases n - i,
    {
        tbl.push(Cell { weight: 0, lmd: 0, cost: 0 });
        i = i + 1;
    }
    proof {
        assert(tbl@ =~= seed_spec(*inp, 0));
        lemma_wsum_zero(tbl@, 0, len);
    }
    let ramp = ramp_factor(&inp.tailoring_ramped, 0);
    let shares = split_mass(inp, 0, ramp, WEIGHT_ONE);
    let mut otype: usize = 0;
    while otype < 3
        invariant
            valid_input(*inp),
            cap == cap_i,
            cap_i == cap_of(*inp),
            cap_i >= 1,
            h == hi,
            hi == horizon(*inp),
            len == table_len(*inp),
            otype <= 3,
            tbl@.len() == len,
            table_ok(tbl@, cap_i),
            tbl@ == seed_spec(*inp, otype as int),
            wsum(tbl@, 0, len) == placed_before(*inp, otype as int),
            shares.0 == split_share(*inp, 0, WEIGHT_ONE as int, 0),
            shares.1 == split_share(*inp, 0, WEIGHT_ONE as int, 1),
            shares.2 == split_share(*inp, 0, WEIGHT_ONE as int, 2),
            shares.0 + shares.1 + shares.2 == WEIGHT_ONE,
            placed_before(*inp, otype as int) == if otype == 0 {
                0
            } else if otype == 1 {
                shares.0 as int
            } else if otype == 2 {
                shares.0 + shares.1
            } else {
                WEIGHT_ONE as int
            },
        decreases 3 - otype,
    {
        let share: u64 = if otype == 0 {
            shares.0
        } else if otype == 1 {
            shares.1
        } else {
            shares.2
        };
        let dur: u64 = order_seconds(otype, inp.speed100);
        let q: u64 = share / dur;
        let r: u64 = share % dur;
        let y: u64 = lmd_of(inp.proviso_phase, otype);
        let cst: u64 = cost_of(inp.proviso_phase, otype);
        let ghost start = tbl@;
        let ghost placed = placed_before(*inp, otype as int);
        proof {
            vstd::arithmetic::div_mod::lemma_fundamental_div_mod(share as int, dur as int);
            vstd::arithmetic::div_mod::lemma_mod_pos_bound(share as int, dur as int);
            vstd::arithmetic::div_mod::lemma_div_pos_is_pos(share as int, dur as int);
            assert(placed + share <= WEIGHT_ONE);
        }
        let mut c: u64 = 0;
        while c < dur
            invariant
                valid_input(*inp),
                cap == cap_i,
                cap_i == cap_of(*inp),
                cap_i >= 1,
                h == hi,
                hi == horizon(*inp),
                len == table_len(*inp),
                otype < 3,
                share == split_share(*inp, 0, WEIGHT_ONE as int, otype as int),
                dur == first_duration(*inp, otype as int),
                1 <= dur <= 1656000,
                q == share / dur,
                r == share % dur,
                share == dur * q + r,
                0 <= r < dur,
                y == order_lmd(inp.proviso_phase, otype as int),
                cst == order_cost(inp.proviso_phase, otype as int),
                y <= MAX_ORDER_LMD,
                cst <= MAX_ORDER_COST,
                c <= dur,
                placed + share <= WEIGHT_ONE,
                tbl@.len() == len,
                table_ok(tbl@, cap_i),
                tbl@ == seed_slots_spec(start, *inp, otype as int, c as int),
                wsum(tbl@, 0, len) == placed + if c == 0 { 0 } else { q * c + r },
            decreases dur - c,
        {
            proof {
                assert(q + r <= share) by (nonlinear_arith)
                    requires
                        dur >= 1,
                        q >= 0,
                        share == dur * q + r,
                ;
            }
            let amount: u64 = if c == 0 { q + r } else { q };
            let done: usize = if (c as usize) < h { c as usize } else { h };
            proof {
                if c == 0 {
                    assert(q * (c + 1) == q) by (nonlinear_arith)
                        requires
                            c == 0,
                    ;
                } else {
                    assert(q * c + q == q * (c + 1)) by (nonlinear_arith);
                }
                assert(hi <= MAX_HORIZON);
                assert(done * cap_i <= MAX_HORIZON * MAX_CAPACITY) by (nonlinear_arith)
                    requires
                        0 <= done <= MAX_HORIZON,
                        0 <= cap_i <= MAX_CAPACITY,
                ;
                assert(q * (c + 1) + r <= share) by (nonlinear_arith)
                    requires
                        c + 1 <= dur,
                        q >= 0,
                        share == dur * q + r,
                ;
                lemma_idx(done as int, 0, cap_i, hi);
                lemma_wsum_nonneg(tbl@, 0, len);
            }
            let k: usize = done * cap;
            let old_cell = tbl[k];
            proof {
                lemma_wsum_elem(tbl@, 0, len, k as int);
                assert(cell_ok(tbl@[k as int], (k as int) % cap_i));
                assert(done <= c);

            }
            let gain: u128 = partial_yield(y, amount, done as u64, dur);
            let spend: u128 = partial_yield(cst, amount, done as u64, dur);
            proof {
                lemma_cell_seed(
                    old_cell,
                    amount as int,
                    gain as int,
                    spend as int,
                    y as int,
                    cst as int,
                );
            }
            let new_cell = Cell {
                weight: old_cell.weight + amount,
                lmd: (old_cell.lmd as u128 + gain) as u64,
                cost: (old_cell.cost as u128 + spend) as u64,
            };
            proof {
                lemma_wsum_update(tbl@, 0, len, k as int, new_cell);
            }
            tbl[k] = new_cell;
            proof {
                let prev = seed_slots_spec(start, *inp, otype as int, c as int);
                assert(tbl@ == seed_put_spec(prev, *inp, otype as int, c as int));
                assert forall|j: int| 0 <= j < tbl@.len() implies cell_ok(
                    #[trigger] tbl@[j],
                    j % cap_i,
                ) by {
                    if j != k {
                        assert(cell_ok(prev[j], j % cap_i));
                    }
                }
            }
            c = c + 1;
        }
        proof {
            assert(q * dur == dur * q) by (nonlinear_arith);
        }
        otype = otype + 1;
    }
    tbl
}

proof fn lemma_cell_seed(old: Cell, amount: int, gain: int, spend: int, y: int, cst: int)
    requires
        cell_ok(old, 0),
        0 <= amount,
        old.weight + amount <= WEIGHT_ONE,
        0 <= y <= MAX_ORDER_LMD,
        0 <= cst <= MAX_ORDER_COST,
        0 <= gain <= y * amount,
        0 <= spend <= cst * amount,
    ensures
        old.lmd + gain <= MAX_ORDER_LMD * (old.weight + amount),
        old.cost + spend <= MAX_ORDER_COST * (old.weight + amount),
        MAX_ORDER_LMD * (old.weight + amount) <= MAX_ORDER_LMD * WEIGHT_ONE,
        cell_ok(
            Cell {
                weight: (old.weight + amount) as u64,
                lmd: (old.lmd + gain) as u64,
                cost: (old.cost + spend) as u64,
            },
            0,
        ),
{
    assert(y * amount <= MAX_ORDER_LMD * amount) by (nonlinear_arith)
        requires
            y <= MAX_ORDER_LMD,
            amount >= 0,
    ;
    assert(cst * amount <= MAX_ORDER_COST * amount) by (nonlinear_arith)
        requires
            cst <= MAX_ORDER_COST,
            amount >= 0,
    ;
    let w = old.weight as int;
    assert(MAX_ORDER_LMD * (0 + 1) * w + MAX_ORDER_LMD * amount == MAX_ORDER_LMD * (w + amount))
        by (nonlinear_arith);
    assert(MAX_ORDER_COST * (0 + 1) * w + MAX_ORDER_COST * amount == MAX_ORDER_COST * (w
        + amount)) by (nonlinear_arith);
    assert(MAX_ORDER_LMD * (w + amount) <= MAX_ORDER_LMD * WEIGHT_ONE) by (nonlinear_arith)
        requires
            w + amount <= WEIGHT_ONE,
    ;
    assert(MAX_ORDER_COST * (w + amount) <= MAX_ORDER_COST * WEIGHT_ONE) by (nonlinear_arith)
        requires
            w + amount <= WEIGHT_ONE,
    ;
}

} // verus!
