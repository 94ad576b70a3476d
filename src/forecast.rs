use vstd::prelude::*;
use crate::engine::{
    advance_row_spec, cap_of, first_duration, horizon, run_sweep, seed_put_spec, seed_slots_spec,
    seed_spec, seed_table, sweep_spec, table_len, valid_input, MAX_CAPACITY, MAX_HORIZON,
};
use crate::model::TradingPostProductionInput;
use crate::rates::{MAX_ORDER_COST, MAX_ORDER_LMD};
use crate::table::{
    cell_ok, csum, lemma_idx, lemma_wsum_nonneg, lemma_wsum_split, lsum,
    table_ok, wsum, Cell, WEIGHT_ONE,
};

verus! {

/// What a run predicts. Every quantity is a fixed-point number: the integer
/// stored is the real value times `WEIGHT_ONE`.
#[derive(Clone, Copy, Debug)]
pub struct ProductionForecast {
    /// Probability mass that reached the full queue.
    pub stalled_weight: u64,
    /// Probability mass still running at the horizon.
    pub settled_weight: u64,
    /// Chance of a stall, in percent.
    pub stall_chance: u128,
    /// Expected blocked time, in minutes.
    pub average_stall_time: u128,
    /// Expected gain of the first resource over the window.
    pub total_lmd: u128,
    /// Expected change of the second resource over the window (a cost, so never positive).
    pub total_gold: i128,
    /// `total_lmd` scaled to a day of 1440 minutes.
    pub daily_lmd: u128,
    /// `total_gold` scaled to a day of 1440 minutes.
    pub daily_gold: i128,
    /// Daily first-resource gain as a percentage of the baseline `1450 * 1440 / 203.4`.
    pub net_lmd_speed: u128,
    /// Daily second-resource change, with the first resource converted at 500 to
    /// one, as a percentage of the baseline of 20 a day.
    pub net_gold_speed: i128,
}

/// The forecast from the run's totals. Divisions round down.
pub open spec fn summary_spec(
    stalled_weight: int,
    stall_time: int,
    settled_weight: int,
    total_lmd: int,
    total_cost: int,
    minutes: int,
) -> ProductionForecast {
    let daily_lmd = total_lmd * 1440 / minutes;
    let daily_cost = total_cost * 1440 / minutes;
    ProductionForecast {
        stalled_weight: stalled_weight as u64,
        settled_weight: settled_weight as u64,
        stall_chance: (100 * stalled_weight) as u128,
        average_stall_time: (stall_time / 60) as u128,
        total_lmd: total_lmd as u128,
        total_gold: (-total_cost) as i128,
        daily_lmd: daily_lmd as u128,
        daily_gold: (-daily_cost) as i128,
        net_lmd_speed: (daily_lmd * 20340 / 2088000) as u128,
        net_gold_speed: (daily_lmd / 100 - 5 * daily_cost) as i128,
    }
}

/// Builds the forecast from the stalled mass, its blocked time (seconds times
/// weight), the mass running at the horizon, the two resource totals (times
/// weight) and the window in minutes.
pub fn summarize(
    stalled_weight: u64,
    stall_time: u64,
    settled_weight: u64,
    total_lmd: u64,
    total_cost: u64,
    minutes: i32,
) -> (r: ProductionForecast)
    requires
        minutes >= 1,
    ensures
        r == summary_spec(
            stalled_weight as int,
            stall_time as int,
            settled_weight as int,
            total_lmd as int,
            total_cost as int,
            minutes as int,
        ),
{
    let m: u128 = minutes as u128;
    proof {
        vstd::arithmetic::div_mod::lemma_div_is_ordered_by_denominator(total_lmd * 1440, 1, m as int);
        vstd::arithmetic::div_mod::lemma_div_is_ordered_by_denominator(total_cost * 1440, 1, m as int);
        vstd::arithmetic::div_mod::lemma_div_pos_is_pos(total_lmd * 1440, m as int);
        vstd::arithmetic::div_mod::lemma_div_pos_is_pos(total_cost * 1440, m as int);
    }
    let daily_lmd: u128 = (total_lmd as u128) * 1440 / m;
    let daily_cost: u128 = (total_cost as u128) * 1440 / m;
    ProductionForecast {
        stalled_weight,
        settled_weight,
        stall_chance: 100 * (stalled_weight as u128),
        average_stall_time: (stall_time as u128) / 60,
        total_lmd: total_lmd as u128,
        total_gold: -(total_cost as i128),
        daily_lmd,
        daily_gold: -(daily_cost as i128),
        net_lmd_speed: daily_lmd * 20340 / 2088000,
        net_gold_speed: (daily_lmd / 100) as i128 - 5 * (daily_cost as i128),
    }
}

/// What the sweep predicts for `inp`. Without any capacity the post is blocked
/// from the start, for the whole window.
pub open spec fn forecast_of(inp: TradingPostProductionInput) -> ProductionForecast {
    let h = horizon(inp);
    let cap = cap_of(inp);
    if cap == 0 {
        summary_spec(WEIGHT_ONE as int, WEIGHT_ONE * h, 0, 0, 0, inp.duration_minutes as int)
    } else {
        let (tbl, st) = sweep_spec(inp, seed_spec(inp, 3), h);
        let base = h * cap;
        summary_spec(
            st.weight as int,
            st.time as int,
            wsum(tbl, base, base + cap),
            st.lmd + lsum(tbl, base, base + cap),
            st.cost + csum(tbl, base, base + cap),
            inp.duration_minutes as int,
        )
    }
}

/// Sums the states at the horizon: their mass and their two resource totals.
fn settle_row(tbl: &Vec<Cell>, inp: &TradingPostProductionInput) -> (r: (u64, u64, u64))
    requires
        valid_input(*inp),
        inp.capacity >= 1,
        tbl@.len() == table_len(*inp),
        table_ok(tbl@, cap_of(*inp)),
        wsum(tbl@, horizon(*inp) * cap_of(*inp), table_len(*inp)) <= WEIGHT_ONE,
    ensures
        r.0 == wsum(tbl@, horizon(*inp) * cap_of(*inp), table_len(*inp)),
        r.1 == lsum(tbl@, horizon(*inp) * cap_of(*inp), table_len(*inp)),
        r.2 == csum(tbl@, horizon(*inp) * cap_of(*inp), table_len(*inp)),
        r.1 <= MAX_ORDER_LMD * cap_of(*inp) * r.0,
        r.2 <= MAX_ORDER_COST * cap_of(*inp) * r.0,
{
    let ghost cap_i = cap_of(*inp);
    let ghost hi = horizon(*inp);
    let ghost len = table_len(*inp);
    let cap: usize = inp.capacity as usize;
    let h: usize = (inp.duration_minutes as usize) * 60;
    proof {
        lemma_idx(hi, 0, cap_i, hi);
        assert(hi * cap_i + cap_i <= (MAX_HORIZON + 1) * MAX_CAPACITY) by (nonlinear_arith)
            requires
                0 <= hi <= MAX_HORIZON,
                0 <= cap_i <= MAX_CAPACITY,
        ;
    }
    let base: usize = h * cap;
    let mut w: u64 = 0;
    let mut l: u64 = 0;
    let mut c: u64 = 0;
    let mut d: usize = 0;
    while d < cap
        invariant
            cap == cap_i,
            1 <= cap_i <= MAX_CAPACITY,
            base == hi * cap_i,
            base + cap_i == len,
            len <= (MAX_HORIZON + 1) * MAX_CAPACITY,
            tbl@.len() == len,
            table_ok(tbl@, cap_i),
            wsum(tbl@, base as int, len) <= WEIGHT_ONE,
            d <= cap,
            w == wsum(tbl@, base as int, base + d),
            l == lsum(tbl@, base as int, base + d),
            c == csum(tbl@, base as int, base + d),
            l <= MAX_ORDER_LMD * cap_i * w,
            c <= MAX_ORDER_COST * cap_i * w,
        decreases cap - d,
    {
        let k: usize = base + d;
        let cell = tbl[k];
        proof {
            lemma_wsum_split(tbl@, base as int, k + 1, len);
            lemma_wsum_nonneg(tbl@, k + 1, len);
            vstd::arithmetic::div_mod::lemma_fundamental_div_mod_converse(k as int, cap_i, hi, d as int);
            assert(cell_ok(tbl@[k as int], (k as int) % cap_i));
            lemma_row_grow(w as int, l as int, c as int, cell, d as int, cap_i);
        }
        w = w + cell.weight;
        l = l + cell.lmd;
        c = c + cell.cost;
        d = d + 1;
    }
    (w, l, c)
}

proof fn lemma_row_grow(w: int, l: int, c: int, cell: Cell, d: int, cap: int)
    requires
        0 <= d < cap <= MAX_CAPACITY,
        0 <= w,
        w + cell.weight <= WEIGHT_ONE,
        l <= MAX_ORDER_LMD * cap * w,
        c <= MAX_ORDER_COST * cap * w,
        cell_ok(cell, d),
    ensures
        l + cell.lmd <= MAX_ORDER_LMD * cap * (w + cell.weight),
        c + cell.cost <= MAX_ORDER_COST * cap * (w + cell.weight),
        MAX_ORDER_LMD * cap * (w + cell.weight) <= MAX_ORDER_LMD * MAX_CAPACITY * WEIGHT_ONE,
        MAX_ORDER_COST * cap * (w + cell.weight) <= MAX_ORDER_COST * MAX_CAPACITY * WEIGHT_ONE,
{
    let v = cell.weight as int;
    assert(MAX_ORDER_LMD * (d + 1) * v <= MAX_ORDER_LMD * cap * v) by (nonlinear_arith)
        requires
            d + 1 <= cap,
            v >= 0,
    ;
    assert(MAX_ORDER_COST * (d + 1) * v <= MAX_ORDER_COST * cap * v) by (nonlinear_arith)
        requires
            d + 1 <= cap,
            v >= 0,
    ;
    assert(MAX_ORDER_LMD * cap * w + MAX_ORDER_LMD * cap * v == MAX_ORDER_LMD * cap * (w + v))
        by (nonlinear_arith);
    assert(MAX_ORDER_COST * cap * w + MAX_ORDER_COST * cap * v == MAX_ORDER_COST * cap * (w + v))
        by (nonlinear_arith);
    assert(cap * (w + v) <= MAX_CAPACITY * WEIGHT_ONE) by (nonlinear_arith)
        requires
            0 <= cap <= MAX_CAPACITY,
            0 <= w + v <= WEIGHT_ONE,
    ;
    assert(MAX_ORDER_LMD * (cap * (w + v)) == MAX_ORDER_LMD * cap * (w + v)) by (nonlinear_arith);
    assert(MAX_ORDER_COST * (cap * (w + v)) == MAX_ORDER_COST * cap * (w + v))
        by (nonlinear_arith);
}

/// Runs the production forecast for `inp`. The result is exactly the sweep
/// model, and no probability mass is lost: what did not stall is still running
/// at the horizon. A single slot that every first order fills in time stalls
/// with certainty, and no unit of mass earns or spends more than `capacity`
/// full orders would.
pub fn simulate_tp_production(inp: &TradingPostProductionInput) -> (r: ProductionForecast)
    requires
        valid_input(*inp),
    ensures
        r == forecast_of(*inp),
        r.stalled_weight + r.settled_weight == WEIGHT_ONE,
        single_slot_saturates(*inp) ==> r.stalled_weight == WEIGHT_ONE,
        r.total_lmd <= MAX_ORDER_LMD * inp.capacity * WEIGHT_ONE,
        -r.total_gold <= MAX_ORDER_COST * inp.capacity * WEIGHT_ONE,
{
    let h: u64 = (inp.duration_minutes as u64) * 60;
    if inp.capacity == 0 {
        return summarize(WEIGHT_ONE, WEIGHT_ONE * h, 0, 0, 0, inp.duration_minutes);
    }
    let ghost cap_i = cap_of(*inp);
    let ghost hi = horizon(*inp);
    let mut tbl = seed_table(inp);
    let ghost seeded = tbl@;
    let st = run_sweep(&mut tbl, inp);
    let (w, l, c) = settle_row(&tbl, inp);
    proof {
        if single_slot_saturates(*inp) {
            lemma_single_slot_table(*inp, seeded, hi);
            lemma_seed_spares_horizon(*inp, 3);
            assert(hi * cap_i == hi) by (nonlinear_arith)
                requires
                    cap_i == 1,
            ;
            assert(wsum(tbl@, hi, hi + 1) == wsum(tbl@, hi, hi) + tbl@[hi].weight);
            assert(wsum(tbl@, hi * cap_i, hi * cap_i + cap_i) == tbl@[hi].weight);
        }
        lemma_idx(hi, 0, cap_i, hi);
        lemma_total_bound(st.lmd as int, l as int, st.weight as int, w as int, MAX_ORDER_LMD as int, cap_i);
        lemma_total_bound(st.cost as int, c as int, st.weight as int, w as int, MAX_ORDER_COST as int, cap_i);
    }
    summarize(st.weight, st.time, w, st.lmd + l, st.cost + c, inp.duration_minutes)
}

proof fn lemma_total_bound(a: int, b: int, wa: int, wb: int, k: int, cap: int)
    requires
        0 <= cap <= MAX_CAPACITY,
        0 <= k <= MAX_ORDER_LMD,
        0 <= wa,
        0 <= wb,
        wa + wb == WEIGHT_ONE,
        a <= k * cap * wa,
        b <= k * cap * wb,
    ensures
        a + b <= k * cap * WEIGHT_ONE,
        a + b <= MAX_ORDER_LMD * MAX_CAPACITY * WEIGHT_ONE,
{
    assert(k * cap * wa + k * cap * wb == k * cap * (wa + wb)) by (nonlinear_arith);
    assert(k * cap <= MAX_ORDER_LMD * MAX_CAPACITY) by (nonlinear_arith)
        requires
            0 <= cap <= MAX_CAPACITY,
            0 <= k <= MAX_ORDER_LMD,
    ;
    assert(k * cap * WEIGHT_ONE <= MAX_ORDER_LMD * MAX_CAPACITY * WEIGHT_ONE) by (nonlinear_arith)
        requires
            k * cap <= MAX_ORDER_LMD * MAX_CAPACITY,
    ;
}

/// A post with room for a single order, over a window at least as long as every
/// order in progress at the start: each of those orders completes inside the
/// window and fills the queue.
pub open spec fn single_slot_saturates(inp: TradingPostProductionInput) -> bool {
    &&& inp.capacity == 1
    &&& forall|otype: int| 0 <= otype < 3 ==> #[trigger] first_duration(inp, otype) <= horizon(inp)
}

/// With a single slot the sweep never moves mass: it only sweeps it into the tally.
proof fn lemma_single_slot_table(inp: TradingPostProductionInput, tbl0: Seq<Cell>, n: int)
    requires
        inp.capacity == 1,
        n >= 0,
    ensures
        sweep_spec(inp, tbl0, n).0 == tbl0,
    decreases n,
{
    if n > 0 {
        lemma_single_slot_table(inp, tbl0, n - 1);
        let prev = sweep_spec(inp, tbl0, n - 1).0;
        assert(advance_row_spec(prev, inp, n - 1, 0) == prev);
    }
}

proof fn lemma_slots_spare_horizon(
    tbl: Seq<Cell>,
    inp: TradingPostProductionInput,
    otype: int,
    m: int,
)
    requires
        inp.capacity == 1,
        horizon(inp) >= 0,
        tbl.len() == horizon(inp) + 1,
        0 <= m <= horizon(inp),
    ensures
        seed_slots_spec(tbl, inp, otype, m).len() == tbl.len(),
        seed_slots_spec(tbl, inp, otype, m)[horizon(inp)] == tbl[horizon(inp)],
    decreases m,
{
    if m > 0 {
        lemma_slots_spare_horizon(tbl, inp, otype, m - 1);
        let prev = seed_slots_spec(tbl, inp, otype, m - 1);
        assert(seed_put_spec(prev, inp, otype, m - 1)[horizon(inp)] == prev[horizon(inp)]);
    }
}

proof fn lemma_seed_spares_horizon(inp: TradingPostProductionInput, n: int)
    requires
        valid_input(inp),
        single_slot_saturates(inp),
        0 <= n <= 3,
    ensures
        seed_spec(inp, n).len() == horizon(inp) + 1,
        seed_spec(inp, n)[horizon(inp)].weight == 0,
    decreases n,
{
    if n == 0 {
        assert(table_len(inp) == horizon(inp) + 1) by (nonlinear_arith)
            requires
                table_len(inp) == (horizon(inp) + 1) * cap_of(inp),
                cap_of(inp) == 1,
        ;
        assert(seed_spec(inp, 0)[horizon(inp)] == crate::table::empty_cell());
    } else {
        lemma_seed_spares_horizon(inp, n - 1);
        assert(first_duration(inp, n - 1) <= horizon(inp));
        crate::rates::lemma_scaled_seconds_positive(n - 1, inp.speed100 as int);
        lemma_slots_spare_horizon(seed_spec(inp, n - 1), inp, n - 1, first_duration(inp, n - 1));
    }
}

} // verus!
