use vstd::prelude::*;
use crate::model::{HighRarityOperatorPhase, TradingPostPhase, TradingPostTailoringSkill};
use crate::table::{lemma_share_bound, WEIGHT_ONE};

verus! {

/// Denominator of a ramp factor: a factor of one is this many units.
pub const RAMP_ONE: u64 = 18000;

/// Elapsed seconds after which a ramping skill is fully ramped.
pub const RAMP_SECONDS: i64 = 9000;

/// Denominator of an order-type share: the three shares always sum to it.
pub const MIX_ONE: u64 = 1800000;

/// Largest yield of the first resource that one order can credit, bonus included.
pub const MAX_ORDER_LMD: u64 = 2500;

/// Largest cost in the second resource of one order.
pub const MAX_ORDER_COST: u64 = 5;

/// Ramp contribution of one skill entry after `t` elapsed seconds, in units of
/// `1 / RAMP_ONE`: the skill multiplier (one half for Alpha, one for Beta) times
/// the ramp progress `(minutes * 60 + t) / 9000` clamped to `[0, 1]`.
pub open spec fn entry_ramp(kind: TradingPostTailoringSkill, minutes: int, t: int) -> int {
    let p = minutes * 60 + t;
    let progress = if p < 0 { 0 } else if p > RAMP_SECONDS { RAMP_SECONDS as int } else { p };
    match kind {
        TradingPostTailoringSkill::Alpha => progress,
        TradingPostTailoringSkill::Beta => 2 * progress,
    }
}

/// The ramp factor after `t` seconds, in units of `1 / RAMP_ONE`: the largest
/// contribution over the entries, and zero without entries.
pub open spec fn ramp_of(entries: Seq<(TradingPostTailoringSkill, i32)>, t: int) -> int
    decreases entries.len(),
{
    if entries.len() == 0 {
        0
    } else {
        let rest = ramp_of(entries.drop_last(), t);
        let e = entries.last();
        let v = entry_ramp(e.0, e.1 as int, t);
        if v > rest { v } else { rest }
    }
}

proof fn lemma_ramp_bounded(entries: Seq<(TradingPostTailoringSkill, i32)>, t: int)
    ensures
        0 <= ramp_of(entries, t) <= RAMP_ONE,
    decreases entries.len(),
{
    if entries.len() > 0 {
        lemma_ramp_bounded(entries.drop_last(), t);
    }
}

/// The ramp factor never decreases as time goes on, and it stays within
/// zero and one.
pub proof fn lemma_ramp_monotonic(entries: Seq<(TradingPostTailoringSkill, i32)>, t1: int, t2: int)
    requires
        t1 <= t2,
    ensures
        ramp_of(entries, t1) <= ramp_of(entries, t2),
        0 <= ramp_of(entries, t1) <= RAMP_ONE,
        0 <= ramp_of(entries, t2) <= RAMP_ONE,
    decreases entries.len(),
{
    lemma_ramp_bounded(entries, t1);
    lemma_ramp_bounded(entries, t2);
    if entries.len() > 0 {
        lemma_ramp_monotonic(entries.drop_last(), t1, t2);
    }
}

/// Ramp factor after `t` elapsed seconds, in units of `1 / RAMP_ONE`.
pub fn ramp_factor(entries: &Vec<(TradingPostTailoringSkill, i32)>, t: u32) -> (r: u64)
    ensures
        r == ramp_of(entries@, t as int),
        r <= RAMP_ONE,
{
    let mut best: u64 = 0;
    let mut k: usize = 0;
    while k < entries.len()
        invariant
            k <= entries@.len(),
            best == ramp_of(entries@.subrange(0, k as int), t as int),
            best <= RAMP_ONE,
        decreases entries@.len() - k,
    {
        let (kind, minutes) = entries[k];
        let p: i64 = minutes as i64 * 60 + t as i64;
        let progress: u64 = if p < 0 {
            0
        } else if p > RAMP_SECONDS {
            RAMP_SECONDS as u64
        } else {
            p as u64
        };
        let v: u64 = match kind {
            TradingPostTailoringSkill::Alpha => progress,
            TradingPostTailoringSkill::Beta => 2 * progress,
        };
        proof {
            let s = entries@.subrange(0, k as int + 1);
            assert(s.drop_last() =~= entries@.subrange(0, k as int));
        }
        if v > best {
            best = v;
        }
        k = k + 1;
    }
    proof {
        assert(entries@.subrange(0, entries@.len() as int) =~= entries@);
    }
    best
}

/// Share of order type `otype` at the start of the ramp, in percent.
pub open spec fn base_percent(phase: TradingPostPhase, otype: int) -> int {
    match phase {
        TradingPostPhase::L1 => if otype == 0 { 100 } else { 0 },
        TradingPostPhase::L2 => if otype == 0 { 70 } else if otype == 1 { 30 } else { 0 },
        TradingPostPhase::L3 => if otype == 0 { 30 } else if otype == 1 { 50 } else { 20 },
    }
}

/// Share of order type `otype` when fully ramped, in percent.
pub open spec fn peak_percent(phase: TradingPostPhase, otype: int) -> int {
    match phase {
        TradingPostPhase::L1 => if otype == 0 { 100 } else { 0 },
        TradingPostPhase::L2 => if otype == 0 { 40 } else if otype == 1 { 60 } else { 0 },
        TradingPostPhase::L3 => if otype == 0 { 5 } else if otype == 1 { 10 } else { 85 },
    }
}

/// Share of order type `otype` under ramp factor `ramp / RAMP_ONE`, in units of
/// `1 / MIX_ONE`: the base share and the peak share interpolated linearly.
pub open spec fn mix_share(phase: TradingPostPhase, otype: int, ramp: int) -> int {
    base_percent(phase, otype) * (RAMP_ONE - ramp) + peak_percent(phase, otype) * ramp
}

/// The three shares of the order mix always sum to one.
pub proof fn lemma_mix_total(phase: TradingPostPhase, ramp: int)
    ensures
        mix_share(phase, 0, ramp) + mix_share(phase, 1, ramp) + mix_share(phase, 2, ramp)
            == MIX_ONE,
        0 <= ramp <= RAMP_ONE ==> mix_share(phase, 0, ramp) > 0,
        0 <= ramp <= RAMP_ONE ==> mix_share(phase, 1, ramp) >= 0,
        0 <= ramp <= RAMP_ONE ==> mix_share(phase, 2, ramp) >= 0,
{
    let (b0, b1, b2) = (base_percent(phase, 0), base_percent(phase, 1), base_percent(phase, 2));
    let (pk0, pk1, pk2) = (peak_percent(phase, 0), peak_percent(phase, 1), peak_percent(phase, 2));
    assert(b0 + b1 + b2 == 100 && pk0 + pk1 + pk2 == 100);
    assert(b0 > 0 && pk0 > 0 && b1 >= 0 && pk1 >= 0 && b2 >= 0 && pk2 >= 0);
    assert(b0 * (RAMP_ONE - ramp) + pk0 * ramp + b1 * (RAMP_ONE - ramp) + pk1 * ramp + b2 * (
    RAMP_ONE - ramp) + pk2 * ramp == (b0 + b1 + b2) * (RAMP_ONE - ramp) + (pk0 + pk1 + pk2) * ramp)
        by (nonlinear_arith);
    assert(0 <= ramp <= RAMP_ONE ==> b0 * (RAMP_ONE - ramp) + pk0 * ramp > 0) by (nonlinear_arith)
        requires b0 > 0, pk0 > 0;
    assert(0 <= ramp <= RAMP_ONE ==> b1 * (RAMP_ONE - ramp) + pk1 * ramp >= 0) by (nonlinear_arith)
        requires b1 >= 0, pk1 >= 0;
    assert(0 <= ramp <= RAMP_ONE ==> b2 * (RAMP_ONE - ramp) + pk2 * ramp >= 0) by (nonlinear_arith)
        requires b2 >= 0, pk2 >= 0;
}

/// Share of order type `otype` (0, 1 or 2) under the given ramp factor.
pub fn order_share(phase: TradingPostPhase, otype: usize, ramp: u64) -> (r: u64)
    requires
        otype < 3,
        ramp <= RAMP_ONE,
    ensures
        r == mix_share(phase, otype as int, ramp as int),
        r <= MIX_ONE,
{
    let (base, peak): (u64, u64) = match phase {
        TradingPostPhase::L1 => if otype == 0 { (100, 100) } else { (0, 0) },
        TradingPostPhase::L2 => if otype == 0 {
            (70, 40)
        } else if otype == 1 {
            (30, 60)
        } else {
            (0, 0)
        },
        TradingPostPhase::L3 => if otype == 0 {
            (30, 5)
        } else if otype == 1 {
            (50, 10)
        } else {
            (20, 85)
        },
    };
    base * (RAMP_ONE - ramp) + peak * ramp
}

/// Steps of the yield bonus of the first two order types: none, one, or two.
pub open spec fn proviso_step(p: HighRarityOperatorPhase) -> int {
    match p {
        HighRarityOperatorPhase::Absent => 0,
        HighRarityOperatorPhase::E0 => 1,
        HighRarityOperatorPhase::E1 => 1,
        HighRarityOperatorPhase::E2 => 2,
    }
}

/// Yield of the first resource of a completed order of type `otype`.
pub open spec fn order_lmd(proviso: HighRarityOperatorPhase, otype: int) -> int {
    if otype == 0 {
        1000 + 500 * proviso_step(proviso)
    } else if otype == 1 {
        1500 + 500 * proviso_step(proviso)
    } else {
        2000
    }
}

/// Cost in the second resource of an order of type `otype` (its yield, negated).
pub open spec fn order_cost(proviso: HighRarityOperatorPhase, otype: int) -> int {
    if otype == 0 {
        2 + proviso_step(proviso)
    } else if otype == 1 {
        3 + proviso_step(proviso)
    } else {
        4
    }
}

/// Bonus of the first resource granted on accepting an order of type `otype`.
pub open spec fn order_bonus(tequila: HighRarityOperatorPhase, otype: int) -> int {
    if otype == 2 {
        match tequila {
            HighRarityOperatorPhase::Absent => 0,
            HighRarityOperatorPhase::E0 => 250,
            HighRarityOperatorPhase::E1 => 250,
            HighRarityOperatorPhase::E2 => 500,
        }
    } else {
        0
    }
}

/// Duration of an order of type `otype` at the baseline speed, in seconds.
pub open spec fn base_seconds(otype: int) -> int {
    if otype == 0 {
        8640
    } else if otype == 1 {
        12600
    } else {
        16560
    }
}

/// Speed, in percent, of an order started at queue depth `depth`.
pub open spec fn depth_speed(jaye: HighRarityOperatorPhase, speed: int, depth: int) -> int {
    if jaye == HighRarityOperatorPhase::E0 {
        speed - 4 * (depth + 1)
    } else {
        speed
    }
}

/// `ceil(base_seconds * 100 / speed)`: the order's duration in seconds at `speed` percent.
pub open spec fn scaled_seconds(otype: int, speed: int) -> int {
    (base_seconds(otype) * 100 + speed - 1) / speed
}

pub fn lmd_of(proviso: HighRarityOperatorPhase, otype: usize) -> (r: u64)
    requires
        otype < 3,
    ensures
        r == order_lmd(proviso, otype as int),
        r <= MAX_ORDER_LMD,
{
    let step: u64 = match proviso {
        HighRarityOperatorPhase::Absent => 0,
        HighRarityOperatorPhase::E0 => 1,
        HighRarityOperatorPhase::E1 => 1,
        HighRarityOperatorPhase::E2 => 2,
    };
    if otype == 0 {
        1000 + 500 * step
    } else if otype == 1 {
        1500 + 500 * step
    } else {
        2000
    }
}

pub fn cost_of(proviso: HighRarityOperatorPhase, otype: usize) -> (r: u64)
    requires
        otype < 3,
    ensures
        r == order_cost(proviso, otype as int),
        r <= MAX_ORDER_COST,
{
    let step: u64 = match proviso {
        HighRarityOperatorPhase::Absent => 0,
        HighRarityOperatorPhase::E0 => 1,
        HighRarityOperatorPhase::E1 => 1,
        HighRarityOperatorPhase::E2 => 2,
    };
    if otype == 0 {
        2 + step
    } else if otype == 1 {
        3 + step
    } else {
        4
    }
}

pub fn bonus_of(tequila: HighRarityOperatorPhase, otype: usize) -> (r: u64)
    requires
        otype < 3,
    ensures
        r == order_bonus(tequila, otype as int),
        r + order_lmd(HighRarityOperatorPhase::Absent, otype as int) <= MAX_ORDER_LMD,
{
    if otype == 2 {
        match tequila {
            HighRarityOperatorPhase::Absent => 0,
            HighRarityOperatorPhase::E0 => 250,
            HighRarityOperatorPhase::E1 => 250,
            HighRarityOperatorPhase::E2 => 500,
        }
    } else {
        0
    }
}

/// Duration, in seconds, of an order of type `otype` run at `speed` percent.
pub fn order_seconds(otype: usize, speed: i32) -> (r: u64)
    requires
        otype < 3,
        speed > 0,
    ensures
        r == scaled_seconds(otype as int, speed as int),
        1 <= r <= base_seconds(otype as int) * 100,
{
    let base: i64 = if otype == 0 {
        8640
    } else if otype == 1 {
        12600
    } else {
        16560
    };
    let speed: i64 = speed as i64;
    proof {
        let b = base as int * 100;
        assert(b + speed - 1 >= speed);
        vstd::arithmetic::div_mod::lemma_div_is_ordered(speed as int, b + speed - 1, speed as int);
        vstd::arithmetic::div_mod::lemma_div_by_self(speed as int);
        assert(b + speed - 1 <= b * speed) by (nonlinear_arith)
            requires b >= 1, speed >= 1;
        vstd::arithmetic::div_mod::lemma_div_is_ordered(b + speed - 1, b * speed, speed as int);
        vstd::arithmetic::div_mod::lemma_div_multiples_vanish(b, speed as int);
    }
    ((base * 100 + speed - 1) / speed) as u64
}

/// Yield credited for an order cut off after `worked` of its `dur` seconds: the
/// order's full yield `per_order`, for the mass `mass`, scaled by the fraction
/// worked and rounded down. It never exceeds the full order's yield.
pub fn partial_yield(per_order: u64, mass: u64, worked: u64, dur: u64) -> (r: u128)
    requires
        per_order <= MAX_ORDER_LMD,
        mass <= WEIGHT_ONE,
        1 <= dur,
        worked <= dur,
    ensures
        r == per_order * mass * worked / dur as int,
        r <= per_order * mass,
{
    proof {
        assert(per_order * mass <= MAX_ORDER_LMD * WEIGHT_ONE) by (nonlinear_arith)
            requires
                per_order <= MAX_ORDER_LMD,
                mass <= WEIGHT_ONE,
        ;
        assert(per_order * mass * worked <= MAX_ORDER_LMD * WEIGHT_ONE * 0x1_0000_0000_0000_0000)
            by (nonlinear_arith)
            requires
                per_order * mass <= MAX_ORDER_LMD * WEIGHT_ONE,
                per_order * mass >= 0,
                worked < 0x1_0000_0000_0000_0000,
        ;
        lemma_share_bound(worked as int, 1, dur as int, per_order * mass);
        assert(worked * (per_order * mass) == per_order * mass * worked) by (nonlinear_arith);
    }
    (per_order as u128) * (mass as u128) * (worked as u128) / (dur as u128)
}

pub proof fn lemma_scaled_seconds_positive(otype: int, speed: int)
    requires
        speed >= 1,
    ensures
        scaled_seconds(otype, speed) >= 1,
{
    let b = base_seconds(otype) * 100;
    vstd::arithmetic::div_mod::lemma_div_is_ordered(speed, b + speed - 1, speed);
    vstd::arithmetic::div_mod::lemma_div_by_self(speed);
}

} // verus!
