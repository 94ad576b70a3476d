use tp_forecast::forecast::{simulate_tp_production, summarize, ProductionForecast};
use tp_forecast::table::WEIGHT_ONE;
use tp_forecast::{
    HighRarityOperatorPhase, TradingPostPhase, TradingPostProductionInput,
    TradingPostTailoringSkill,
};

fn as_real(x: u128) -> f64 {
    x as f64 / WEIGHT_ONE as f64
}

fn as_real_signed(x: i128) -> f64 {
    x as f64 / WEIGHT_ONE as f64
}

fn input(minutes: i32, phase: TradingPostPhase, capacity: i32, speed: i32) -> TradingPostProductionInput {
    TradingPostProductionInput {
        duration_minutes: minutes,
        phase,
        capacity,
        speed100: speed,
        tailoring_ramped: vec![],
        tequila_phase: HighRarityOperatorPhase::Absent,
        proviso_phase: HighRarityOperatorPhase::Absent,
        jaye_phase: HighRarityOperatorPhase::Absent,
    }
}

fn close(actual: f64, expected: f64, tol: f64) {
    assert!(
        (actual - expected).abs() <= tol,
        "expected {} within {}, got {}",
        expected,
        tol,
        actual
    );
}

fn conserved(r: &ProductionForecast) {
    assert_eq!(r.stalled_weight as u128 + r.settled_weight as u128, WEIGHT_ONE as u128);
}

#[test]
fn baseline_reproducibility() {
    let r = simulate_tp_production(&input(720, TradingPostPhase::L3, 10, 200));
    conserved(&r);
    close(as_real(r.stall_chance), 0.026411743579, 1e-6);
    close(as_real(r.average_stall_time), 0.003251580801, 1e-6);
    close(as_real(r.total_lmd), 10263.095949, 1e-3);
    close(as_real_signed(r.total_gold), -20.526192, 1e-5);
    close(as_real(r.daily_lmd), 20526.191899, 2e-3);
    close(as_real_signed(r.daily_gold), -41.052384, 1e-5);
    close(as_real(r.net_lmd_speed), 199.953421, 1e-4);
    close(as_real_signed(r.net_gold_speed), 0.0, 1e-5);
}

#[test]
fn default_input_is_the_baseline() {
    let a = simulate_tp_production(&TradingPostProductionInput::default());
    let b = simulate_tp_production(&input(720, TradingPostPhase::L3, 10, 200));
    assert_eq!(a.total_lmd, b.total_lmd);
    assert_eq!(a.stalled_weight, b.stalled_weight);
}

#[test]
fn single_slot_stalls_everything_once_first_orders_finish() {
    let r = simulate_tp_production(&input(1440, TradingPostPhase::L1, 1, 100));
    conserved(&r);
    assert_eq!(r.stalled_weight, WEIGHT_ONE);
    assert_eq!(r.stall_chance, 100 * WEIGHT_ONE as u128);
    close(as_real(r.average_stall_time), 1368.008333, 1e-4);
    close(as_real(r.total_lmd), 499.94213, 1e-3);
}

#[test]
fn single_slot_short_window_stalls_the_finished_part() {
    let r = simulate_tp_production(&input(60, TradingPostPhase::L1, 1, 100));
    conserved(&r);
    close(as_real(r.stall_chance), 41.666667, 1e-4);
    close(as_real(r.average_stall_time), 12.503472, 1e-4);
    close(as_real(r.settled_weight as u128), 0.583333, 1e-5);
    close(as_real(r.total_lmd), 329.836998, 1e-3);
}

#[test]
fn zero_capacity_blocks_the_whole_window() {
    let r = simulate_tp_production(&input(90, TradingPostPhase::L2, 0, 100));
    conserved(&r);
    assert_eq!(r.stall_chance, 100 * WEIGHT_ONE as u128);
    assert_eq!(r.average_stall_time, 90 * WEIGHT_ONE as u128);
    assert_eq!(r.total_lmd, 0);
    assert_eq!(r.total_gold, 0);
    assert_eq!(r.daily_lmd, 0);
}

#[test]
fn ramps_and_operators_match_reference() {
    let mut inp = input(720, TradingPostPhase::L3, 10, 200);
    inp.tailoring_ramped = vec![
        (TradingPostTailoringSkill::Beta, 30),
        (TradingPostTailoringSkill::Alpha, 180),
    ];
    inp.tequila_phase = HighRarityOperatorPhase::E1;
    inp.proviso_phase = HighRarityOperatorPhase::E0;
    let r = simulate_tp_production(&inp);
    conserved(&r);
    close(as_real(r.total_lmd), 12168.599949, 1e-3);
    close(as_real_signed(r.total_gold), -22.062357, 1e-5);
    close(as_real(r.net_lmd_speed), 237.077896, 1e-4);
    close(as_real_signed(r.net_gold_speed), 22.748433, 1e-4);
}

#[test]
fn speed_penalty_matches_reference() {
    let mut inp = input(720, TradingPostPhase::L2, 8, 150);
    inp.tailoring_ramped = vec![(TradingPostTailoringSkill::Alpha, 0)];
    inp.proviso_phase = HighRarityOperatorPhase::E1;
    inp.jaye_phase = HighRarityOperatorPhase::E0;
    let r = simulate_tp_production(&inp);
    conserved(&r);
    assert_eq!(r.stalled_weight, 0);
    close(as_real(r.total_lmd), 9896.368929, 1e-3);
    close(as_real_signed(r.total_gold), -19.792738, 1e-5);
}

#[test]
fn speed_penalty_lowers_yield() {
    let plain = simulate_tp_production(&input(720, TradingPostPhase::L3, 10, 200));
    let mut inp = input(720, TradingPostPhase::L3, 10, 200);
    inp.jaye_phase = HighRarityOperatorPhase::E0;
    let slowed = simulate_tp_production(&inp);
    assert!(slowed.total_lmd < plain.total_lmd);
    inp.jaye_phase = HighRarityOperatorPhase::E2;
    let other = simulate_tp_production(&inp);
    assert_eq!(other.total_lmd, plain.total_lmd);
}

#[test]
fn bonus_raises_first_resource_only() {
    let plain = simulate_tp_production(&input(720, TradingPostPhase::L3, 10, 200));
    let mut inp = input(720, TradingPostPhase::L3, 10, 200);
    inp.tequila_phase = HighRarityOperatorPhase::E1;
    let bonus = simulate_tp_production(&inp);
    assert!(bonus.total_lmd > plain.total_lmd);
    assert_eq!(bonus.total_gold, plain.total_gold);
}

#[test]
fn mixed_input_matches_reference() {
    let mut inp = input(300, TradingPostPhase::L3, 5, 120);
    inp.tailoring_ramped = vec![(TradingPostTailoringSkill::Beta, 0)];
    inp.tequila_phase = HighRarityOperatorPhase::E0;
    inp.jaye_phase = HighRarityOperatorPhase::E0;
    let r = simulate_tp_production(&inp);
    conserved(&r);
    close(as_real(r.total_lmd), 2762.189943, 1e-3);
    close(as_real_signed(r.total_gold), -5.016488, 1e-5);
    close(as_real(r.daily_lmd), 13258.511727, 5e-3);
}

#[test]
fn doubling_the_window_keeps_daily_rates() {
    let a = simulate_tp_production(&input(1440, TradingPostPhase::L3, 38, 200));
    let b = simulate_tp_production(&input(2880, TradingPostPhase::L3, 38, 200));
    conserved(&a);
    conserved(&b);
    let tol = as_real(a.daily_lmd) * 1e-3;
    close(as_real(b.daily_lmd), as_real(a.daily_lmd), tol);
    close(as_real_signed(b.daily_gold), as_real_signed(a.daily_gold), 0.05);
    close(as_real(b.net_lmd_speed), as_real(a.net_lmd_speed), 0.2);
    close(as_real_signed(b.net_gold_speed), as_real_signed(a.net_gold_speed), 0.01);
    close(as_real(a.daily_lmd), 20528.628747, 2e-3);
}

#[test]
fn window_shorter_than_every_order_credits_a_fraction() {
    let r = simulate_tp_production(&input(60, TradingPostPhase::L3, 10, 100));
    conserved(&r);
    assert_eq!(r.stalled_weight, 0);
    let lmd = as_real(r.total_lmd);
    assert!(lmd > 0.0);
    assert!(lmd < 2000.0);
    close(lmd, 426.488746, 1e-3);
    close(as_real_signed(r.total_gold), -0.852977, 1e-5);
}

#[test]
fn summarize_exact_values() {
    let one = WEIGHT_ONE;
    let r = summarize(one / 4, 600 * one, 3 * (one / 4), 1000 * one, 2 * one, 720);
    assert_eq!(r.stalled_weight, one / 4);
    assert_eq!(r.settled_weight, 3 * (one / 4));
    assert_eq!(r.stall_chance, 25 * one as u128);
    assert_eq!(r.average_stall_time, 10 * one as u128);
    assert_eq!(r.total_lmd, 1000 * one as u128);
    assert_eq!(r.total_gold, -2 * one as i128);
    assert_eq!(r.daily_lmd, 2000 * one as u128);
    assert_eq!(r.daily_gold, -4 * one as i128);
    assert_eq!(r.net_lmd_speed, 2000 * one as u128 * 20340 / 2088000);
    assert_eq!(r.net_gold_speed, 20 * one as i128 - 20 * one as i128);
}
