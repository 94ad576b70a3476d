use tp_forecast::rates::{
    bonus_of, cost_of, lmd_of, order_seconds, order_share, partial_yield, ramp_factor, MIX_ONE,
    RAMP_ONE,
};
use tp_forecast::{
    HighRarityOperatorPhase, TradingPostPhase, TradingPostProductionInput,
    TradingPostTailoringSkill,
};

#[test]
fn ramp_without_entries_is_zero() {
    assert_eq!(ramp_factor(&vec![], 0), 0);
    assert_eq!(ramp_factor(&vec![], 100000), 0);
}

#[test]
fn ramp_values() {
    let beta = vec![(TradingPostTailoringSkill::Beta, 0)];
    assert_eq!(ramp_factor(&beta, 0), 0);
    assert_eq!(ramp_factor(&beta, 4500), RAMP_ONE / 2);
    assert_eq!(ramp_factor(&beta, 9000), RAMP_ONE);
    assert_eq!(ramp_factor(&beta, 20000), RAMP_ONE);
    let alpha = vec![(TradingPostTailoringSkill::Alpha, 180)];
    assert_eq!(ramp_factor(&alpha, 0), RAMP_ONE / 2);
    let both = vec![
        (TradingPostTailoringSkill::Alpha, 180),
        (TradingPostTailoringSkill::Beta, 30),
    ];
    assert_eq!(ramp_factor(&both, 0), RAMP_ONE / 2);
    let short = vec![(TradingPostTailoringSkill::Beta, 30)];
    assert_eq!(ramp_factor(&short, 0), 3600);
    assert_eq!(ramp_factor(&both, 7200), RAMP_ONE);
    let negative = vec![(TradingPostTailoringSkill::Beta, -10)];
    assert_eq!(ramp_factor(&negative, 0), 0);
}

#[test]
fn ramp_never_decreases() {
    let entries = vec![
        (TradingPostTailoringSkill::Alpha, 60),
        (TradingPostTailoringSkill::Beta, 5),
    ];
    let mut last = 0;
    for t in (0..12000u32).step_by(250) {
        let r = ramp_factor(&entries, t);
        assert!(r >= last);
        assert!(r <= RAMP_ONE);
        last = r;
    }
}

#[test]
fn mix_tables() {
    assert_eq!(order_share(TradingPostPhase::L1, 0, 0), MIX_ONE);
    assert_eq!(order_share(TradingPostPhase::L2, 0, 0), 70 * RAMP_ONE);
    assert_eq!(order_share(TradingPostPhase::L2, 1, RAMP_ONE), 60 * RAMP_ONE);
    assert_eq!(order_share(TradingPostPhase::L3, 2, RAMP_ONE), 85 * RAMP_ONE);
    assert_eq!(order_share(TradingPostPhase::L3, 0, RAMP_ONE / 2), 30 * 9000 + 5 * 9000);
    for phase in [TradingPostPhase::L1, TradingPostPhase::L2, TradingPostPhase::L3] {
        for ramp in [0, 1, 777, RAMP_ONE / 2, RAMP_ONE] {
            let total = order_share(phase, 0, ramp) + order_share(phase, 1, ramp) + order_share(phase, 2, ramp);
            assert_eq!(total, MIX_ONE);
        }
    }
}

#[test]
fn order_durations() {
    assert_eq!(order_seconds(0, 100), 8640);
    assert_eq!(order_seconds(0, 200), 4320);
    assert_eq!(order_seconds(1, 300), 4200);
    assert_eq!(order_seconds(2, 300), 5520);
    assert_eq!(order_seconds(0, 7), 123429);
    assert_eq!(order_seconds(2, 40), 41400);
}

#[test]
fn order_yields() {
    assert_eq!(lmd_of(HighRarityOperatorPhase::Absent, 0), 1000);
    assert_eq!(lmd_of(HighRarityOperatorPhase::E1, 1), 2000);
    assert_eq!(lmd_of(HighRarityOperatorPhase::E2, 0), 2000);
    assert_eq!(lmd_of(HighRarityOperatorPhase::E2, 2), 2000);
    assert_eq!(cost_of(HighRarityOperatorPhase::E0, 0), 3);
    assert_eq!(cost_of(HighRarityOperatorPhase::E2, 1), 5);
    assert_eq!(cost_of(HighRarityOperatorPhase::E2, 2), 4);
    assert_eq!(bonus_of(HighRarityOperatorPhase::E0, 2), 250);
    assert_eq!(bonus_of(HighRarityOperatorPhase::E1, 2), 250);
    assert_eq!(bonus_of(HighRarityOperatorPhase::E2, 2), 500);
    assert_eq!(bonus_of(HighRarityOperatorPhase::E2, 1), 0);
    assert_eq!(bonus_of(HighRarityOperatorPhase::Absent, 2), 0);
}

#[test]
fn labels() {
    assert_eq!(TradingPostPhase::L1.to_string(), "Lv1");
    assert_eq!(TradingPostPhase::L3.to_string(), "Lv3");
    assert_eq!(TradingPostTailoringSkill::Alpha.to_string(), "Alpha");
    assert_eq!(TradingPostTailoringSkill::Beta.to_string(), "Beta");
    assert_eq!(HighRarityOperatorPhase::Absent.to_string(), "None");
    assert_eq!(HighRarityOperatorPhase::E0.to_string(), "Elite 0");
    assert_eq!(HighRarityOperatorPhase::E2.to_string(), "Elite 2");
}

#[test]
fn default_input() {
    let d = TradingPostProductionInput::default();
    assert_eq!(d.duration_minutes, 720);
    assert_eq!(d.phase, TradingPostPhase::L3);
    assert_eq!(d.capacity, 10);
    assert_eq!(d.speed100, 200);
    assert!(d.tailoring_ramped.is_empty());
    assert_eq!(d.jaye_phase, HighRarityOperatorPhase::Absent);
}

#[test]
fn cut_off_orders_earn_their_fraction() {
    assert_eq!(partial_yield(2000, 1000, 30, 100), 600_000);
    assert_eq!(partial_yield(1000, 7, 1, 3), 2333);
    assert_eq!(partial_yield(1500, 4, 0, 9), 0);
    assert_eq!(partial_yield(2500, 1 << 40, 4320, 4320), 2500 * (1u128 << 40));
    assert!(partial_yield(2000, 1 << 40, 4319, 4320) < 2000 * (1u128 << 40));
}
