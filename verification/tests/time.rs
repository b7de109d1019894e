use patzer::search::Searcher;
use patzer::time::{
    adaptive_soft_time, allocate_time, volatility_budget, volatility_factor, Limits, VOL_HI, VOL_LO, VOL_MAX, VOL_MIN,
    VOL_W,
};
use patzer::tt::TT;

#[test]
fn stable_moves_save_time_and_deterioration_spends_it() {
    assert!(adaptive_soft_time(1000, 3000, 4, false, 0) < 1000);
    assert!(adaptive_soft_time(1000, 3000, 0, true, 80) > 1000);
    assert_eq!(adaptive_soft_time(1000, 3000, 0, false, -500), 1000);
}

#[test]
fn a_full_block_retains_its_hard_reserve() {
    for stressed in [false, true] {
        let mut remaining = 900_000u128;
        for moves in (1..=40).rev() {
            let (base, hard) = allocate_time(remaining, 0, Some(moves));
            let soft = adaptive_soft_time(
                base,
                hard,
                if stressed { 0 } else { 4 },
                stressed,
                if stressed { 100 } else { 0 },
            );
            assert!(soft > 0 && soft <= hard && hard < remaining);
            let spend = (soft * 14 / 10).min(hard);
            remaining -= spend;
            assert!(remaining > 0);
        }
    }
}

/// Mean change in pawns.
fn volatility(hist: Vec<i32>) -> Option<f64> {
    let mut s = Searcher::<TT>::new(1);
    s.eval_hist_game = hist;
    s.recent_volatility().map(|(total, n)| total as f64 / 100.0 / n as f64)
}

#[test]
fn too_short_a_history_declines_to_guess() {
    assert_eq!(volatility(vec![]), None);
    assert_eq!(volatility(vec![10]), None);
    assert_eq!(volatility(vec![10, 20]), None);
    assert!(volatility(vec![10, 20, 30]).is_some());
}

#[test]
fn volatility_is_mean_abs_delta_in_pawns() {
    let v = volatility(vec![0, 50, 200]).unwrap();
    assert!((v - 1.0).abs() < 1e-9, "got {v}");
    let v = volatility(vec![30, 30, 30, 30]).unwrap();
    assert!(v.abs() < 1e-9, "got {v}");
}

#[test]
fn a_single_mate_flip_cannot_dominate() {
    let v = volatility(vec![0, 0, 32000]).unwrap();
    assert!(v <= 2.5 + 1e-9, "mate flip leaked through: {v}");
}

#[test]
fn window_is_bounded_by_vol_w() {
    let mut h = vec![0, 30000];
    h.extend(std::iter::repeat(500).take(VOL_W + 4));
    let v = volatility(h).unwrap();
    assert!(v.abs() < 1e-9, "window not truncated to VOL_W: {v}");
}

#[test]
fn scaling_factor_spans_min_to_max_and_clamps() {
    let min = VOL_MIN as f64 / 100.0;
    let max = VOL_MAX as f64 / 100.0;
    // a mean change in centipawns, over a hundred steps to allow for fractions
    let f = |v: f64| {
        let (num, den) = volatility_factor((v * 100.0 * 100.0).min(50_000.0) as u64, 100);
        num as f64 / den as f64
    };
    assert!((f(0.0) - min).abs() < 1e-9);
    assert!((f(VOL_LO as f64 / 100.0) - min).abs() < 1e-9);
    assert!((f(VOL_HI as f64 / 100.0) - max).abs() < 1e-9);
    assert!((f(99.0) - max).abs() < 1e-9);
    assert!(f(0.35) > min && f(0.35) < max);
}

#[test]
fn a_wild_game_gets_more_time_but_not_past_the_hard_limit() {
    assert_eq!(volatility_budget(1000, 5000, 0, 4), 800);
    assert_eq!(volatility_budget(1000, 5000, 2000, 4), 1600);
    assert_eq!(volatility_budget(1000, 1200, 2000, 4), 1200);
    assert_eq!(volatility_budget(1000, 5000, 35, 1), 1200);
}

/// Walks a block of forty moves in fifteen minutes: the share of the clock used, and the worst
/// overspend.
fn walk_block(movestogo: bool) -> (f64, i128) {
    let budget: u128 = 900_000;
    let mut t = budget;
    let mut used: u128 = 0;
    let mut worst: i128 = i128::MIN;
    for mv in 0..40u32 {
        let mtg = if movestogo { Some(40 - mv) } else { None };
        let (soft, hard) = allocate_time(t, 0, mtg);
        assert!(soft <= hard, "soft {soft} exceeded hard {hard} at move {mv}");
        let spend = (soft * 14 / 10).min(hard);
        worst = worst.max(spend as i128 - t as i128);
        used += spend;
        t = t.saturating_sub(spend);
    }
    (used as f64 / budget as f64, worst)
}

#[test]
fn moves_to_go_spends_the_block() {
    let (frac, worst) = walk_block(true);
    assert!(worst < 0, "a move was allocated more time than remained on the clock");
    assert!(frac > 0.90, "only {:.1}% of the 40/15 budget used", 100.0 * frac);
    assert!(frac < 1.0, "allocated {:.1}% of the budget -- that flags", 100.0 * frac);
}

#[test]
fn the_increment_rule_underspends_a_moves_to_go_block() {
    let (frac, _) = walk_block(false);
    assert!(frac < 0.90, "expected the old rule to underspend, got {:.1}%", 100.0 * frac);
    let (with_mtg, _) = walk_block(true);
    assert!(with_mtg > frac + 0.10, "movestogo must recover a large part of the budget");
}

#[test]
fn increment_controls_are_unchanged() {
    for &(t, inc) in &[(300_000u128, 3_000u128), (10_000, 100), (40, 0)] {
        let (soft, hard) = allocate_time(t, inc, None);
        assert_eq!(soft, (t / 30 + inc * 3 / 4).min(hard));
        assert!(soft <= hard && hard >= 1);
    }
}

#[test]
fn the_final_move_of_a_block_keeps_a_reserve() {
    let (soft, hard) = allocate_time(120_000, 0, Some(1));
    assert!(hard < 120_000, "no reserve left against the clock");
    assert!(soft > 90_000, "far too timid with one move to make: {soft} ms");
}

#[test]
fn a_desperate_clock_still_yields_a_positive_budget() {
    for &t in &[1u128, 40, 120, 1000] {
        for mtg in [None, Some(1), Some(40)] {
            let (soft, hard) = allocate_time(t, 0, mtg);
            assert!(hard >= 1 && soft <= hard, "t={t} mtg={mtg:?} -> ({soft},{hard})");
        }
    }
}

#[test]
fn budgets_of_given_clocks() {
    // 150 + min(800, 45000) kept back of 900000, a fortieth of the rest, nine tenths of that
    assert_eq!(allocate_time(900_000, 0, Some(40)), (20_228, 67_428));
    assert_eq!(allocate_time(300_000, 3_000, None), (12_250, 50_000));
    assert_eq!(allocate_time(120_000, 0, Some(1)), (107_847, 119_830));
    assert_eq!(allocate_time(1, 0, Some(40)), (0, 1));
}

#[test]
fn a_falling_score_spends_and_a_settled_move_saves() {
    assert_eq!(adaptive_soft_time(1000, 3000, 3, false, 0), 750);
    assert_eq!(adaptive_soft_time(1000, 3000, 2, false, 0), 1000);
    assert_eq!(adaptive_soft_time(1000, 3000, 0, true, 100), 1500);
    assert_eq!(adaptive_soft_time(1000, 1100, 0, true, 100), 1100);
    assert_eq!(adaptive_soft_time(0, 10, 0, false, 0), 1);
    assert_eq!(adaptive_soft_time(u128::MAX, u128::MAX, 0, true, 0), u128::MAX / 100);
}

#[test]
fn no_limits_at_first() {
    let l = Limits::default();
    assert!(l.depth.is_none() && l.nodes.is_none() && l.movetime.is_none());
    assert!(l.wtime.is_none() && l.btime.is_none() && l.winc.is_none() && l.binc.is_none());
    assert!(l.movestogo.is_none() && !l.infinite && l.move_overhead == 0 && !l.adaptive_time);
}
