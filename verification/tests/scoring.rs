use patzer::board::{Move, Position, BISHOP, BLACK, KING, KNIGHT, PAWN, QUEEN, ROOK, WHITE};
use patzer::eval::{evaluate, mirror, piece_val};
use patzer::history::{corr_index, hist_bonus, Preds, Tables, INF, MATE};
use patzer::instrument::{record, record_cutoff, Counters};
use patzer::reductions::build_lmr_table;
use patzer::rules::{
    bound_for, has_non_pawn, iir_depth, lmp_limit, mate_window, null_reduction, probcut, reduction, reverse_futility,
    tt_cuts, tt_score_from, tt_score_to,
};
use patzer::see::{see, see_with};
use patzer::tag;
use patzer::tt::{BOUND_EXACT, BOUND_LOWER, BOUND_NONE, BOUND_UPPER};
use patzer::tune::{Params, PARAMS};

fn board(fen: &str) -> Position {
    Position::from_fen(fen).unwrap()
}

fn uci(b: &Position, text: &str) -> Move {
    b.parse_uci(text).unwrap()
}

#[test]
fn exchanges_by_hand() {
    for (fen, mv, want) in [
        ("k7/8/8/3p4/4P3/8/8/K7 w - - 0 1", "e4d5", 82),
        ("k7/8/4p3/3p4/4P3/8/8/K7 w - - 0 1", "e4d5", 0),
        ("k7/8/4p3/3p4/8/8/3Q4/K7 w - - 0 1", "d2d5", 82 - 1025),
    ] {
        let b = board(fen);
        assert_eq!(see(&b, uci(&b, mv)), want, "{fen}");
    }
    // a rook behind a rook joins in
    let b = board("k2r4/8/8/3p4/8/8/3R4/K2R4 w - - 0 1");
    assert_eq!(see(&b, uci(&b, "d2d5")), 82);
    let b = board("k2r4/3r4/8/3p4/8/8/3R4/K2R4 w - - 0 1");
    assert_eq!(see(&b, uci(&b, "d2d5")), 82 - 477);
    // en passant
    let b = board("4k3/8/8/3pP3/8/8/8/4K3 w - d6 0 1");
    assert_eq!(see_with(&b, uci(&b, "e5d6"), PAWN), 82);
    // knight, bishop and king attackers
    let b = board("k7/8/2n5/4p3/8/3N4/8/K7 w - - 0 1");
    assert_eq!(see(&b, uci(&b, "d3e5")), 82 - 337);
    let b = board("8/8/3k4/4p3/8/3N4/1B6/K7 w - - 0 1");
    assert_eq!(see(&b, uci(&b, "d3e5")), 82);
}

#[test]
fn evaluation_is_balanced_at_first_and_changes_sign_with_the_mover() {
    assert_eq!(evaluate(&Position::start()), 0);
    let w = board("4k3/8/8/8/8/8/8/QQ2K3 w - - 0 1");
    let b = board("4k3/8/8/8/8/8/8/QQ2K3 b - - 0 1");
    assert_eq!(evaluate(&w), -evaluate(&b));
    assert!(evaluate(&w) > 1500);
    // colours exchanged and the board turned over
    let turned = board("qq2k3/8/8/8/8/8/8/4K3 b - - 0 1");
    assert_eq!(evaluate(&w), evaluate(&turned));
    assert_eq!(mirror(0), 56);
    assert_eq!(mirror(63), 7);
    let vals: Vec<i32> = [PAWN, KNIGHT, BISHOP, ROOK, QUEEN, KING].iter().map(|&p| piece_val(p)).collect();
    assert_eq!(vals[..5], [82, 337, 365, 477, 1025]);
}

#[test]
fn reductions_follow_the_formula() {
    for (base, div) in [(75, 225), (20, 120), (150, 400), (0, 180), (100, 0), (-260, 50), (99, 1), (30_000, 225), (-30_000, 225)] {
        let t = build_lmr_table(&Params { lmr_base: base, lmr_div: div, ..Params::default() });
        assert_eq!(t.len(), 4096);
        for d in 0..64usize {
            for m in 0..64usize {
                let want = if d == 0 || m == 0 {
                    0
                } else {
                    (base as f64 / 100.0 + (d as f64).ln() * (m as f64).ln() / (div.max(1) as f64 / 100.0)) as i8
                };
                assert_eq!(t[64 * d + m], want, "base {base} divisor {div} depth {d} move {m}");
            }
        }
    }
}

#[test]
fn reduction_adjustments() {
    let p = Params::default();
    assert_eq!(reduction(&p, 3, true, false, true, false, 0), 3);
    assert_eq!(reduction(&p, 3, true, true, true, false, 0), 2);
    assert_eq!(reduction(&p, 3, true, false, false, false, 0), 4);
    assert_eq!(reduction(&p, 3, true, false, true, true, 0), 5);
    assert_eq!(reduction(&p, 3, false, false, true, false, 0), 2);
    assert_eq!(reduction(&p, 3, true, false, true, false, 512), 2);
    assert_eq!(reduction(&p, 3, true, false, true, false, 100_000), 1);
    assert_eq!(reduction(&p, 3, true, false, true, false, -100_000), 5);
    assert_eq!(reduction(&p, 0, true, true, true, false, 100_000), 0);
}

#[test]
fn mate_scores_survive_the_table() {
    for s in [-MATE + 3, MATE - 9, 0, 250, -250] {
        for ply in [0, 5, 40] {
            assert_eq!(tt_score_from(tt_score_to(s, ply), ply), s);
        }
    }
    assert_eq!(tt_score_to(MATE - 9, 5), MATE - 4);
    assert_eq!(tt_score_from(-MATE + 1, 5), -MATE + 6);
}

#[test]
fn bounds_and_windows() {
    assert_eq!(bound_for(10, 20, 30), BOUND_UPPER);
    assert_eq!(bound_for(25, 20, 30), BOUND_EXACT);
    assert_eq!(bound_for(30, 20, 30), BOUND_LOWER);
    assert!(tt_cuts(BOUND_EXACT, 25, 20, 30));
    assert!(tt_cuts(BOUND_LOWER, 30, 20, 30) && !tt_cuts(BOUND_LOWER, 29, 20, 30));
    assert!(tt_cuts(BOUND_UPPER, 20, 20, 30) && !tt_cuts(BOUND_UPPER, 21, 20, 30));
    assert!(!tt_cuts(BOUND_NONE, 25, 20, 30));
    assert_eq!(mate_window(-INF, INF, 4), (-MATE + 4, MATE - 5));
    assert_eq!(mate_window(-10, 10, 4), (-10, 10));
}

#[test]
fn shortcuts() {
    let p = Params::default();
    assert!(reverse_futility(&p, false, 1, 2, false, 400, 100));
    assert!(!reverse_futility(&p, false, 0, 2, false, 400, 100));
    assert!(!reverse_futility(&p, true, 1, 2, false, 400, 100));
    assert!(!reverse_futility(&p, false, 1, 2, false, 300, 100));
    assert_eq!(iir_depth(6, 0, false), 5);
    assert_eq!(iir_depth(6, 7, false), 6);
    assert!(iir_depth(8, 0, true) < iir_depth(8, 0, false));
    assert_eq!(null_reduction(&p, 10, 100, 100), 3 + 10 / 5);
    assert!(null_reduction(&p, 10, 900, 100) > null_reduction(&p, 10, 100, 100));
    assert!(probcut(false, false, 1, 5, 100, -1, 0, BOUND_NONE));
    assert!(!probcut(true, false, 1, 5, 100, -1, 0, BOUND_NONE));
    assert!(!probcut(false, false, 1, 4, 100, -1, 0, BOUND_NONE));
    assert!(!probcut(false, false, 1, 5, 100, 5, 100, BOUND_EXACT));
    assert_eq!(lmp_limit(&p, 3, true), 12);
    assert_eq!(lmp_limit(&p, 3, false), 6);
    assert!(has_non_pawn(&Position::start(), WHITE));
    assert!(!has_non_pawn(&board("4k3/8/8/8/8/8/4P3/4K3 w - - 0 1"), WHITE));
    assert!(!has_non_pawn(&board("4k3/8/8/8/8/8/8/4KR2 w - - 0 1"), BLACK));
}

#[test]
fn history_moves_its_way_and_stays_in_range() {
    let mut t = Tables::new();
    for _ in 0..200 {
        t.capt_bonus(WHITE, KNIGHT, 20, PAWN, 1600);
    }
    let top = *t.capt.iter().max().unwrap();
    assert!(top > 16_000 && top <= 16_384);
    for _ in 0..400 {
        t.capt_bonus(WHITE, KNIGHT, 20, PAWN, -1600);
    }
    assert!(*t.capt.iter().min().unwrap() < -16_000);
    let p = Params::default();
    assert_eq!(hist_bonus(&p, 3), 36);
    assert_eq!(hist_bonus(&p, 100), 1600);
    let none = Preds { one: 384, two: 384 };
    assert_eq!(t.cont_score(&none, 5), 0);
}

#[test]
fn corrections_are_learned_by_pawn_structure() {
    let mut t = Tables::new();
    let a = board("4k3/p7/8/8/8/8/P7/4K3 w - - 0 1");
    let b = board("4k3/p7/8/8/8/5N2/P7/4K3 w - - 0 1");
    let c = board("4k3/p7/8/8/8/8/1P6/4K3 w - - 0 1");
    assert_eq!(corr_index(&a, WHITE), corr_index(&b, WHITE));
    assert_ne!(corr_index(&a, WHITE), corr_index(&a, BLACK));
    assert_ne!(corr_index(&a, WHITE), corr_index(&c, WHITE));
    let ci = corr_index(&a, WHITE);
    assert_eq!(t.corrected_eval_at(ci, 50), 50);
    for _ in 0..50 {
        t.update_corr(ci, 50, 150, BOUND_EXACT, 8, false);
    }
    let learned = t.corrected_eval_at(ci, 50);
    assert!(learned > 80 && learned <= 178);
    for _ in 0..500 {
        t.update_corr(corr_index(&c, WHITE), 0, 5_000, BOUND_EXACT, 8, false);
    }
    assert_eq!(t.corrected_eval_at(corr_index(&c, WHITE), 50), 177);
    t.update_corr(ci, 50, -900, BOUND_EXACT, 8, true);
    assert_eq!(t.corrected_eval_at(ci, 50), learned);
    t.update_corr(ci, 50, 20, BOUND_LOWER, 8, false);
    assert_eq!(t.corrected_eval_at(ci, 50), learned);
}

#[test]
fn a_correction_never_passes_its_target() {
    let mut t = Tables::new();
    let mut last = t.corr[5];
    for _ in 0..300 {
        t.update_corr(5, 50, 90, BOUND_EXACT, 20, false);
        assert!(last <= t.corr[5] && t.corr[5] <= 40 * 256);
        last = t.corr[5];
    }
    assert!(last > 39 * 256);
    assert!(t.corr.iter().enumerate().all(|(i, &x)| i == 5 || x == 0));
    t.update_corr(5, 50, MATE, BOUND_EXACT, 20, false);
    t.update_corr(5, 50, 10, BOUND_LOWER, 20, false);
    t.update_corr(5, 50, 90, BOUND_UPPER, 20, false);
    t.update_corr(5, -2_000_000_000, 1_000_000_000, BOUND_EXACT, 20, true);
    assert_eq!(t.corr[5], last);
}

#[test]
fn tags_read_back() {
    for moved in 0..6u8 {
        for taken in [None, Some(PAWN), Some(QUEEN)] {
            let t = tag::make(moved, taken, true, false);
            assert_eq!(tag::piece(t), moved as usize);
            assert_eq!(tag::is_capture(t), taken.is_some());
            assert!(tag::see_winning(t));
            if let Some(v) = taken {
                assert_eq!(tag::victim(t), v + 1);
            }
        }
    }
    assert!(tag::is_hist_score(tag::make(KNIGHT, None, false, true)));
    assert!(!tag::is_hist_score(tag::make(KNIGHT, None, false, false)));
}

#[test]
fn parameters_are_set_by_name() {
    let mut p = Params::default();
    let name = |s: &str| s.chars().collect::<Vec<char>>();
    assert!(patzer::tune::set(&mut p, &name("rfpmargin"), 99));
    assert_eq!(p.rfp_margin, 99);
    assert!(!patzer::tune::set(&mut p, &name("nothing"), 1));
    for (n, d, lo, hi) in PARAMS {
        assert!(lo <= d && d <= hi);
        assert!(patzer::tune::set(&mut p, &name(n), d));
    }
    assert_eq!(p.rfp_margin, 120);
}

#[test]
fn counters_count() {
    let mut c = Counters::new();
    record(&mut c, 0);
    record(&mut c, -64);
    record(&mut c, 40_000);
    record(&mut c, i32::MIN);
    assert_eq!(c.lmr_hist[0], 2);
    assert_eq!(c.lmr_hist[1], 1);
    assert_eq!(c.lmr_hist[8], 1);
    record_cutoff(&mut c, 0, 1_000_000, 0);
    record_cutoff(&mut c, 9, -500, tag::CAPTURE);
    record_cutoff(&mut c, 2, 300, 0);
    assert_eq!(c.fh_index, [1, 0, 1, 0, 1]);
    assert_eq!(c.fh_bucket, [1, 0, 0, 0, 1, 1]);
}
