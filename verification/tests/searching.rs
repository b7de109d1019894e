use patzer::board::{Move, Position};
use patzer::driver::{build_pool, is_last_iteration, pv_string, score_string, time_budget};
use patzer::gates::{engine_move, mate_follows, verify_mate};
use patzer::history::{cont_preds, INF, MATE};
use patzer::search::{stop_owed, Searcher};
use patzer::selfplay::{count_of, play_out, ruling, score_of, Score};
use patzer::time::Limits;
use patzer::tt::{pack, Entry, BOUND_EXACT, BOUND_LOWER, TT};
use std::sync::atomic::{AtomicBool, Ordering};
use std::sync::Arc;

fn board(fen: &str) -> Position {
    Position::from_fen(fen).unwrap()
}

fn find(b: &Position, uci: &str) -> Move {
    b.moves().into_iter().find(|&m| b.display_uci(m) == uci).unwrap()
}

#[test]
fn search_start_preserves_a_pending_stop() {
    let mut s = Searcher::<TT>::new(1);
    s.stop.store(true, Ordering::Relaxed);
    assert!(s.think(&Position::start(), &Limits::default()).is_none());
    assert_eq!(s.nodes, 0);
    assert!(s.stop.load(Ordering::Relaxed));
}

#[test]
fn interrupted_search_preserves_scratch_capacity_for_next_move() {
    let mut s = Searcher::<TT>::new(1);
    for _ in 0..2 {
        s.think(&Position::start(), &Limits { nodes: Some(2048), ..Default::default() });
        assert!(s.stopped);
        assert!(s.move_buf.iter().all(|v| v.capacity() >= 64));
        assert!(s.qmove_buf.iter().all(|v| v.capacity() >= 32));
        assert!(s.quiet_buf.iter().all(|v| v.capacity() >= 64));
        assert!(s.capt_buf.iter().all(|v| v.capacity() >= 32));
    }
}

#[test]
fn mates_are_found_and_proved() {
    for (fen, n) in [
        ("6k1/5ppp/8/8/8/8/8/4R2K w - - 0 1", 1),
        ("r1bqkb1r/pppp1ppp/2n2n2/4p2Q/2B1P3/8/PPPP1PPP/RNB1K1NR w KQkq - 4 4", 1),
        ("7k/5K2/8/8/8/8/8/6Q1 w - - 0 1", 1),
        ("6k1/2r2ppp/8/8/8/8/8/1R5K w - - 0 1", 2),
        ("7k/8/8/8/8/8/R7/1R5K w - - 0 1", 2),
    ] {
        assert!(verify_mate(&board(fen), n).0, "{fen}");
    }
    let ladder = board("7k/8/8/8/8/8/R7/1R5K w - - 0 1");
    assert!(mate_follows(&ladder, 2, Some(find(&ladder, "a2a7"))).0);
    assert!(!mate_follows(&ladder, 1, Some(find(&ladder, "a2a7"))).0);
    assert!(!mate_follows(&ladder, 2, None).0);
    let back_rank = board("6k1/5ppp/8/8/8/8/8/4R2K w - - 0 1");
    assert!(mate_follows(&back_rank, 0, Some(find(&back_rank, "e1e8"))).0);
    assert!(!mate_follows(&back_rank, 1, Some(find(&back_rank, "e1e7"))).0);
    assert!(!verify_mate(&Position::start(), 1).0);
    assert!(!verify_mate(&board("6k1/5ppp/8/8/8/8/8/4R2K w - - 0 1"), -1).0);
}

#[test]
fn the_engine_plays_legal_moves_only() {
    let mut b = Position::start();
    for _ in 0..6 {
        let m = engine_move(&b, 5).0.unwrap();
        assert!(b.is_legal(m));
        b = b.play(m);
    }
    assert!(engine_move(&b, 0).0.is_none());
    assert!(engine_move(&board("7k/5Q2/6K1/8/8/8/8/8 b - - 0 1"), 4).0.is_none());
}

#[test]
fn mated_stalemated_and_drawn_at_the_root() {
    let mut s = Searcher::<TT>::new(1);
    let limits = Limits { depth: Some(3), ..Default::default() };
    assert!(s.think(&board("7k/6Q1/6K1/8/8/8/8/8 b - - 0 1"), &limits).is_none());
    assert_eq!(s.last_score, -MATE);
    assert!(s.think(&board("7k/5Q2/6K1/8/8/8/8/8 b - - 0 1"), &limits).is_none());
    assert_eq!(s.last_score, 0);
    assert!(s.think(&board("6k1/5ppp/8/8/8/8/8/4R2K w - - 0 1"), &limits).is_some());
    assert_eq!(s.last_score, MATE - 1);
}

#[test]
fn a_stopped_search_answers_zero() {
    let mut s = Searcher::<TT>::new(1);
    s.stop.store(true, Ordering::Relaxed);
    assert_eq!(s.negamax(&Position::start(), 3, 0, -INF, INF, 0, None, false), 0);
    assert!(s.stopped);
    assert_eq!(s.nodes, 0);
    // it stays stopped
    s.stop.store(false, Ordering::Relaxed);
    assert_eq!(s.negamax(&Position::start(), 3, 0, -INF, INF, 0, None, false), 0);
    assert_eq!(s.nodes, 0);
}

#[test]
fn what_stops_a_search() {
    assert!(stop_owed(true, 0, u64::MAX, 0, u128::MAX));
    assert!(stop_owed(false, 4096, 4096, 0, u128::MAX));
    assert!(!stop_owed(false, 4095, 4096, 0, u128::MAX));
    assert!(stop_owed(false, 0, u64::MAX, 51, 50));
    assert!(!stop_owed(false, 0, u64::MAX, 50, 50));
    // no nodes allowed: stopped at the first look
    let mut s = Searcher::<TT>::new(1);
    assert!(s.think(&Position::start(), &Limits { nodes: Some(0), ..Default::default() }).is_none());
    assert!(s.stopped);
    assert_eq!(s.nodes, 0);
    // stopped at the first look that sees the limit reached
    assert!(s.think(&Position::start(), &Limits { nodes: Some(1), ..Default::default() }).is_some());
    assert!(s.stopped);
    assert_eq!(s.nodes, 2048);
}

#[test]
fn mates_and_draws_below_the_root() {
    let mated = board("7k/6Q1/6K1/8/8/8/8/8 b - - 0 1");
    let mut s = Searcher::<TT>::new(1);
    assert_eq!(s.negamax(&mated, 1, 3, -INF, INF, 0, None, false), -MATE + 3);
    let drawn = board("4k3/8/8/8/8/8/8/QQ2K3 w - - 100 90");
    let mut s = Searcher::<TT>::new(1);
    assert_eq!(s.negamax(&drawn, 3, 1, -INF, INF, 0, None, false), 0);
    assert_eq!(s.nodes, 1);
    let mut s = Searcher::<TT>::new(1);
    s.stop.store(true, Ordering::Relaxed);
    assert_eq!(s.negamax(&drawn, 3, 1, -INF, INF, 0, None, false), 0);
    assert_eq!(s.nodes, 0);
}

#[test]
fn a_deeper_entry_only_orders_a_quiescence_search() {
    let b = board("4k3/8/8/3q4/4P3/8/8/4K3 w - - 0 1");
    let mv = pack(find(&b, "e4d5"));
    let results: Vec<i32> = [(-3000, BOUND_EXACT), (3000, BOUND_LOWER), (0, BOUND_EXACT)]
        .into_iter()
        .map(|(score, bound)| {
            let mut s = Searcher::<TT>::new(1);
            s.quiesce(&b, 1, -INF, INF, None, Some(Entry { mv, score, depth: 7, bound }))
        })
        .collect();
    assert_eq!(results[0], results[1]);
    assert_eq!(results[0], results[2]);
}

#[test]
fn an_iteration_at_a_time() {
    let b = Position::start();
    let limits = Limits { depth: Some(4), ..Default::default() };
    let mut s = Searcher::<TT>::new(4);
    let mut d = s.begin(&b, &limits);
    let mut seen = Vec::new();
    while let Some((depth, score)) = s.iterate(&b, &mut d) {
        assert_eq!(score, s.last_score);
        seen.push(depth);
    }
    assert_eq!(seen, [1, 2, 3, 4]);
    assert!(s.iterate(&b, &mut d).is_none());
    let mut whole = Searcher::<TT>::new(4);
    assert_eq!(whole.think(&b, &limits), d.best);
    assert_eq!((whole.nodes, whole.last_score), (s.nodes, s.last_score));
    // a settled mate is the last iteration
    let mate = board("6k1/5ppp/8/8/8/8/8/4R2K w - - 0 1");
    let mut d = s.begin(&mate, &Limits { depth: Some(20), ..Default::default() });
    let mut last = 0;
    while let Some((depth, _)) = s.iterate(&mate, &mut d) {
        last = depth;
    }
    assert!(d.over);
    assert_eq!(last, 3);
}

#[test]
fn a_node_is_settled_by_the_table_and_the_evaluation() {
    let mut s = Searcher::<TT>::new(1);
    let b = Position::start();
    let e = Entry { mv: 0, score: 77, depth: 9, bound: BOUND_EXACT };
    assert_eq!(s.search_node(&b, 5, 1, -50, 50, 0, None, false, Some(e)), 77);
    let e = Entry { mv: 0, score: 77, depth: 9, bound: BOUND_LOWER };
    assert_eq!(s.search_node(&b, 5, 1, -50, 50, 0, None, false, Some(e)), 77);
    // far ahead of beta, a shallow node is not searched
    let up = board("4k3/8/8/8/8/8/8/QQ2K3 w - - 0 1");
    let eval = s.eval_node(&up, None);
    assert_eq!(s.search_node(&up, 2, 1, -50, -49, 0, None, false, None), eval);
    // a mate nearer than the window
    assert_eq!(s.search_node(&b, 5, 40, MATE - 20, MATE - 10, 0, None, false, None), MATE - 20);
}

#[test]
fn quiescence_stands_pat_or_captures() {
    let mut s = Searcher::<TT>::new(1);
    let quiet = board("4k3/4p3/8/8/8/8/4P3/4K3 w - - 0 1");
    let stand = s.eval_node(&quiet, None);
    assert_eq!(s.quiesce(&quiet, 1, -INF, INF, None, None), stand);
    let hanging = board("4k3/8/8/3q4/4P3/8/8/4K3 w - - 0 1");
    let stand = s.eval_node(&hanging, None);
    assert!(s.quiesce(&hanging, 1, -INF, INF, None, None) > stand + 500);
    assert_eq!(s.quiesce(&hanging, 1, -INF, stand, None, None), stand);
    assert_eq!(s.quiesce(&board("7k/6Q1/6K1/8/8/8/8/8 b - - 0 1"), 3, -INF, INF, None, None), -MATE + 3);
    let e = Entry { mv: 0, score: 12, depth: 0, bound: BOUND_EXACT };
    assert_eq!(s.quiesce(&quiet, 1, -INF, INF, None, Some(e)), 12);
    let e = Entry { mv: 0, score: 12, depth: 4, bound: BOUND_EXACT };
    assert_eq!(s.quiesce(&quiet, 1, -INF, INF, None, Some(e)), s.eval_node(&quiet, None));
}

#[test]
fn drawn_positions_score_nothing_below_the_root() {
    let mut s = Searcher::<TT>::new(1);
    let b = board("4k3/8/8/8/8/8/8/QQ2K3 w - - 100 90");
    assert_eq!(s.negamax(&b, 3, 1, -INF, INF, 0, None, false), 0);
    let b = board("4k3/8/8/8/8/8/8/QQ2K3 w - - 8 90");
    s.game_hist = vec![b.hash(), 2, 3, 4];
    assert_eq!(s.negamax(&b, 3, 1, -INF, INF, 0, None, false), 0);
}

#[test]
fn a_depth_limit_is_kept_and_the_score_reported() {
    let mut s = Searcher::<TT>::new(4);
    let b = Position::start();
    let mut d = s.begin(&b, &Limits { depth: Some(4), ..Default::default() });
    let mut depths = 0;
    while d.depth <= d.max_depth {
        let depth = d.depth;
        let score = s.deepen(&b, &mut d).unwrap();
        assert_eq!(score, s.last_score);
        depths += 1;
        let line = s.pv_line(&b, depth);
        assert!(!line.is_empty() && line.len() <= depth as usize);
        let text = s.info_line(&b, depth, score, 250, &line);
        assert!(text.starts_with(&format!("info depth {depth} seldepth ")));
        assert!(text.contains(&format!(" score cp {score} nodes {} nps {} time 250 pv ", s.nodes, s.nodes * 4)));
        assert!(text.ends_with(&pv_string(&b, &line)));
        if is_last_iteration(depth, score, 0, u128::MAX) {
            break;
        }
    }
    assert_eq!(depths, 4);
    assert_eq!(d.best, d.previous_best);
}

#[test]
fn scores_in_words() {
    assert_eq!(score_string(0), "cp 0");
    assert_eq!(score_string(-137), "cp -137");
    assert_eq!(score_string(MATE - 1), "mate 1");
    assert_eq!(score_string(MATE - 4), "mate 2");
    assert_eq!(score_string(-MATE + 2), "mate -1");
}

#[test]
fn a_line_in_uci_notation() {
    let b = Position::start();
    let e4 = find(&b, "e2e4");
    let n = b.play(e4);
    let e5 = find(&n, "e7e5");
    assert_eq!(pv_string(&b, &vec![e4, e5]), " e2e4 e7e5");
    assert_eq!(pv_string(&b, &vec![]), "");
}

#[test]
fn the_line_stops_where_the_table_does() {
    let mut s = Searcher::<TT>::new(1);
    let b = Position::start();
    assert!(s.pv_line(&b, 5).is_empty());
    let e4 = find(&b, "e2e4");
    s.tt.store(b.hash(), pack(e4), 0, 3, BOUND_EXACT);
    assert_eq!(s.pv_line(&b, 5), vec![e4]);
    assert!(s.pv_line(&b, 0).is_empty());
    s.game_hist = vec![b.hash()];
    assert!(s.pv_line(&b, 5).is_empty());
}

#[test]
fn budgets_follow_the_mover_and_the_overhead() {
    let l = Limits { wtime: Some(300_010), winc: Some(3_000), btime: Some(60), move_overhead: 10, ..Default::default() };
    assert_eq!(time_budget(&l, 0), (12_250, 50_000));
    assert_eq!(time_budget(&l, 1), (1, 1));
    assert_eq!(time_budget(&Limits { movetime: Some(77), ..l }, 0), (77, 77));
    assert_eq!(time_budget(&Limits::default(), 0), (u128::MAX, u128::MAX));
}

#[test]
fn a_settled_mate_ends_the_search() {
    assert!(!is_last_iteration(3, 100, 0, u128::MAX));
    assert!(!is_last_iteration(2, MATE - 1, 0, u128::MAX));
    assert!(is_last_iteration(3, -MATE + 1, 0, u128::MAX));
    assert!(is_last_iteration(3, 100, 51, 50));
    assert!(!is_last_iteration(3, 100, 50, 50));
    assert!(is_last_iteration(3, MATE - 1, 0, u128::MAX));
}

#[test]
fn a_new_game_forgets_the_last() {
    let mut s = Searcher::<TT>::new(1);
    let b = Position::start();
    s.think(&b, &Limits { depth: Some(4), ..Default::default() });
    s.eval_hist_game = vec![1, 2, 3];
    assert!(s.tt.probe(b.hash()).is_some());
    assert!(s.tables.history.iter().any(|&x| x != 0));
    s.new_game();
    assert!(s.tt.probe(b.hash()).is_none());
    assert!(s.tables.history.iter().all(|&x| x == 0));
    assert!(s.eval_hist_game.is_empty());
}

#[test]
fn a_pool_shares_its_table_and_its_flag() {
    let stop = Arc::new(AtomicBool::new(false));
    let (tt, mut pool) = build_pool(1, 3, &stop);
    assert_eq!(pool.len(), 3);
    for (i, s) in pool.iter().enumerate() {
        assert_eq!(s.thread_id, i);
        assert_eq!(s.is_main, i == 0);
    }
    let b = Position::start();
    let m = pool[0].think(&b, &Limits { depth: Some(3), ..Default::default() }).unwrap();
    assert!(b.is_legal(m));
    assert!(tt.probe(b.hash()).is_some());
    stop.store(true, Ordering::Relaxed);
    assert!(pool[1].think(&b, &Limits::default()).is_none());
    assert_eq!(build_pool(1, 0, &stop).1.len(), 1);
}

#[test]
fn the_same_search_twice_is_the_same_search() {
    let b = board("r3k2r/p1ppqpb1/bn2pnp1/3PN3/1p2P3/2N2Q1p/PPPBBPPP/R3K2R w KQkq - 0 1");
    let limits = Limits { depth: Some(6), ..Default::default() };
    let mut one = Searcher::<TT>::new(8);
    let mut two = Searcher::<TT>::new(8);
    assert_eq!(one.think(&b, &limits), two.think(&b, &limits));
    assert_eq!(one.nodes, two.nodes);
    assert_eq!(one.last_score, two.last_score);
}

#[test]
fn self_play_ends_by_the_rules() {
    let mut s = Searcher::<TT>::new(4);
    let g = play_out(&mut s, 2048, 12).0.unwrap();
    let mut b = Position::start();
    for &m in &g.moves {
        assert!(b.is_legal(m));
        b = b.play(m);
    }
    assert!(g.moves.len() <= 12);
    assert_eq!(g.result, 1);
    let mated = board("7k/6Q1/6K1/8/8/8/8/8 b - - 0 1");
    assert_eq!(ruling(&mated, &vec![], 3, 400), Some(2));
    assert_eq!(ruling(&board("7k/8/8/8/8/6k1/6q1/7K w - - 0 1".replace("7k/8", "8/8").as_str()), &vec![], 3, 400), Some(0));
    let start = Position::start();
    assert_eq!(ruling(&start, &vec![start.hash()], 0, 400), None);
    assert_eq!(ruling(&start, &vec![start.hash(), 1, start.hash()], 0, 400), Some(1));
    assert_eq!(ruling(&start, &vec![], 400, 400), Some(1));
    assert_eq!(count_of(&vec![1, 2, 1], 1), 2);
    s.stop.store(true, Ordering::Relaxed);
    assert!(play_out(&mut s, 2048, 12).0.err().unwrap().is_empty());
}

#[test]
fn moves_are_ranked_table_move_first_then_captures_then_the_rest() {
    let mut s = Searcher::<TT>::new(1);
    s.tables.killers[2] = (pack(find(&board("4k3/8/8/3r4/4B3/8/8/4K3 w - - 0 1"), "e1f1")), 0);
    let b = board("4k3/8/8/3r4/4B3/8/8/4K3 w - - 0 1");
    let hash_move = find(&b, "e1e2");
    let mut moves = Vec::new();
    s.ranked_moves(&b, pack(hash_move), 2, 0, &cont_preds(&Vec::new()), None, &mut moves);
    assert_eq!(moves.len(), b.moves().len());
    assert_eq!((moves[0].mv, moves[0].score), (hash_move, 1_000_000));
    assert_eq!(moves[1].mv, find(&b, "e4d5"));
    assert_eq!((moves[2].mv, moves[2].score), (find(&b, "e1f1"), 80_000));
    for pair in moves.windows(2) {
        assert!(pair[0].score >= pair[1].score);
    }
}

#[test]
fn noisy_moves_leave_out_losing_captures() {
    let s = Searcher::<TT>::new(1);
    let b = board("7k/8/2p5/3p4/4Q3/8/6p1/4K3 w - - 0 1");
    let mut moves = Vec::new();
    s.noisy_moves(&b, 0, &mut moves);
    assert_eq!(moves.iter().map(|x| b.display_uci(x.mv)).collect::<Vec<_>>(), ["e4g2"]);
}

#[test]
fn the_main_searcher_ages_its_table() {
    let limits = Limits { depth: Some(1), ..Default::default() };
    let mut s = Searcher::<TT>::new(1);
    let age = s.tt.age;
    s.begin(&Position::start(), &limits);
    assert_eq!(s.tt.age, age.wrapping_add(1));
    s.is_main = false;
    s.begin(&Position::start(), &limits);
    assert_eq!(s.tt.age, age.wrapping_add(1));
}

#[test]
fn the_root_is_remembered_with_its_move_and_score() {
    let b = Position::start();
    let mut s = Searcher::<TT>::new(4);
    let m = s.think(&b, &Limits { depth: Some(4), ..Default::default() }).unwrap();
    let e = s.tt.probe(b.hash()).unwrap();
    assert_eq!((e.mv, e.score as i32), (pack(m), s.last_score));
    assert!(e.depth >= 3);
}

#[test]
fn results_add_up() {
    assert_eq!(score_of(&vec![]), Score { wins: 0, draws: 0, losses: 0 });
    assert_eq!(score_of(&vec![2, 1, 0, 2, 1, 1, 2]), Score { wins: 3, draws: 3, losses: 1 });
}

#[test]
fn a_stopped_search_keeps_the_last_iteration() {
    let b = board("r1bqkbnr/pppp1ppp/2n5/4p3/2B1P3/5N2/PPPP1PPP/RNBQK2R b KQkq - 3 3");
    for nodes in [3_000, 9_000, 20_000] {
        let limits = Limits { nodes: Some(nodes), ..Default::default() };
        let mut s = Searcher::<TT>::new(4);
        let mut d = s.begin(&b, &limits);
        let mut last = None;
        while let Some((_, score)) = s.iterate(&b, &mut d) {
            last = Some((d.best, score));
        }
        assert!(s.stopped && d.over);
        assert_eq!(last, Some((d.best, s.last_score)));
        assert!(d.best.is_some());
        let mut t = Searcher::<TT>::new(4);
        assert_eq!(t.think(&b, &limits), d.best);
        assert_eq!((t.last_score, t.nodes), (s.last_score, s.nodes));
    }
}

#[test]
fn a_stop_before_the_first_node_leaves_score_and_move() {
    let mut s = Searcher::<TT>::new(1);
    s.last_score = 77;
    s.stop.store(true, Ordering::Relaxed);
    assert_eq!(s.think(&Position::start(), &Limits { depth: Some(5), ..Default::default() }), None);
    assert_eq!((s.last_score, s.nodes, s.root_best), (77, 0, 0));
    let b = board("r1bqkbnr/pppp1ppp/2n5/4p3/2B1P3/5N2/PPPP1PPP/RNBQK2R b KQkq - 3 3");
    let mut s = Searcher::<TT>::new(1);
    s.stop.store(true, Ordering::Relaxed);
    s.nodes = 2047;
    assert_eq!(s.qsearch(&b, 1, -INF, INF, None), s.eval_node(&b, None));
    assert!(s.stopped);
}

#[test]
fn a_fifty_move_draw_takes_one_node() {
    let mut s = Searcher::<TT>::new(1);
    let b = board("k7/8/8/8/8/8/8/K6R w - - 100 80");
    assert_eq!(s.negamax(&b, 3, 1, -INF, INF, 0, None, false), 0);
    assert_eq!(s.nodes, 1);
}

#[test]
fn deeper_entries_leave_quiescence_scores() {
    for fen in [
        "r1bqkb1r/pppp1ppp/2n2n2/4p1N1/2B1P3/8/PPPP1PPP/RNBQK2R b KQkq - 5 4",
        "rnbqkb1r/pp2pppp/2p2n2/3p4/2PP4/2N5/PP2PPPP/R1BQKBNR w KQkq - 0 4",
    ] {
        let b = board(fen);
        let mv = pack(b.moves()[3]);
        let mut scores = Vec::new();
        for (score, bound) in [(-900, BOUND_LOWER), (900, BOUND_EXACT), (0, BOUND_LOWER)] {
            let mut s = Searcher::<TT>::new(1);
            s.tt.store(b.hash(), mv, score, 7, bound);
            scores.push((s.qsearch(&b, 1, -INF, INF, None), s.nodes));
            let e = s.tt.probe(b.hash()).unwrap();
            assert_eq!((e.score, e.depth, e.bound), (score as i16, 7, bound));
        }
        assert!(scores.iter().all(|x| *x == scores[0]));
    }
}
