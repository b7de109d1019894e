use patzer::board::{GameStatus, Move, Position, BLACK, KING, PAWN, QUEEN, ROOK, WHITE};
use patzer::rules::{capture_victim, in_mask, insufficient_material, is_noisy, is_repetition, packed_to_move, order_ranked, rank_noisy, Ranked};
use patzer::tt::pack;

fn board(fen: &str) -> Position {
    Position::from_fen(fen).unwrap()
}

fn find(b: &Position, uci: &str) -> Move {
    for mv in b.moves() {
        if b.display_uci(mv) == uci {
            return mv;
        }
    }
    panic!("move {uci} not legal here")
}

/// Whether the destination holds an enemy man.
fn lands_on_enemy(b: &Position, mv: Move) -> bool {
    match b.man(mv.to) {
        Some((_, c)) => c != b.side_to_move(),
        None => false,
    }
}

#[test]
fn en_passant_is_a_capture() {
    let b = board("4k3/8/8/3pP3/8/8/8/4K3 w - d6 0 1");
    let ep = find(&b, "e5d6");
    assert_eq!(capture_victim(&b, ep), Some(PAWN));
    assert!(!lands_on_enemy(&b, ep), "test is not exercising the bug");
}

#[test]
fn quiet_pawn_push_is_not_a_capture() {
    let b = board("4k3/8/8/3pP3/8/8/8/4K3 w - d6 0 1");
    assert_eq!(capture_victim(&b, find(&b, "e5e6")), None);
}

#[test]
fn castling_is_not_a_capture() {
    let b = board("4k3/8/8/8/8/8/8/R3K2R w KQ - 0 1");
    assert_eq!(capture_victim(&b, find(&b, "e1g1")), None);
    assert_eq!(capture_victim(&b, find(&b, "e1c1")), None);
}

#[test]
fn ordinary_capture_still_reads_its_victim() {
    let b = board("4k3/8/8/3r4/4B3/8/8/4K3 w - - 0 1");
    assert_eq!(capture_victim(&b, find(&b, "e4d5")), Some(ROOK));
}

#[test]
fn qsearch_now_sees_the_en_passant_capture() {
    let b = board("4k3/8/8/3pP3/8/8/8/4K3 w - d6 0 1");
    let ep = find(&b, "e5d6");
    let in_check = b.in_check();
    let generated = in_check || capture_victim(&b, ep).is_some() || ep.promotion == Some(QUEEN);
    assert!(generated, "qsearch would still skip the en passant capture");
    assert!(rank_noisy(&b, ep, 0).is_some());
}

/// What a quiescence search goes into, without the mask.
fn unmasked(b: &Position) -> Vec<Move> {
    b.moves().into_iter().filter(|&mv| is_noisy(b, mv)).collect()
}

/// The same through the mask.
fn masked(b: &Position) -> Vec<Move> {
    b.moves().into_iter().filter(|&mv| in_mask(b, mv) && is_noisy(b, mv)).collect()
}

fn agree(b: &Position, what: &str) {
    assert_eq!(masked(b), unmasked(b), "qsearch move list changed: {what}");
}

#[test]
fn mask_preserves_the_move_list_on_random_games() {
    let mut seed = 0x9E37_79B9_7F4A_7C15u64;
    let mut rnd = || {
        seed ^= seed << 13;
        seed ^= seed >> 7;
        seed ^= seed << 17;
        seed
    };
    let mut positions = 0usize;
    let mut saw_ep = 0usize;
    let mut saw_promo = 0usize;
    for _ in 0..300 {
        let mut b = Position::start();
        for _ in 0..120 {
            if b.status() != GameStatus::Ongoing {
                break;
            }
            agree(&b, "random game");
            positions += 1;
            if b.en_passant().is_some() {
                saw_ep += 1;
            }
            let legal = b.moves();
            saw_promo += legal.iter().filter(|m| m.promotion.is_some()).count();
            let mv = legal[(rnd() as usize) % legal.len()];
            b = b.play(mv);
        }
    }
    assert!(positions > 10_000, "only {positions} positions walked");
    assert!(saw_ep > 50, "only {saw_ep} en-passant positions -- test is not covering ep");
    assert!(saw_promo > 50, "only {saw_promo} promotions -- test is not covering promos");
}

#[test]
fn mask_keeps_en_passant_and_quiet_promotions() {
    let b = board("4k3/8/8/3pP3/8/8/8/4K3 w - d6 0 1");
    assert_eq!(masked(&b).len(), 1, "the ep capture was masked away");
    agree(&b, "en passant");
    let b = board("6k1/3P4/8/8/8/8/8/4K3 w - - 0 1");
    assert!(!masked(&b).is_empty(), "the quiet queen promotion was masked away");
    agree(&b, "quiet promotion");
    let b = board("4k3/8/8/8/7b/8/6P1/4K2R w K - 0 1");
    agree(&b, "in check");
}

#[test]
fn parse_uci_move_accepts_illegal_moves_so_we_must_check() {
    let b = board("rnbqkbnr/pppp1ppp/8/4p3/4P3/8/PPPP1PPP/RNBQKBNR w KQkq - 0 2");
    let blocked = b.parse_uci("a1a8").expect("parse_uci_move rejected a1a8");
    assert!(!b.is_legal(blocked), "a1a8 is blocked by the a2 pawn");
    let empty_from = b.parse_uci("e2e5").expect("parse_uci_move rejected e2e5");
    assert!(!b.is_legal(empty_from), "e2 is empty after e2e4");
    assert!(b.try_play(blocked).is_none());
}

#[test]
fn a_move_changes_men_side_clocks_and_rights() {
    let b = Position::start();
    assert_eq!(b.moves().len(), 20);
    assert_eq!(b.man(4), Some((KING, WHITE)));
    assert_eq!(b.king(WHITE), 4);
    assert_eq!(b.king(BLACK), 60);
    assert_eq!(b.occupied(), 0xffff_0000_0000_ffff);
    let n = b.play(find(&b, "e2e4"));
    assert_eq!(n.man(12), None);
    assert_eq!(n.man(28), Some((PAWN, WHITE)));
    assert_eq!(n.side_to_move(), BLACK);
    assert_eq!(n.en_passant(), Some(4));
    assert_eq!(n.halfmove_clock(), 0);
    assert_ne!(n.hash(), b.hash());
    assert_eq!(n.fen(), "rnbqkbnr/pppppppp/8/8/4P3/8/PPPP1PPP/RNBQKBNR b KQkq e3 0 1");
    let c = board("r3k2r/8/8/8/8/8/8/R3K2R w KQkq - 3 9");
    assert_eq!(c.castle_rights(WHITE), (Some(7), Some(0)));
    let castled = c.play(find(&c, "e1g1"));
    assert_eq!(castled.man(6), Some((KING, WHITE)));
    assert_eq!(castled.man(5), Some((ROOK, WHITE)));
    assert_eq!(castled.castle_rights(WHITE), (None, None));
    assert_eq!(castled.castle_rights(BLACK), (Some(7), Some(0)));
    assert_eq!(castled.halfmove_clock(), 4);
    let taken = c.play(find(&c, "h1h8"));
    assert_eq!(taken.castle_rights(WHITE), (None, Some(0)));
    assert_eq!(taken.castle_rights(BLACK), (None, Some(0)));
    assert_eq!(taken.fen(), "r3k2R/8/8/8/8/8/8/R3K3 b Qq - 0 9");
}

#[test]
fn en_passant_and_promotion_on_the_board() {
    let b = board("4k3/8/8/3pP3/8/8/8/4K3 w - d6 0 1");
    let n = b.play(find(&b, "e5d6"));
    assert_eq!(n.man(35), None);
    assert_eq!(n.man(43), Some((PAWN, WHITE)));
    let b = board("6k1/3P4/8/8/8/8/8/4K3 w - - 0 1");
    let n = b.play(find(&b, "d7d8q"));
    assert_eq!(n.man(59), Some((QUEEN, WHITE)));
    assert!(n.in_check());
}

#[test]
fn passing_is_refused_in_check() {
    let b = Position::start();
    let n = b.null_move().unwrap();
    assert_eq!(n.side_to_move(), BLACK);
    assert_eq!(n.occupied(), b.occupied());
    assert!(board("4k3/8/8/8/7b/8/6P1/4K2R w K - 0 1").null_move().is_none());
}

#[test]
fn game_status() {
    assert_eq!(Position::start().status(), GameStatus::Ongoing);
    assert_eq!(board("7k/6Q1/6K1/8/8/8/8/8 b - - 0 1").status(), GameStatus::Won);
    assert_eq!(board("7k/5Q2/6K1/8/8/8/8/8 b - - 0 1").status(), GameStatus::Drawn);
    assert_eq!(board("7k/8/8/8/8/8/R7/1R5K w - - 100 80").status(), GameStatus::Drawn);
}

#[test]
fn a_packed_move_is_only_ever_a_legal_one() {
    let b = Position::start();
    for mv in b.moves() {
        assert_eq!(packed_to_move(&b, pack(mv)), Some(mv));
    }
    assert_eq!(packed_to_move(&b, 0), None);
    assert_eq!(packed_to_move(&b, 0xffff), None);
    assert_eq!(packed_to_move(&b, pack(Move { from: 0, to: 56, promotion: None })), None);
}

#[test]
fn dead_draws_by_material() {
    for (fen, dead) in [
        ("4k3/8/8/8/8/8/8/4K3 w - - 0 1", true),
        ("4k3/8/8/8/8/8/8/4KN2 w - - 0 1", true),
        ("4k3/8/8/8/8/8/8/4KB2 w - - 0 1", true),
        ("4k3/8/8/8/8/8/8/3NKN2 w - - 0 1", true),
        ("4k1n1/8/8/8/8/8/8/4KN2 w - - 0 1", false),
        ("4k3/8/8/8/8/8/8/3BKN2 w - - 0 1", false),
        ("4k3/8/8/8/8/8/4P3/4K3 w - - 0 1", false),
        ("4k3/8/8/8/8/8/8/4KR2 w - - 0 1", false),
    ] {
        assert_eq!(insufficient_material(&board(fen)), dead, "{fen}");
    }
}

#[test]
fn repetition_looks_back_no_further_than_the_clock() {
    let played = vec![1u64, 2, 3, 4];
    let path = vec![5u64, 6];
    assert!(is_repetition(&played, &path, 3, 100));
    assert!(is_repetition(&played, &path, 5, 100));
    assert!(!is_repetition(&played, &path, 9, 100));
    assert!(!is_repetition(&played, &path, 1, 2));
}

#[test]
fn every_legal_move_is_read_back_from_its_text() {
    for fen in [
        "rnbqkbnr/pppppppp/8/8/8/8/PPPPPPPP/RNBQKBNR w KQkq - 0 1",
        "r3k2r/p1ppqpb1/bn2pnp1/3PN3/1p2P3/2N2Q1p/PPPBBPPP/R3K2R w KQkq - 0 1",
        "r3k2r/p1ppqpb1/bn2pnp1/3PN3/1p2P3/2N2Q1p/PPPBBPPP/R3K2R b KQkq - 0 1",
        "4k3/1P6/8/3pP3/8/8/8/4K3 w - d6 0 1",
    ] {
        let b = board(fen);
        for mv in b.moves() {
            assert_eq!(b.parse_uci(&b.display_uci(mv)), Ok(mv), "{fen}");
        }
    }
}

#[test]
fn moves_in_writing() {
    let b = board("r3k2r/1P6/8/8/8/8/8/R3K2R w KQkq - 0 1");
    assert_eq!(b.parse_uci("e1g1"), Ok(Move { from: 4, to: 7, promotion: None }));
    assert_eq!(b.parse_uci("e1c1"), Ok(Move { from: 4, to: 0, promotion: None }));
    assert_eq!(b.display_uci(Move { from: 4, to: 7, promotion: None }), "e1g1");
    assert_eq!(b.parse_uci("b7a8q"), Ok(Move { from: 49, to: 56, promotion: Some(QUEEN) }));
    assert_eq!(b.display_uci(Move { from: 49, to: 56, promotion: Some(QUEEN) }), "b7a8q");
    assert_eq!(b.parse_uci("b7b8k"), Ok(Move { from: 49, to: 57, promotion: None }));
    assert_eq!(b.parse_uci("b7b8q and more"), Ok(Move { from: 49, to: 57, promotion: Some(QUEEN) }));
    assert_eq!(b.parse_uci("e1e2\u{e9}"), Ok(Move { from: 4, to: 12, promotion: None }));
    for wrong in ["", "e2", "e2e", "i1e2", "e0e2", "e1e2x", "E1E2", "\u{e9}1e2", "e1\u{e9}2"] {
        assert_eq!(b.parse_uci(wrong), Err(String::from("The value was not a valid Move.")), "{wrong}");
    }
    let aside = board("4k3/8/8/8/8/8/8/1K5R w K - 0 1");
    let castle = Move { from: 1, to: 7, promotion: None };
    assert!(aside.is_legal(castle));
    assert_eq!(aside.display_uci(castle), "b1g1");
    assert_eq!(aside.parse_uci("b1g1"), Ok(Move { from: 1, to: 6, promotion: None }));
}

#[test]
fn check_is_an_attack_on_the_king() {
    for (fen, checked) in [
        ("4k3/8/8/8/8/8/8/4R1K1 b - - 0 1", true),
        ("4k3/4p3/8/8/8/8/8/4R1K1 b - - 0 1", false),
        ("4k3/8/3N4/8/8/8/8/6K1 b - - 0 1", true),
        ("4k3/3P4/8/8/8/8/8/6K1 b - - 0 1", true),
        ("4k3/4P3/8/8/8/8/8/6K1 b - - 0 1", false),
        ("4k3/8/8/1B6/8/8/8/6K1 b - - 0 1", true),
        ("4k3/3q4/8/1B6/8/8/8/6K1 b - - 0 1", false),
    ] {
        assert_eq!(board(fen).in_check(), checked, "{fen}");
    }
}

#[test]
fn moves_are_ordered_by_score_and_then_as_they_came() {
    let b = Position::start();
    let all = b.moves();
    let given = [3, 1, 3, 2, 1, 3];
    let mut v: Vec<Ranked> = given.iter().zip(&all).map(|(&score, &mv)| Ranked { score, mv, tag: 0 }).collect();
    order_ranked(&mut v);
    assert_eq!(v.iter().map(|x| x.score).collect::<Vec<i32>>(), [3, 3, 3, 2, 1, 1]);
    let want: Vec<_> = [0, 2, 5, 3, 1, 4].iter().map(|&i| all[i]).collect();
    assert_eq!(v.iter().map(|x| x.mv).collect::<Vec<_>>(), want);
}
