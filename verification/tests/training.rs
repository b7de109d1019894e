use patzer::board::{Position, BLACK, PAWN, WHITE};
use patzer::book::Book;
use patzer::datagen::{
    balanced, encode_game, match_openings, play_game, seed_positions, thread_seed, try_match_opening, try_opening, GameRecord, Play, Played,
};
use patzer::dataset::{dump_line, pos_bytes, read_position, static_evals, summarize, Fault, ReadError};
use patzer::eval::evaluate;
use patzer::gates::{check_book, check_records, check_walks, walk_line};
use patzer::records::{pack_board, round_trip, unpack_men, unpack_to_fen, RoundTrip, RECORD_SIZE};
use patzer::search::Searcher;
use patzer::tt::{pack, Entry, BOUND_EXACT, TT};
use patzer::walk::{draw, perft, random_opening, random_walk};

fn board(fen: &str) -> Position {
    Position::from_fen(fen).unwrap()
}

#[test]
fn the_record_of_the_initial_position() {
    let r = pack_board(&Position::start());
    assert_eq!(&r[..8], &[0xff, 0xff, 0, 0, 0, 0, 0xff, 0xff]);
    assert_eq!(&r[8..12], &[0x13, 0x42, 0x25, 0x31]);
    assert_eq!(&r[12..16], &[0; 4]);
    assert_eq!(&r[16..20], &[0x88; 4]);
    assert_eq!(&r[20..24], &[0x9b, 0xca, 0xad, 0xb9]);
    assert_eq!(&r[24..], &[0, 15, 255]);
    assert_eq!(unpack_to_fen(&r), "rnbqkbnr/pppppppp/8/8/8/8/PPPPPPPP/RNBQKBNR w KQkq - 0 1");
    assert_eq!(unpack_men(&r)[8], Some((PAWN, WHITE)));
}

#[test]
fn records_read_back() {
    for fen in [
        "4k3/8/8/3pP3/8/8/8/4K3 w - d6 0 1",
        "r3k2r/8/8/8/8/8/8/R3K2R b Kq - 0 1",
        "rnbqkbnr/pppppppp/8/8/4P3/8/PPPP1PPP/RNBQKBNR b KQkq e3 0 1",
        "8/2p5/3p4/KP5r/1R3p1k/8/4P1P1/8 w - - 0 1",
    ] {
        let b = board(fen);
        let d = pack_board(&b);
        assert_eq!(unpack_to_fen(&d), fen);
        assert!(matches!(round_trip(&b), RoundTrip::Exact(_, _)));
        let again = read_position(&d).unwrap_or_else(|_| panic!("unreadable"));
        assert_eq!(again.hash(), b.hash());
    }
    assert!(matches!(round_trip(&board("4k3/8/8/3pP3/8/8/8/4K3 w - d6 0 1")), RoundTrip::Exact(false, true)));
}

#[test]
fn random_walks_round_trip() {
    let mut seed = 0xDA7A_6A7Eu64;
    let (mut checked, mut castle, mut ep) = (0, 0, 0);
    while checked < 3_000 {
        let len = 4 + (draw(&mut seed) % 120) as usize;
        let t = check_records(len, 3_000 - checked, &mut seed).unwrap_or_else(|_| panic!("round trip failed"));
        checked += t.checked;
        castle += t.with_castle;
        ep += t.with_ep;
    }
    assert_eq!(checked, 3_000);
    let mut again = 0xDA7A_6A7Eu64;
    let t = check_walks(usize::MAX, 3_000, &mut again).unwrap_or_else(|_| panic!("round trip failed"));
    assert_eq!((t.checked, t.with_castle, t.with_ep, again), (checked, castle, ep, seed));
    assert_eq!(check_walks(0, 3_000, &mut again).unwrap_or_else(|_| panic!("round trip failed")).checked, 0);
    assert_eq!(again, seed);
    assert!(castle > 100 && ep > 50);
}

#[test]
fn unreadable_records_are_told_apart() {
    let mut d = pack_board(&Position::start());
    d[8] = 0x77;
    assert!(matches!(read_position(&d), Err(ReadError::Unreadable)));
    let mut d = pack_board(&Position::start());
    d[..8].copy_from_slice(&[0xff; 8]);
    assert!(matches!(read_position(&d), Err(ReadError::Unreadable)));
    let mut d = pack_board(&Position::start());
    d[26] = 200;
    assert!(matches!(read_position(&d), Err(ReadError::Unreadable)));
    let empty = [0u8; 27];
    assert!(matches!(read_position(&empty), Err(ReadError::Refused(_))));
}

#[test]
fn a_game_in_bytes() {
    let b = Position::start();
    let mv = b.moves()[0];
    let g = GameRecord { pos: pack_board(&b), score: -300, best: pack(mv), stm: BLACK };
    let h = GameRecord { score: 25, stm: WHITE, ..g };
    let bytes = encode_game(&Played { records: vec![g, h], result: 2 });
    assert_eq!(bytes.len(), 2 * RECORD_SIZE);
    assert_eq!(&bytes[..27], &g.pos);
    assert_eq!(i16::from_le_bytes([bytes[27], bytes[28]]), -300);
    assert_eq!(bytes[29], 0);
    assert_eq!(u16::from_le_bytes([bytes[30], bytes[31]]), pack(mv));
    assert_eq!(i16::from_le_bytes([bytes[59], bytes[60]]), 25);
    assert_eq!(bytes[61], 2);
    assert_eq!(pos_bytes(&bytes, 1), h.pos);
    assert_eq!(dump_line(&bytes, 0).unwrap(), "0\t-300\trnbqkbnr/pppppppp/8/8/8/8/PPPPPPPP/RNBQKBNR w KQkq - 0 1");
}

#[test]
fn adjudication() {
    let start = Position::start();
    let quiet = start.moves()[0];
    let mut g = Play::begin(start.clone());
    // a decisive score four times in a row wins for the side that has it
    for k in 0..3 {
        let m = g.board.moves()[0];
        assert_eq!(g.advance(m, if k % 2 == 0 { 2_600 } else { -2_600 }), None);
    }
    let m = g.board.moves()[0];
    assert_eq!(g.board.side_to_move(), BLACK);
    assert_eq!(g.advance(m, -2_500), Some(2));
    // once short of it starts the count again
    let mut g = Play::begin(start.clone());
    for score in [2_600, -2_600, 2_600, 0, -2_600, 2_600, -2_600] {
        let m = g.board.moves()[0];
        assert_eq!(g.advance(m, score), None);
    }
    // a lifeless score counts only late in the game
    let mut g = Play::begin(start.clone());
    assert_eq!(g.advance(quiet, 0), None);
    assert_eq!(g.draw_run, 0);
    g.ply = 100;
    for _ in 0..9 {
        let m = g.board.moves()[0];
        assert_eq!(g.advance(m, 8), None);
    }
    let m = g.board.moves()[0];
    assert_eq!(g.advance(m, -8), Some(1));
}

#[test]
fn what_is_recorded() {
    let fen = "4k3/8/8/3pP3/8/8/8/4K3 w - d6 0 1";
    let find = |b: &Position, u: &str| b.moves().into_iter().find(|&m| b.display_uci(m) == u).unwrap();
    let with = |ply: usize, uci: &str, score: i32| {
        let b = board(fen);
        let m = find(&b, uci);
        let mut g = Play::begin(b);
        g.ply = ply;
        assert_eq!(g.advance(m, score), None);
        g.records.len()
    };
    assert_eq!(with(10, "e5e6", 100), 1);
    assert_eq!(with(9, "e5e6", 100), 0);
    assert_eq!(with(10, "e5e6", 2_000), 0);
    assert_eq!(with(10, "e5d6", 100), 0);
    let b = board("6k1/3P4/8/8/8/8/8/4K3 w - - 0 1");
    let m = find(&b, "d7d8q");
    let mut g = Play::begin(b);
    g.ply = 10;
    g.advance(m, 5);
    assert_eq!(g.records.len(), 0);
    let b = board("4k3/8/8/8/7b/8/6P1/4K2R w K - 0 1");
    let m = b.moves()[0];
    let mut g = Play::begin(b);
    g.ply = 10;
    g.advance(m, 5);
    assert_eq!(g.records.len(), 0);
}

#[test]
fn a_game_of_self_play() {
    let mut s = Searcher::<TT>::new(1);
    let (g, _) = play_game(&mut s, board("4k3/8/8/8/8/8/8/QQ2K3 w - - 0 1"));
    assert_eq!(g.result, 2);
    let (mated, _) = play_game(&mut s, board("7k/6Q1/6K1/8/8/8/8/8 b - - 0 1"));
    assert_eq!((mated.result, mated.records.len()), (2, 0));
    let mut seed = thread_seed(0xDA7A, 0);
    let mut found = None;
    for _ in 0..20 {
        if let Some(b) = try_opening(&mut s, &mut seed) {
            assert!(s.last_score.abs() <= 200);
            found = Some(b);
            break;
        }
    }
    assert!(found.is_some());
    assert_eq!(thread_seed(1, 0), 1);
    assert_eq!(thread_seed(2, 1), (2u64 ^ 0x9E37_79B9_7F4A_7C15) | 1);
}

#[test]
fn openings_for_a_match() {
    let e = |score: i16| Some(Entry { mv: 0, score, depth: 1, bound: BOUND_EXACT });
    assert!(balanced(e(120)) && balanced(e(-120)) && !balanced(e(121)) && !balanced(None));
    let mut seed: u64 = 0xC0FFEE + 1017;
    let mut made = 0;
    for _ in 0..6 {
        if let (Some(b), _) = try_match_opening(&mut seed) {
            assert_eq!(b.side_to_move(), WHITE);
            made += 1;
        }
    }
    assert!(made > 0);
}

#[test]
fn match_openings_come_in_the_order_of_the_attempts() {
    let mut seed: u64 = 0xC0FFEE + 1017;
    let (openings, tried, _) = match_openings(2, &mut seed);
    let mut again: u64 = 0xC0FFEE + 1017;
    let mut fens = Vec::new();
    for _ in 0..tried {
        if let (Some(b), _) = try_match_opening(&mut again) {
            fens.push(b.fen());
        }
    }
    assert_eq!(openings.iter().map(|b| b.fen()).collect::<Vec<String>>(), fens);
    assert_eq!(again, seed);
    assert_eq!(fens.len(), 2);
    let (none, tried, _) = match_openings(0, &mut seed);
    assert!(none.is_empty() && tried == 0 && again == seed);
}

#[test]
fn seed_positions_are_listed_one_a_line() {
    let text = "\n  8/8/8/8/8/7k/8/7K w - - 0 1 \r\n \t\n8/8/8/8/8/7k/8/7K b - - 3 9\n";
    let v = seed_positions(text).unwrap();
    assert_eq!(v.len(), 2);
    assert_eq!(v[0].fen(), "8/8/8/8/8/7k/8/7K w - - 0 1");
    assert_eq!(v[1].fen(), "8/8/8/8/8/7k/8/7K b - - 3 9");
    assert!(seed_positions(" \n\n").unwrap().is_empty());
    assert!(seed_positions("8/8/8/8/8/7k/8/7K w - - 0 1\nnonsense").is_err());
    assert_eq!(seed_positions("8/8/8/8/8/8/6k1/7K w - - 0 1").err().unwrap(), "kings side by side");
}

fn record(score: i16, wdl: u8) -> Vec<u8> {
    let mut r = pack_board(&Position::start()).to_vec();
    r.extend_from_slice(&score.to_le_bytes());
    r.push(wdl);
    r.extend_from_slice(&[0, 0]);
    r
}

#[test]
fn a_file_of_records_is_summed_up() {
    let mut d = record(-500, 0);
    d.extend(record(-100, 0));
    d.extend(record(10, 1));
    d.extend(record(2000, 2));
    let s = summarize(&d).unwrap_or_else(|_| panic!("fault"));
    assert_eq!(s.total, 4);
    assert_eq!(s.wdl, [2, 1, 1]);
    assert_eq!(s.scores, [-600, 10, 2000]);
    assert_eq!(s.bins, [0, 0, 0, 2, 1, 0, 0, 0, 1]);
    assert_eq!(s.refused, 0);
    assert!(s.passes());
    let mut flat = record(0, 0);
    flat.extend(record(0, 1));
    flat.extend(record(0, 2));
    assert!(!summarize(&flat).unwrap_or_else(|_| panic!("fault")).passes());
    assert!(matches!(summarize(&d[1..]), Err(Fault::Size)));
    d[32 + 29] = 3;
    assert!(matches!(summarize(&d), Err(Fault::Result(1))));
    let mut bad = record(0, 0);
    bad[8] = 0x77;
    assert!(matches!(summarize(&bad), Err(Fault::Unreadable(0))));
    let mut odd = record(0, 0);
    odd[..8].copy_from_slice(&[0; 8]);
    assert_eq!(summarize(&odd).unwrap_or_else(|_| panic!("fault")).refused, 1);
}

#[test]
fn static_evaluations_of_records() {
    let b = board("4k3/8/8/8/8/8/8/QQ2K3 w - - 0 1");
    let mut d = pack_board(&b).to_vec();
    d.extend_from_slice(&[0; 5]);
    let out = static_evals(&d).unwrap();
    assert_eq!(i16::from_le_bytes([out[0], out[1]]) as i32, evaluate(&b));
    d[0] = 0;
    assert_eq!(static_evals(&d), Err(0));
    assert_eq!(static_evals(&[]), Ok(vec![]));
}

#[test]
fn the_repertoire_loads_and_is_what_it_should_be() {
    let book = Book::load().unwrap();
    let c = check_book(&book);
    assert!(c.ok && c.locock_gone && c.has_ruy && c.has_kid);
    assert_eq!(c.start_moves.len(), 1);
    assert!(book.positions() > 50);
    let mut seed = 1;
    assert_eq!(book.probe(12345, &mut seed), None);
    assert_eq!(seed, 1);
    let start = Position::start();
    let m = book.probe(start.hash(), &mut seed).unwrap();
    assert_eq!(start.display_uci(m), "e2e4");
    let mut s = 1u64;
    assert_eq!(seed, draw(&mut s));
    // two answers to the king's pawn
    let b = walk_line("e2e4").unwrap();
    assert_eq!(book.sample(b.hash(), 64, &mut seed).len(), 2);
    assert!(walk_line("e2e4 e2e4").is_none());
    assert!(walk_line("xx").is_none());
    // meeting the queen's pawn is taught, opening with it is not
    let d4 = walk_line("d2d4").unwrap();
    assert!(book.probe(d4.hash(), &mut seed).is_some());
    let kid = walk_line("d2d4 g8f6").unwrap();
    assert!(book.probe(kid.hash(), &mut seed).is_none());
}

#[test]
fn lines_are_counted_exactly() {
    for (fen, depth, want) in [
        ("rnbqkbnr/pppppppp/8/8/8/8/PPPPPPPP/RNBQKBNR w KQkq - 0 1", 0, 1),
        ("rnbqkbnr/pppppppp/8/8/8/8/PPPPPPPP/RNBQKBNR w KQkq - 0 1", 4, 197_281),
        ("r3k2r/p1ppqpb1/bn2pnp1/3PN3/1p2P3/2N2Q1p/PPPBBPPP/R3K2R w KQkq - 0 1", 3, 97_862),
        ("8/2p5/3p4/KP5r/1R3p1k/8/4P1P1/8 w - - 0 1", 5, 674_624),
        ("r3k2r/Pppp1ppp/1b3nbN/nP6/BBP1P3/q4N2/Pp1P2PP/R2Q1RK1 w kq - 0 1", 4, 422_333),
        ("rnbq1k1r/pp1Pbppp/2p5/8/2B5/8/PPP1NnPP/RNBQK2R w KQ - 1 8", 3, 62_379),
        ("r4rk1/1pp1qppp/p1np1n2/2b1p1B1/2B1P1b1/P1NP1N2/1PP1QPPP/R4RK1 w - - 0 10", 3, 89_890),
    ] {
        assert_eq!(perft(&board(fen), depth), want, "{fen}");
    }
}

#[test]
fn random_walks_are_reproducible() {
    let mut seed = 1u64;
    assert_eq!(draw(&mut seed), 1082269761);
    assert_eq!(seed, 1082269761);
    let start = Position::start();
    let (mut a, mut b) = (99, 99);
    let p = random_walk(&start, 20, &mut a).unwrap();
    let q = random_walk(&start, 20, &mut b).unwrap();
    assert_eq!((p.hash(), a), (q.hash(), b));
    assert!(random_walk(&board("7k/6Q1/6K1/8/8/8/8/8 b - - 0 1"), 1, &mut a).is_none());
    assert!(random_opening(&board("7k/6Q1/6K1/8/8/8/8/8 b - - 0 1"), 0, &mut a).is_none());
    assert!(random_opening(&start, 2, &mut a).is_some());
}
