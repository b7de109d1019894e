use patzer::board::{Position, BLACK, WHITE};
use patzer::book::Book;
use patzer::history::params_usable;
use patzer::time::Limits;
use patzer::tune::Params;
use patzer::uci::{best_line, parse_fen, parse_limits, parse_option, Action, Session, SetOption};
use patzer::text::{is_space, lines, parse_i64, parse_u128, parse_usize, trim, words};

fn same(a: &Position, b: &Position) -> bool {
    (0..64).all(|s| a.man(s) == b.man(s))
        && a.side_to_move() == b.side_to_move()
        && a.castle_rights(WHITE) == b.castle_rights(WHITE)
        && a.castle_rights(BLACK) == b.castle_rights(BLACK)
        && a.en_passant() == b.en_passant()
        && a.halfmove_clock() == b.halfmove_clock()
        && a.hash() == b.hash()
        && a.fen() == b.fen()
}

#[test]
fn four_field_fen_gets_default_move_counters() {
    let short = parse_fen(&["8/8/8/8/8/8/4k3/7K", "w", "-", "-"]).unwrap();
    let full = parse_fen(&["8/8/8/8/8/8/4k3/7K", "w", "-", "-", "0", "1"]).unwrap();
    assert!(same(&short, &full));
}

#[test]
fn malformed_fen_is_rejected() {
    assert!(parse_fen(&["not-a-board", "w", "-", "-"]).is_err());
    assert!(parse_fen(&["8/8/8/8/8/8/4k3/7K", "w", "-"]).is_err());
}

#[test]
fn the_number_of_fields_is_named() {
    assert_eq!(parse_fen(&["a", "b", "c"]).err().unwrap(), "expected 4 or 6 fields, got 3");
    assert_eq!(parse_fen(&[]).err().unwrap(), "expected 4 or 6 fields, got 0");
}

fn option(line: &str) -> SetOption {
    parse_option(&words(line))
}

#[test]
fn options() {
    assert!(matches!(option("setoption name Hash value 256"), SetOption::Hash(256)));
    assert!(matches!(option("setoption name HASH value +7"), SetOption::Hash(7)));
    assert!(matches!(option("setoption name Hash value x"), SetOption::Ignored));
    assert!(matches!(option("setoption name Hash"), SetOption::Ignored));
    assert!(matches!(option("setoption name Threads value 0"), SetOption::Threads(1)));
    assert!(matches!(option("setoption name Threads value 4"), SetOption::Threads(4)));
    assert!(matches!(option("setoption name OwnBook value TRUE"), SetOption::OwnBook(true)));
    assert!(matches!(option("setoption name OwnBook value yes"), SetOption::OwnBook(false)));
    assert!(matches!(option("setoption name AdaptiveTime value true"), SetOption::AdaptiveTime(true)));
    assert!(matches!(option("setoption name Move Overhead value 9999"), SetOption::MoveOverhead(5000)));
    assert!(matches!(option("setoption name Move Overhead value 30"), SetOption::MoveOverhead(30)));
    assert!(matches!(option("setoption name Move value thirty"), SetOption::Ignored));
    assert!(matches!(option("setoption name EvalFile value a.nnue"), SetOption::EvalFile(f) if f == "a.nnue"));
    assert!(matches!(option("setoption name PolicyFile value p"), SetOption::PolicyFile(f) if f == "p"));
    assert!(matches!(option("setoption name Unknown value x"), SetOption::Ignored));
    assert!(matches!(option("setoption name LmrDiv value 180"), SetOption::Parameter(n, 180) if n.iter().collect::<String>() == "LmrDiv"));
    assert!(matches!(option("setoption name LmrDiv value 2147483648"), SetOption::Ignored));
    assert!(matches!(option("setoption name LmrDiv value -2147483648"), SetOption::Parameter(_, i32::MIN)));
}

#[test]
fn search_parameters_are_options_while_tuning() {
    let (mut s, book) = session();
    assert!(said(&mut s, &book, "setoption name LmrDiv value 180").is_empty());
    assert_eq!(s.params, Params::default());
    s.tuning = true;
    let lines = said(&mut s, &book, "uci");
    assert_eq!(lines.len(), 19);
    assert_eq!(lines[8], "option name PolicyFile type string default <empty>");
    assert_eq!(lines[9], "option name RfpMargin type spin default 120 min 40 max 240");
    assert_eq!(lines[17], "option name HistBonusMax type spin default 1600 min 200 max 8000");
    assert_eq!(lines[18], "uciok");
    assert_eq!(said(&mut s, &book, "setoption name lmrDIV value 180"), ["info string tune lmrDIV = 180"]);
    assert_eq!(said(&mut s, &book, "setoption name LmrBase value -5"), ["info string tune LmrBase = -5"]);
    assert!(said(&mut s, &book, "setoption name Unknown value 1").is_empty());
    assert_eq!(s.params, Params { lmr_div: 180, lmr_base: -5, ..Params::default() });
    assert!(params_usable(&s.params));
    s.handle("setoption name RfpMargin value 100000", &book);
    assert!(!params_usable(&s.params));
}

#[test]
fn no_game_is_played_with_kings_side_by_side() {
    let touching = parse_fen(&["8/8/8/8/8/8/6k1/7K", "w", "-", "-"]).unwrap();
    assert!(touching.kings_touch());
    assert_eq!(touching.fen(), "8/8/8/8/8/8/6k1/7K w - - 0 1");
    assert!(!parse_fen(&["8/8/8/8/8/7k/8/7K", "w", "-", "-"]).unwrap().kings_touch());
    let (mut s, book) = session();
    assert_eq!(said(&mut s, &book, "position fen 8/8/8/8/8/8/6k1/7K w - -"), ["info string bad fen: kings side by side"]);
    assert!(!s.position_valid);
}

fn limits(line: &str) -> Limits {
    parse_limits(&words(line), Limits::default())
}

#[test]
fn limits_of_a_search() {
    let l = limits("go wtime 900000 btime 800000 winc 100 binc -5 movestogo 40");
    assert_eq!((l.wtime, l.btime, l.winc, l.binc), (Some(900000), Some(800000), Some(100), Some(0)));
    assert_eq!(l.movestogo, Some(40));
    let l = limits("go wtime -20 movestogo 0");
    assert_eq!((l.wtime, l.movestogo), (Some(1), Some(1)));
    let l = limits("go depth 9 nodes 1000 movetime 55");
    assert_eq!((l.depth, l.nodes, l.movetime, l.infinite), (Some(9), Some(1000), Some(55), false));
    assert!(limits("go infinite").infinite);
    // a word that takes a number takes the next word, whatever it is
    let l = limits("go depth infinite nodes 5");
    assert_eq!((l.depth, l.nodes, l.infinite), (None, Some(5), false));
    assert_eq!(limits("go nodes").nodes, None);
    assert_eq!(limits("go nodes -1").nodes, Some(u64::MAX));
}

fn session() -> (Session, Book) {
    (Session::new(42), Book::load().unwrap())
}

fn said(s: &mut Session, book: &Book, line: &str) -> Vec<String> {
    s.handle(line, book).lines
}

#[test]
fn a_session_greets_and_answers() {
    let (mut s, book) = session();
    let lines = said(&mut s, &book, "uci");
    assert_eq!(lines.len(), 10);
    assert_eq!(lines[0], "id name Patzer 0.2");
    assert_eq!(lines[4], "option name OwnBook type check default false");
    assert_eq!(lines[9], "uciok");
    assert_eq!(said(&mut s, &book, "  isready  "), vec!["readyok"]);
    assert!(said(&mut s, &book, "").is_empty());
    assert!(said(&mut s, &book, "hello").is_empty());
    assert!(matches!(s.handle("stop", &book).action, Action::Stop));
    assert!(matches!(s.handle("quit", &book).action, Action::Quit));
}

#[test]
fn a_position_is_set_up_and_its_moves_are_made() {
    let (mut s, book) = session();
    assert!(said(&mut s, &book, "position startpos moves e2e4 e7e5 g1f3").is_empty());
    assert!(s.position_valid);
    assert_eq!(s.game_hist.len(), 3);
    assert_eq!(s.game_hist[0], Position::start().hash());
    assert_eq!(s.board.fen(), "rnbqkbnr/pppp1ppp/8/4p3/4P3/5N2/PPPP1PPP/RNBQKB1R b KQkq - 1 2");
    assert!(said(&mut s, &book, "position fen 6k1/5ppp/8/8/8/8/8/4R2K w - -").is_empty());
    assert_eq!(s.board.fen(), "6k1/5ppp/8/8/8/8/8/4R2K w - - 0 1");
    assert!(said(&mut s, &book, "position fen 6k1/5ppp/8/8/8/8/8/4R2K w - - 0 1 moves e1e8").is_empty());
    assert!(s.board.in_check());
}

#[test]
fn a_wrong_position_is_refused_and_nothing_is_searched() {
    let (mut s, book) = session();
    let before = s.board.hash();
    for (line, answer) in [
        ("position startpos moves e2e4 e7e5 e2e5", "info string illegal move e2e5"),
        ("position startpos moves e2e4 zz", "info string bad move zz: The value was not a valid Move."),
        ("position nowhere", "info string bad position command"),
        ("position", "info string bad position command"),
        ("position fen 8/8 w", "info string bad fen: expected 4 or 6 fields, got 2"),
    ] {
        assert_eq!(said(&mut s, &book, line), vec![answer]);
        assert!(!s.position_valid);
        assert!(s.game_hist.is_empty());
        assert_eq!(s.board.hash(), before);
        let r = s.handle("go depth 3", &book);
        assert_eq!(r.lines, vec!["info string no valid position", "bestmove 0000"]);
        assert!(matches!(r.action, Action::Nothing));
    }
    assert!(said(&mut s, &book, "position fen x w - - moves e2e4")[0].starts_with("info string bad fen: "));
    assert!(said(&mut s, &book, "position startpos").is_empty());
    assert!(matches!(s.handle("go depth 3", &book).action, Action::Search(_)));
}

#[test]
fn a_search_gets_the_sessions_limits() {
    let (mut s, book) = session();
    s.handle("setoption name Move Overhead value 25", &book);
    s.handle("setoption name AdaptiveTime value true", &book);
    match s.handle("go wtime 1000 btime 2000", &book).action {
        Action::Search(l) => {
            assert_eq!((l.wtime, l.btime, l.move_overhead, l.adaptive_time), (Some(1000), Some(2000), 25, true));
        }
        _ => panic!("no search"),
    }
    assert!(matches!(s.handle("setoption name Hash value 32", &book).action, Action::Rebuild));
    assert!(matches!(s.handle("setoption name Threads value 2", &book).action, Action::Rebuild));
    assert_eq!((s.hash_mb, s.threads), (32, 2));
    assert!(matches!(s.handle("setoption name EvalFile value n", &book).action, Action::LoadNet(f) if f == "n"));
    assert!(matches!(s.handle("setoption name PolicyFile value p", &book).action, Action::LoadPolicy(f) if f == "p"));
}

#[test]
fn the_book_answers_at_once_when_asked_to() {
    let (mut s, book) = session();
    assert!(matches!(s.handle("go depth 3", &book).action, Action::Search(_)));
    s.handle("setoption name OwnBook value true", &book);
    let r = s.handle("go depth 3", &book);
    assert_eq!(r.lines, vec!["bestmove e2e4"]);
    assert!(matches!(r.action, Action::Nothing));
    assert!(matches!(s.handle("go infinite", &book).action, Action::Search(_)));
    s.handle("position fen 6k1/5ppp/8/8/8/8/8/4R2K w - -", &book);
    assert!(matches!(s.handle("go depth 3", &book).action, Action::Search(_)));
}

#[test]
fn scores_are_noted_within_a_game() {
    let (mut s, book) = session();
    s.note_score(None);
    s.note_score(Some(30));
    s.note_score(Some(-10));
    assert_eq!(s.scores, vec![30, -10]);
    assert!(matches!(s.handle("ucinewgame", &book).action, Action::NewGame));
    assert!(s.scores.is_empty());
    s.note_score(Some(99));
    assert!(s.scores.is_empty());
    s.note_score(Some(5));
    assert_eq!(s.scores, vec![5]);
}

#[test]
fn a_move_is_always_named_where_there_is_one() {
    let b = Position::start();
    let m = b.moves().into_iter().find(|&m| b.display_uci(m) == "g1f3").unwrap();
    assert_eq!(best_line(&b, Some(m)), "bestmove g1f3");
    let first = b.display_uci(b.moves()[0]);
    assert_eq!(best_line(&b, None), format!("bestmove {first}"));
    let mated = Position::from_fen("7k/6Q1/6K1/8/8/8/8/8 b - - 0 1").unwrap();
    assert_eq!(best_line(&mated, None), "bestmove 0000");
    let c = Position::from_fen("4k3/8/8/8/8/8/8/R3K2R w KQ - 0 1").unwrap();
    let castle = c.moves().into_iter().find(|&m| m.from == 4 && m.to == 7).unwrap();
    assert_eq!(best_line(&c, Some(castle)), "bestmove e1g1");
    assert_eq!(c.parse_uci("e1g1").unwrap(), castle);
}

#[test]
fn numbers_are_read_as_written() {
    let w = |s: &str| s.chars().collect::<Vec<char>>();
    assert_eq!(parse_usize(&w("0012")), Some(12));
    assert_eq!(parse_usize(&w("")), None);
    assert_eq!(parse_usize(&w("+")), None);
    assert_eq!(parse_usize(&w("-1")), None);
    assert_eq!(parse_usize(&w("99999999999999999999999")), None);
    assert_eq!(parse_u128(&w("340282366920938463463374607431768211455")), Some(u128::MAX));
    assert_eq!(parse_u128(&w("340282366920938463463374607431768211456")), None);
    assert_eq!(parse_i64(&w("-9223372036854775808")), Some(i64::MIN));
    assert_eq!(parse_i64(&w("9223372036854775808")), None);
    assert_eq!(parse_i64(&w("+5")), Some(5));
    assert_eq!(parse_i64(&w("5x")), None);
    let v: Vec<String> = words(" a\tbc  d ").iter().map(|w| w.iter().collect()).collect();
    assert_eq!(v, vec!["a", "bc", "d"]);
    let v: Vec<String> = words("a\u{3000}b\u{85}c\u{200b}d\u{1c}e\x0bf").iter().map(|w| w.iter().collect()).collect();
    assert_eq!(v, "a\u{3000}b\u{85}c\u{200b}d\u{1c}e\x0bf".split_whitespace().collect::<Vec<_>>());
}

#[test]
fn white_space_is_what_unicode_says() {
    for c in '\0'..=char::MAX {
        assert_eq!(is_space(c), c.is_whitespace(), "{c:?}");
    }
}

#[test]
fn lines_and_their_ends() {
    let text = |v: &Vec<char>| v.iter().collect::<String>();
    let v: Vec<String> = lines(" a b \n\n c").iter().map(text).collect();
    assert_eq!(v, [" a b ", "", " c"]);
    assert_eq!(lines("").len(), 1);
    assert_eq!(text(&trim(&" \ta b\u{2003}\r".chars().collect())), "a b");
    assert!(trim(&vec![' ', '\n']).is_empty());
}
