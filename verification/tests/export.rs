use lipuzzles::exporter::Exporter;
use lipuzzles::position::BoardState;
use lipuzzles::puzzle::Puzzle;

fn puzzle(fen: &str, moves: &[&str]) -> Puzzle {
    Puzzle {
        id: "00abc".to_string(),
        fen: fen.to_string(),
        moves: moves.iter().map(|m| m.to_string()).collect(),
        rating: 1500,
        themes: vec![],
    }
}

/// The moves of a game in the notation of games, and the position behind them.
fn line(fen: &str, moves: &[&str]) -> (Vec<String>, String) {
    let mut b = BoardState::from_fen(fen).unwrap();
    let mut out = Vec::new();
    for m in moves {
        assert!(b.can_play(m));
        out.push(b.uci_to_san_and_apply(m));
    }
    (out, b.to_fen())
}

#[test]
fn test_puzzle_to_pgn_san_white() {
    let p = Puzzle {
        id: "00008".to_string(),
        fen: "r6k/pp2r2p/4Rp1Q/3p4/8/1N1P2R1/PqP2bPP/7K w - - 0 24".to_string(),
        moves: vec!["f6e6".to_string(), "d5e6".to_string(), "c1b2".to_string()],
        rating: 1850,
        themes: vec!["crushing".to_string(), "hangingPiece".to_string()],
    };

    let pgn = Exporter::puzzle_to_pgn(&p);
    assert!(pgn.contains("[PuzzleId \"00008\"]"));
    assert!(pgn.contains("[FEN \"r6k/pp2r2p/4Rp1Q/3p4/8/1N1P2R1/PqP2bPP/7K w - - 0 24\"]"));
    assert!(pgn.contains("24."));
}

#[test]
fn test_puzzle_to_pgn_san_black_ply() {
    let p = Puzzle {
        id: "0000d".to_string(),
        fen: "5rk1/1p3ppp/pq3b2/8/8/1P1Q1N2/P4PPP/3R2K1 b - - 2 27".to_string(),
        moves: vec!["f8d8".to_string(), "d3e2".to_string()],
        rating: 1500,
        themes: vec!["advantage".to_string(), "short".to_string()],
    };

    let pgn = Exporter::puzzle_to_pgn(&p);
    assert!(pgn.contains("27... Rd8 28. Qe2 *"));
}

#[test]
fn castling_moves_the_rook() {
    let (san, fen) = line("r3k2r/8/8/8/8/8/8/R3K2R w KQkq - 0 1", &["e1g1", "e8c8"]);
    assert_eq!(san, vec!["O-O", "O-O-O"]);
    assert_eq!(fen, "2kr3r/8/8/8/8/8/8/R4RK1 w - - 2 2");
}

#[test]
fn pieces_are_told_apart() {
    assert_eq!(line("4k3/8/8/8/8/8/4K3/R6R w - - 0 1", &["a1d1"]).0, vec!["Rad1"]);
    assert_eq!(line("4k3/8/8/8/8/8/4K3/R6R w - - 0 1", &["h1d1"]).0, vec!["Rhd1"]);
    assert_eq!(line("R3k3/8/8/8/8/8/8/R3K3 w - - 0 1", &["a1a4"]).0, vec!["R1a4+"]);
    assert_eq!(line("k7/8/8/8/4Q2Q/8/8/K6Q w - - 0 1", &["h4e1"]).0, vec!["Qh4e1+"]);
    assert_eq!(line("4k3/8/8/8/8/8/4K3/R2N3R w - - 0 1", &["a1c1"]).0, vec!["Rc1"]);
}

#[test]
fn pawns_capture_in_passing() {
    let (san, fen) = line("4k3/8/8/8/4pP2/8/8/4K3 b - f3 0 1", &["e4f3"]);
    assert_eq!(san, vec!["exf3"]);
    assert_eq!(fen, "4k3/8/8/8/8/5p2/8/4K3 w - - 0 2");
    let (san, fen) = line("4k3/8/8/8/8/8/4P3/4K3 w - - 5 1", &["e2e4"]);
    assert_eq!(san, vec!["e4"]);
    assert_eq!(fen, "4k3/8/8/8/4P3/8/8/4K3 b - e3 0 1");
}

#[test]
fn promotions_captures_and_checks() {
    assert_eq!(line("4k3/P7/8/8/8/8/8/4K3 w - - 0 1", &["a7a8q"]).0, vec!["a8=Q+"]);
    assert_eq!(line("1n2k3/P7/8/8/8/8/8/4K3 w - - 0 1", &["a7b8n"]).0, vec!["axb8=N"]);
    assert_eq!(line("6k1/5ppp/8/8/8/8/8/4R1K1 w - - 0 1", &["e1e8"]).0, vec!["Re8#"]);
    assert_eq!(line("8/8/4k3/8/3P4/8/8/4K3 w - - 0 1", &["d4d5"]).0, vec!["d5+"]);
    assert_eq!(line("4k3/8/8/8/8/8/4p3/4K3 w - - 0 1", &["e1e2"]).0, vec!["Kxe2"]);
    assert_eq!(line("4k3/8/5N2/8/8/8/8/4K3 w - - 0 1", &["e1e2"]).0, vec!["Ke2+"]);
}

#[test]
fn mates_are_marked() {
    assert_eq!(line("6k1/5ppp/8/8/8/8/8/R5K1 w - - 0 1", &["a1a8"]).0, vec!["Ra8#"]);
    assert_eq!(line("7k/4P1pp/8/8/8/8/8/K7 w - - 0 1", &["e7e8q"]).0, vec!["e8=Q#"]);
    assert_eq!(line("6rk/6pp/8/6N1/8/8/8/K7 w - - 0 1", &["g5f7"]).0, vec!["Nf7#"]);
    // A rook can be put between.
    assert_eq!(line("5rk1/r4ppp/8/8/8/8/8/4R1K1 w - - 0 1", &["e1e8"]).0, vec!["Re8"]);
    assert_eq!(line("6k1/r4ppp/8/8/8/8/8/2R3K1 w - - 0 1", &["c1c8"]).0, vec!["Rc8#"]);
    assert_eq!(line("6k1/3r1ppp/8/8/8/8/8/2R3K1 w - - 0 1", &["c1c8"]).0, vec!["Rc8+"]);
    let fools = "rnbqkbnr/pppp1ppp/8/4p3/6P1/5P2/PPPPP2P/RNBQKBNR b KQkq - 0 2";
    assert_eq!(line(fools, &["d8h4"]).0, vec!["Qh4#"]);
}

#[test]
fn a_capture_in_passing_can_be_the_way_out() {
    assert_eq!(line("2R5/8/7R/3k4/3p4/5N2/4PN2/K7 w - - 0 1", &["e2e4"]).0, vec!["e4+"]);
    assert_eq!(line("2R5/8/7R/3k4/8/5N2/4PN2/K7 w - - 0 1", &["e2e4"]).0, vec!["e4#"]);
}

#[test]
fn moves_of_the_side_to_move() {
    let b = BoardState::from_fen("4k3/8/8/3pP3/8/8/4P3/4K2r w - d6 0 1").unwrap();
    let legal = |f: usize, t: usize| b.is_legal_move(f, t);
    // The king is in check on its rank: only steps to the second rank help.
    assert!(legal(60, 51));
    assert!(legal(60, 53));
    assert!(!legal(60, 59));
    assert!(!legal(60, 52));
    assert!(!legal(28, 19));
    assert!(!b.has_no_legal_moves());
    let b = BoardState::from_fen("4k3/8/8/3pP3/8/8/4P3/4K3 w - d6 0 1").unwrap();
    let legal = |f: usize, t: usize| b.is_legal_move(f, t);
    assert!(legal(28, 19));
    assert!(legal(28, 20));
    assert!(!legal(28, 21));
    assert!(!legal(28, 12));
    assert!(legal(52, 44));
    assert!(legal(52, 36));
    assert!(!legal(4, 12));
    let stale = BoardState::from_fen("7k/5Q2/6K1/8/8/8/8/8 b - - 0 1").unwrap();
    assert!(stale.has_no_legal_moves());
    assert!(!stale.is_in_check(true));
}

#[test]
fn a_pinned_piece_is_no_rival() {
    assert_eq!(line("4k3/8/8/8/8/2N5/8/4K1N1 w - - 0 1", &["g1e2"]).0, vec!["Nge2"]);
    assert_eq!(line("4k3/8/8/8/1b6/2N5/8/4K1N1 w - - 0 1", &["g1e2"]).0, vec!["Ne2"]);
}

#[test]
fn rights_and_clocks_go_on() {
    let after = |fen: &str, m: &str| line(fen, &[m]).1;
    let all = "r3k2r/8/8/8/8/8/8/R3K2R w KQkq - 3 1";
    assert_eq!(after(all, "e1e2"), "r3k2r/8/8/8/8/8/4K3/R6R b kq - 4 1");
    assert_eq!(after(all, "h1g1"), "r3k2r/8/8/8/8/8/8/R3K1R1 b Qkq - 4 1");
    assert_eq!(after(all, "a1b1"), "r3k2r/8/8/8/8/8/8/1R2K2R b Kkq - 4 1");
    assert_eq!(after(all, "a1a8"), "R3k2r/8/8/8/8/8/8/4K2R b Kk - 0 1");
    assert_eq!(after(all, "h1h8"), "r3k2R/8/8/8/8/8/8/R3K3 b Qq - 0 1");
    let black = "r3k2r/8/8/8/8/8/8/4K3 b kq - 0 10";
    assert_eq!(after(black, "e8e7"), "r6r/4k3/8/8/8/8/8/4K3 w - - 1 11");
    assert_eq!(after(black, "h8h7"), "r3k3/7r/8/8/8/8/8/4K3 w q - 1 11");
    let p = puzzle(black, &["e8e7", "e1d1"]);
    let game = Exporter::puzzle_to_pgn_with_options(&p, false);
    assert!(game.contains("[FEN \"r6r/4k3/8/8/8/8/8/4K3 w - - 1 11\"]"));
    assert_eq!(Exporter::puzzle_without_setup_move(&p).fen, "r6r/4k3/8/8/8/8/8/4K3 w - - 1 11");
}

#[test]
fn what_is_no_move_stays_as_it_is() {
    let fen = "4k3/8/8/8/8/8/8/4K3 w - - 0 1";
    let (san, after) = line(fen, &["e1", "", "z9z9", "a3a4"]);
    assert_eq!(san, vec!["e1", "", "z9z9", "a3a4"]);
    assert_eq!(after, fen);
}

#[test]
fn positions_and_their_texts() {
    for fen in [
        "r3k2r/8/8/8/8/8/8/R3K2R b Kq e3 12 345",
        "rnbqkbnr/pppppppp/8/8/8/8/PPPPPPPP/RNBQKBNR w KQkq - 0 1",
    ] {
        assert_eq!(BoardState::from_fen(fen).unwrap().to_fen(), fen);
    }
    assert_eq!(BoardState::from_fen("8").unwrap().to_fen(), "8/8/8/8/8/8/8/8 w - - 0 1");
    assert!(BoardState::from_fen("").is_none());
    assert!(BoardState::from_fen("x7 w - - 0 1").is_none());
    assert!(BoardState::from_fen("9999999991K w - - 0 1").is_none());
    assert!(BoardState::from_fen("8 w - A1 0 1").is_none());
    let b = BoardState::from_fen("8 w - i9 300 x").unwrap();
    assert_eq!(b.to_fen(), "8/8/8/8/8/8/8/8 w - - 0 1");
    let b = BoardState::from_fen("4k3/8/8/8/4r3/8/8/4K3 w - - 0 1").unwrap();
    assert!(b.is_in_check(false));
    assert!(!b.is_in_check(true));
    assert!(b.is_path_clear(4, 36));
    assert!(!b.is_path_clear(4, 60));
    assert!(b.can_piece_reach(36, 60, 4));
    assert!(!b.can_piece_reach(36, 43, 3));
}

#[test]
fn the_game_of_a_puzzle() {
    let mut p = puzzle("4k3/8/8/8/8/8/4P3/4K3 b - - 0 7", &["e8d8", "e2e4", "d8e8"]);
    p.themes = vec!["endgame".to_string(), "short".to_string()];
    let head = "[Event \"Lichess Puzzle 00abc\"]\n[Site \"https://lichess.org/training\"]\n\
        [Date \"????.??.??\"]\n[White \"Puzzle\"]\n[Black \"Puzzle\"]\n[Result \"*\"]\n[SetUp \"1\"]\n";
    assert_eq!(
        Exporter::puzzle_to_pgn(&p),
        format!(
            "{}[FEN \"4k3/8/8/8/8/8/4P3/4K3 b - - 0 7\"]\n[PuzzleId \"00abc\"]\n[Rating \"1500\"]\n\
            [Themes \"endgame short\"]\n\n7... Kd8 8. e4 Ke8 *\n\n",
            head
        )
    );
    assert!(Exporter::can_write_pgn(&p, false));
    assert_eq!(
        Exporter::puzzle_to_pgn_with_options(&p, false),
        format!(
            "{}[FEN \"3k4/8/8/8/8/8/4P3/4K3 w - - 1 8\"]\n[PuzzleId \"00abc\"]\n[Rating \"1500\"]\n\
            [Themes \"endgame short\"]\n[SetupMove \"Kd8\"]\n\n8. e4 Ke8 *\n\n",
            head
        )
    );
    let q = Exporter::puzzle_without_setup_move(&p);
    assert_eq!(q.fen, "3k4/8/8/8/8/8/4P3/4K3 w - - 1 8");
    assert_eq!(q.moves, vec!["e2e4", "d8e8"]);
    assert_eq!((q.id, q.rating, q.themes), (p.id, 1500, p.themes));
}

#[test]
fn puzzles_that_have_no_setup_move() {
    let p = puzzle("4k3/8/8/8/8/8/4P3/4K3 w - - 0 7", &["e2e4"]);
    assert_eq!(Exporter::puzzle_to_pgn_with_options(&p, false), Exporter::puzzle_to_pgn(&p));
    assert_eq!(Exporter::puzzle_without_setup_move(&p).moves, vec!["e2e4"]);
    let p = puzzle("no board", &["e2e4", "e7e5", "g1f3"]);
    assert_eq!(Exporter::puzzle_without_setup_move(&p).moves.len(), 3);
    assert!(Exporter::puzzle_to_pgn(&p).ends_with("\n\n1. e2e4 e7e5 2. g1f3 *\n\n"));
    let short = Exporter::puzzle_to_pgn_with_options(&p, false);
    assert!(short.contains("[SetupMove \"\"]"));
    assert!(short.ends_with("\n\n1. e7e5 g1f3 *\n\n"));
}

#[test]
fn puzzles_that_cannot_be_played() {
    let p = puzzle("4k3/8/8/8/8/8/P7/4K3 w - a1 0 1", &["a2a1", "e8e7"]);
    assert!(!Exporter::can_drop_setup(&p));
    assert!(!Exporter::can_write_pgn(&p, true));
    assert!(!Exporter::can_write_pgn(&p, false));
    let p = puzzle("4k3/8/8/8/8/8/8/4K3 b - - 0 18446744073709551615", &["e8e7", "e1e2"]);
    assert!(!Exporter::can_drop_setup(&p));
    let p = puzzle("4k3/8/8/8/8/8/8/4K3 w - - 255 1", &["e1e2", "e8e7"]);
    assert!(Exporter::can_drop_setup(&p));
    assert!(Exporter::can_write_pgn(&p, true));
    assert!(Exporter::can_write_pgn(&p, false));
    let next = Exporter::puzzle_without_setup_move(&p);
    assert_eq!(next.fen, "4k3/8/8/8/8/8/4K3/8 b - - 256 1");
    let short = Exporter::puzzle_to_pgn_with_options(&p, false);
    assert!(short.contains("[SetupMove \"Ke2\"]"));
    assert!(short.ends_with("\n\n1... Ke7 *\n\n"));
    assert!(Exporter::puzzle_to_pgn(&next).ends_with("\n\n1... Ke7 *\n\n"));
    let p = puzzle("4k3/8/8/8/8/8/4P3/4K3 w - - 255 1", &["e2e4", "e8e7"]);
    assert!(Exporter::can_drop_setup(&p));
    let p = puzzle("4k3/8/8/8/8/8/8/4K3 b - - 0 1", &["e8e7", "e1e2"]);
    assert!(Exporter::can_drop_setup(&p));
}

#[test]
fn comma_separated_lines() {
    let mut p = puzzle("4k3/8/8/8/8/8/8/4K3 b - - 0 1", &["e8e7", "e1e2"]);
    p.themes = vec!["fork".to_string(), "pin".to_string()];
    assert_eq!(Exporter::csv_header(), "PuzzleId,FEN,Moves,Rating,Themes\n");
    assert_eq!(
        Exporter::puzzle_to_csv_line(&p),
        "00abc,4k3/8/8/8/8/8/8/4K3 b - - 0 1,e8e7 e1e2,1500,\"fork pin\"\n"
    );
    p.fen = "a,b".to_string();
    p.themes = vec![];
    assert_eq!(Exporter::puzzle_to_csv_line(&p), "00abc,\"a,b\",e8e7 e1e2,1500,\"\"\n");
}
