use lipuzzles::board::{count_squares, CompactBoard};
use lipuzzles::fen::{nibble_to_piece, piece_to_nibble, FenError, PackedFen};
use lipuzzles::id::{
    base62_char_to_val, decode_base62_id, encode_base62_id, is_standard_base62_5char,
    val_to_base62_char,
};
use lipuzzles::moves::{decode_moves, encode_moves, PackedMove};
use lipuzzles::text::{chars_of, is_whitespace, parse_number, parse_whole, split_fields, trim};

#[test]
fn test_compact_board_roundtrip() {
    let fens = [
        "rnbqkbnr/pppppppp/8/8/8/8/PPPPPPPP/RNBQKBNR w KQkq - 0 1",
        "r6k/pp2r2p/4Rp1Q/3p4/8/1N1P2R1/PqP2bPP/7K b - - 0 24",
        "5rk1/1p3ppp/pq3b2/8/8/1P1Q1N2/P4PPP/3R2K1 w - - 2 27",
        "8/4R3/1p2P3/p4r2/P6p/1P3Pk1/4K3/8 w - - 1 64",
        "8/8/8/8/8/8/8/8 w - - 0 1",
        "4k3/8/8/8/8/8/8/4K3 w - - 0 1",
    ];

    for fen in fens {
        let packed = PackedFen::encode(fen).unwrap();
        let compact = CompactBoard::from_board_nibbles(&packed.board);
        let reconstructed_nibbles = compact.to_board_nibbles();
        assert_eq!(reconstructed_nibbles, packed.board);

        let mut fen_ranks = String::new();
        compact.write_fen_ranks(&mut fen_ranks);
        let expected_ranks = fen.split_whitespace().next().unwrap();
        assert_eq!(fen_ranks, expected_ranks);
    }
}

#[test]
fn test_starting_fen_roundtrip() {
    let fen = "rnbqkbnr/pppppppp/8/8/8/8/PPPPPPPP/RNBQKBNR w KQkq - 0 1";
    let packed = PackedFen::encode(fen).unwrap();
    assert_eq!(packed.to_fen(), fen);
}

#[test]
fn test_puzzle_fens_roundtrip() {
    let fens = [
        "r6k/pp2r2p/4Rp1Q/3p4/8/1N1P2R1/PqP2bPP/7K b - - 0 24",
        "5rk1/1p3ppp/pq3b2/8/8/1P1Q1N2/P4PPP/3R2K1 w - - 2 27",
        "8/4R3/1p2P3/p4r2/P6p/1P3Pk1/4K3/8 w - - 1 64",
        "r2qr1k1/b1p2ppp/pp4n1/P1P1p3/4P1n1/B2P2Pb/3NBP1P/RN1QR1K1 b - - 1 16",
        "r1b1k2r/pppp1ppp/8/4n3/1bP2B2/8/PP1NPPPP/R2QKB1R w KQkq e6 0 8",
    ];

    for fen in fens {
        let packed = PackedFen::encode(fen).expect("failed to encode fen");
        let decoded = packed.to_fen();
        assert_eq!(decoded, fen);
    }
}

#[test]
fn test_base62_roundtrip() {
    let test_ids = [
        "00008", "0000D", "0008Q", "0009B", "000Pw", "zzzz9", "ZZZZZ", "00000", "abcDE",
    ];

    for &id in &test_ids {
        assert!(is_standard_base62_5char(id));
        let encoded = encode_base62_id(id);
        let decoded = decode_base62_id(encoded);
        assert_eq!(decoded, id);
    }
}

#[test]
fn test_move_roundtrip() {
    let tests = [
        "e2e4",
        "g1f3",
        "e7e8q",
        "a7a8r",
        "c7c8b",
        "h7h8n",
        "f2f1q",
    ];

    for m_str in tests {
        let pm = PackedMove::from_uci(m_str).expect("failed to parse move");
        assert_eq!(pm.to_uci(), m_str);
    }
}

#[test]
fn test_move_sequence_roundtrip() {
    let line = "f2g3 e6e7 b2b1 b3c1 b1c1 h6c1";
    let encoded = encode_moves(line);
    assert_eq!(encoded.len(), 6);
    let decoded = decode_moves(&encoded);
    assert_eq!(decoded, line);
}

#[test]
fn start_position_in_words() {
    let packed =
        PackedFen::encode("rnbqkbnr/pppppppp/8/8/8/8/PPPPPPPP/RNBQKBNR w KQkq - 0 1").unwrap();
    assert_eq!(packed.board[0], 0xA8);
    assert_eq!(packed.board[4], 0x77);
    assert_eq!(packed.board[8], 0);
    assert_eq!(packed.board[31], 0x24);
    assert_eq!(packed.state, 30);
    assert_eq!(packed.halfmove, 0);
    assert_eq!(packed.fullmove, 1);
}

#[test]
fn state_word_of_black_with_en_passant() {
    let packed = PackedFen::encode("8/8/8/8/4P3/8/8/4K2k b K e3 7 300").unwrap();
    assert_eq!(packed.state, 1 + 2 + 32 * 45);
    assert_eq!(packed.halfmove, 7);
    assert_eq!(packed.fullmove, 300);
    assert_eq!(packed.to_fen(), "8/8/8/8/4P3/8/8/4K2k b K e3 7 300");
}

#[test]
fn missing_fields_have_defaults() {
    let packed = PackedFen::encode("8/8/8/8/8/8/8/8").unwrap();
    assert_eq!(packed.to_fen(), "8/8/8/8/8/8/8/8 w - - 0 1");
    let odd = PackedFen::encode("8/8/8/8/8/8/8/8 w - - x 70000").unwrap();
    assert_eq!((odd.halfmove, odd.fullmove), (0, 1));
}

#[test]
fn every_fen_fault() {
    let cases = [
        ("", FenError::MalformedFen),
        ("8/8/8 w - - 0 1", FenError::InvalidRankCount),
        ("9/8/8/8/8/8/8/8 w - - 0 1", FenError::InvalidSquareCount),
        ("7/8/8/8/8/8/8/8 w - - 0 1", FenError::InvalidSquareCount),
        ("x7/8/8/8/8/8/8/8 w - - 0 1", FenError::InvalidPiece('x')),
        ("8/8/8/8/8/8/8/8 x - - 0 1", FenError::InvalidTurn),
        ("8/8/8/8/8/8/8/8 w Z - 0 1", FenError::InvalidCastling),
        ("8/8/8/8/8/8/8/8 w - z9 0 1", FenError::InvalidEnPassant),
    ];
    for (text, fault) in cases {
        assert_eq!(PackedFen::encode(text), Err(fault), "{}", text);
    }
}

#[test]
fn piece_codes_and_letters() {
    let letters = "PNBRQKpnbrqk";
    for (i, c) in letters.chars().enumerate() {
        assert_eq!(piece_to_nibble(c), Ok(i as u8 + 1));
        assert_eq!(nibble_to_piece(i as u8 + 1), Some(c));
    }
    assert_eq!(piece_to_nibble('x'), Err(FenError::InvalidPiece('x')));
    assert_eq!(nibble_to_piece(0), None);
    assert_eq!(nibble_to_piece(13), None);
}

#[test]
fn compact_board_of_two_kings() {
    let packed = PackedFen::encode("4k3/8/8/8/8/8/8/4K3 w - - 0 1").unwrap();
    let compact = CompactBoard::from_board_nibbles(&packed.board);
    assert_eq!(compact.occupied, (1u64 << 4) | (1u64 << 60));
    assert_eq!(compact.pieces[0], 0xC6);
    assert_eq!(compact.pieces[1], 0);
    assert_eq!(count_squares(compact.occupied), 2);
    let empty = CompactBoard::empty();
    let mut ranks = String::new();
    empty.write_fen_ranks(&mut ranks);
    assert_eq!(ranks, "8/8/8/8/8/8/8/8");
}

#[test]
fn pieces_behind_the_thirty_second_are_dropped() {
    let packed = PackedFen::encode("pppppppp/pppppppp/pppppppp/pppppppp/p7/8/8/8 w - - 0 1").unwrap();
    let compact = CompactBoard::from_board_nibbles(&packed.board);
    assert_eq!(count_squares(compact.occupied), 33);
    let mut ranks = String::new();
    compact.write_fen_ranks(&mut ranks);
    assert_eq!(ranks, "pppppppp/pppppppp/pppppppp/pppppppp/8/8/8/8");
}

#[test]
fn base62_values() {
    assert_eq!(base62_char_to_val('9' as u8), 9);
    assert_eq!(base62_char_to_val('a' as u8), 10);
    assert_eq!(base62_char_to_val('Z' as u8), 61);
    assert_eq!(base62_char_to_val('-' as u8), 0);
    assert_eq!(val_to_base62_char(10), 'a' as u8);
    assert_eq!(val_to_base62_char(61), 'Z' as u8);
    assert_eq!(val_to_base62_char(62), '0' as u8);
    assert_eq!(encode_base62_id("00008"), 8);
    assert_eq!(encode_base62_id("00010"), 62);
    assert_eq!(encode_base62_id("ZZZZZ"), 62u32.pow(5) - 1);
    assert_eq!(encode_base62_id("ZZZZZextra"), 62u32.pow(5) - 1);
    assert_eq!(decode_base62_id(62 * 62), "00100");
    assert!(!is_standard_base62_5char("0000"));
    assert!(!is_standard_base62_5char("0000-"));
}

#[test]
fn move_words() {
    assert_eq!(PackedMove::from_uci("e2e4"), Some(PackedMove(12 + 28 * 64)));
    assert_eq!(PackedMove::from_uci("e7e8Q"), Some(PackedMove(52 + 60 * 64 + 4096)));
    assert_eq!(PackedMove::from_uci("e7e8x"), None);
    assert_eq!(PackedMove::from_uci("e9e4"), None);
    assert_eq!(PackedMove::from_uci("e2e"), None);
    let m = PackedMove::new(12, 28, 4);
    assert_eq!((m.from_sq(), m.to_sq(), m.promo_raw(), m.promo_char()), (12, 28, 4, Some('n')));
    assert_eq!(m.to_uci(), "e2e4n");
    assert_eq!(encode_moves("e2e4 rubbish e7e5").len(), 2);
}

#[test]
fn white_space_is_that_of_the_standard_library() {
    for v in 0..0x110000u32 {
        if let Some(c) = char::from_u32(v) {
            assert_eq!(is_whitespace(c), c.is_whitespace(), "{:x}", v);
        }
    }
}

#[test]
fn numbers_are_those_of_the_standard_library() {
    let texts = [
        "", "0", "7", "+7", "-7", "++7", "+", "-", "-0", "255", "256", "00300", "65535", "65536", "1e3",
        " 1", "127", "128", "-128", "-129", "-+5", "4294967295", "4294967296", "18446744073709551615",
        "18446744073709551616", "99999999999999999999999",
    ];
    for t in texts {
        let chars = chars_of(t);
        assert_eq!(parse_number(&chars, 255), t.parse::<u8>().ok().map(|v| v as u64), "{}", t);
        assert_eq!(parse_number(&chars, 65535), t.parse::<u16>().ok().map(|v| v as u64), "{}", t);
        assert_eq!(parse_number(&chars, u64::MAX), t.parse::<u64>().ok(), "{}", t);
        assert_eq!(parse_whole(&chars, 128, 127), t.parse::<i8>().ok().map(|v| v as i64), "{}", t);
    }
}

#[test]
fn fields_and_trimming() {
    let chars = chars_of(" \t a  bc\u{a0}d ");
    let parts: Vec<String> = split_fields(&chars).into_iter().map(|p| p.into_iter().collect()).collect();
    assert_eq!(parts, vec!["a", "bc", "d"]);
    let bare: String = trim(&chars).into_iter().collect();
    assert_eq!(bare, "a  bc\u{a0}d");
}
