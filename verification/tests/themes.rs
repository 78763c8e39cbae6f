use lipuzzles::theme::{ThemeMask, THEME_NAMES};

#[test]
fn test_theme_mask() {
    let mask = ThemeMask::from_names(&["fork", "endgame", "mateIn2"]);
    assert!(mask.has_bit(ThemeMask::theme_to_bit("fork").unwrap()));
    assert!(mask.has_bit(ThemeMask::theme_to_bit("endgame").unwrap()));
    assert!(mask.has_bit(ThemeMask::theme_to_bit("mateIn2").unwrap()));
    assert!(!mask.has_bit(ThemeMask::theme_to_bit("quietMove").unwrap()));

    let query = ThemeMask::from_names(&["fork"]);
    assert!(mask.contains_all(query));
    assert!(mask.contains_any(query));

    let query_not = ThemeMask::from_names(&["quietMove"]);
    assert!(!mask.contains_all(query_not));
    assert!(!mask.contains_any(query_not));
}

#[test]
fn test_sqlite_str_parse() {
    // "1 2 3 4" => crushing, hangingPiece, long, middlegame
    let mask = ThemeMask::from_sqlite_ids_str("1 2 3 4");
    let names = mask.to_theme_names();
    assert_eq!(names, vec!["crushing", "hangingPiece", "long", "middlegame"]);
}

#[test]
fn every_theme_is_found_by_its_name() {
    for (i, name) in THEME_NAMES.iter().enumerate() {
        assert_eq!(ThemeMask::theme_to_bit(name), Some(i as u8));
        let shouted = format!("  {} ", name.to_uppercase());
        assert_eq!(ThemeMask::theme_to_bit(&shouted), Some(i as u8));
    }
    assert_eq!(ThemeMask::theme_to_bit("nothing"), None);
    assert_eq!(ThemeMask::theme_to_bit(""), None);
}

#[test]
fn masks_come_back_from_their_names() {
    let mask = ThemeMask::new((1 << 0) | (1 << 8) | (1 << 72));
    let names = mask.to_theme_names();
    assert_eq!(names, vec!["crushing", "fork", "underPromotion"]);
    assert_eq!(ThemeMask::from_names(&names), mask);
    assert_eq!(ThemeMask::from_csv_themes_str(&names.join(" ")), mask);
    assert_eq!(ThemeMask::from_csv("crushing, FORK ,underpromotion,unknown"), mask);
    let beyond = ThemeMask::new(1 << 100);
    assert!(beyond.to_theme_names().is_empty());
}

#[test]
fn numbers_outside_the_mask_are_left_out() {
    assert_eq!(ThemeMask::from_1based_ids(&[0, 1, 128, 129, 65535]), ThemeMask::new(1 | (1 << 127)));
    assert_eq!(ThemeMask::from_sqlite_ids_str("+2 x 0 70000 3"), ThemeMask::new(2 | 4));
    assert!(ThemeMask::from_sqlite_ids_str("").is_empty());
}

#[test]
fn bits_of_a_mask() {
    let mut mask = ThemeMask::empty();
    assert!(mask.is_empty());
    mask.set_bit(127);
    mask.set_bit(128);
    assert_eq!(mask, ThemeMask::new(1 << 127));
    assert!(mask.has_bit(127));
    assert!(!mask.has_bit(128));
    assert!(!mask.is_empty());
    assert!(mask.contains_all(ThemeMask::empty()));
    assert!(!mask.contains_any(ThemeMask::empty()));
}
