use mjagari::mjcore::mjtile::{MJTile, MJTileCategory, MJTileParseError};
use mjagari::mjcore::mjcomb::{MJComb, MJCombCategory, MJCombRedFlags};
use std::cmp::Ordering;

fn tile(s: &str) -> MJTile {
    MJTile::from_str(s).unwrap()
}

#[test]
fn new_suited_tile_reads_back() {
    let t = MJTile::new(MJTileCategory::Pin, 7, false);
    assert_eq!(t.category(), MJTileCategory::Pin);
    assert_eq!(t.number(), 7);
    assert!(!t.is_red());
    assert!(t.is_shiuhai());
    assert!(!t.is_jihai());
    assert_eq!(u8::from(t), 27);
    assert_eq!(t.face_code(), 27);
}

#[test]
fn new_honour_ignores_number() {
    let t = MJTile::new(MJTileCategory::Hatu, 5, true);
    assert_eq!(t.category(), MJTileCategory::Hatu);
    assert_eq!(t.number(), 0);
    assert_eq!(u8::from(t), 90);
    assert!(t.is_jihai());
    assert!(t.is_red());
}

#[test]
fn new_large_number_runs_into_next_category() {
    let t = MJTile::new(MJTileCategory::Man, 15, false);
    assert_eq!(t.category(), MJTileCategory::So);
    assert_eq!(t.number(), 5);
}

#[test]
fn red_mark_set_and_clear() {
    let mut t = tile("5M");
    assert!(!t.is_red());
    t.set_red();
    assert!(t.is_red());
    assert_eq!(t.number(), 5);
    t.clear_red();
    assert!(!t.is_red());
    assert_eq!(t.category(), MJTileCategory::Man);
}

#[test]
fn yaochuuhai_cases() {
    assert!(tile("1S").is_yaochuuhai());
    assert!(tile("9P").is_yaochuuhai());
    assert!(!tile("5M").is_yaochuuhai());
    assert!(tile("Z").is_yaochuuhai());
    assert!(tile("9Sr").is_yaochuuhai());
}

#[test]
fn number_prev_to_cases() {
    assert!(tile("3M").is_number_prev_to(tile("4M")));
    assert!(!tile("3M").is_number_prev_to(tile("5M")));
    assert!(!tile("3M").is_number_prev_to(tile("4S")));
    assert!(!tile("9M").is_number_prev_to(tile("1S")));
    assert!(!tile("T").is_number_prev_to(tile("N")));
}

#[test]
fn parse_honours() {
    let cases = [
        ("T", MJTileCategory::Ton),
        ("N", MJTileCategory::Nan),
        ("S", MJTileCategory::Shya),
        ("P", MJTileCategory::Pei),
        ("Z", MJTileCategory::Tyu),
        ("B", MJTileCategory::Haku),
        ("F", MJTileCategory::Hatu),
    ];
    for (s, c) in cases {
        let t = tile(s);
        assert_eq!(t.category(), c);
        assert!(!t.is_red());
    }
}

#[test]
fn parse_suited_and_red() {
    let t = tile("9Sr");
    assert_eq!(t.category(), MJTileCategory::So);
    assert_eq!(t.number(), 9);
    assert!(t.is_red());
    let t = tile("5Px");
    assert_eq!(t.category(), MJTileCategory::Pin);
    assert!(!t.is_red());
    let t = MJTile::try_from("2M").unwrap();
    assert_eq!(u8::from(t), 2);
}

#[test]
fn parse_errors() {
    assert!(matches!(MJTile::from_str(""), Err(MJTileParseError)));
    assert!(matches!(MJTile::from_str("X"), Err(MJTileParseError)));
    assert!(matches!(MJTile::from_str("5X"), Err(MJTileParseError)));
    assert!(matches!(MJTile::from_str("5Mrr"), Err(MJTileParseError)));
    assert!(matches!(MJTile::try_from("M"), Err(MJTileParseError)));
}

#[test]
fn tile_text_has_four_characters() {
    assert_eq!(tile("9Sr").to_string(), "9Sr\0");
    assert_eq!(tile("5M").to_string(), "5M\0\0");
    assert_eq!(tile("Z").to_string(), "Z\0\0\0");
    assert_eq!(tile("S").to_string(), "S\0\0\0");
    assert_eq!(tile("P").to_string().len(), 4);
}

#[test]
fn tile_equality_ignores_red() {
    assert!(tile("5M") == tile("5Mr"));
    assert!(tile("5M") != tile("5P"));
    assert_eq!(tile("5M").partial_cmp(&tile("5Mr")), Some(Ordering::Equal));
    assert_eq!(tile("5M").partial_cmp(&tile("6M")), Some(Ordering::Less));
    assert_eq!(tile("T").partial_cmp(&tile("9P")), Some(Ordering::Greater));
}

#[test]
fn category_index_and_repr() {
    assert_eq!(MJTileCategory::Hatu.index(), 9);
    assert_eq!(MJTileCategory::from_repr(4), Some(MJTileCategory::Nan));
    assert_eq!(MJTileCategory::from_repr(10), None);
    let all = [
        MJTileCategory::Man,
        MJTileCategory::So,
        MJTileCategory::Pin,
        MJTileCategory::Ton,
        MJTileCategory::Nan,
        MJTileCategory::Shya,
        MJTileCategory::Pei,
        MJTileCategory::Tyu,
        MJTileCategory::Haku,
        MJTileCategory::Hatu,
    ];
    for (k, c) in all.iter().enumerate() {
        assert_eq!(c.index() as usize, k);
        assert_eq!(MJTileCategory::from_repr(c.index()), Some(*c));
    }
}

#[test]
fn red_flags_from_bools() {
    let f = MJCombRedFlags::from_bools(true, false, true, true);
    let c = MJComb::new(MJCombCategory::Shuntu, tile("3M"), f);
    assert_eq!(c.red_count(), 3);
    assert!(c.is_tile_red(0));
    assert!(!c.is_tile_red(1));
    assert!(c.is_tile_red(2));
    assert!(c.is_tile_red(3));
    assert!(!c.is_tile_red(4));
    assert!(!c.is_tile_red(7));
}

#[test]
fn red_flags_from_counts_and_none() {
    let c = MJComb::new(MJCombCategory::Koutu, tile("5P"), MJCombRedFlags::from_counts(0, 2, 0, 0));
    assert_eq!(c.red_count(), 1);
    assert!(c.is_tile_red(1));
    let c = MJComb::new(MJCombCategory::Koutu, tile("5P"), MJCombRedFlags::none());
    assert_eq!(c.red_count(), 0);
    assert!(!c.is_tile_red(0));
}

#[test]
fn comb_accessors() {
    let c = MJComb::new(MJCombCategory::Kantu, tile("7S"), MJCombRedFlags::none());
    assert_eq!(c.category(), MJCombCategory::Kantu);
    assert!(c.first_tile() == tile("7S"));
    assert!(c.is_general_koutu());
    assert!(!c.is_chanta());
    let c = MJComb::new(MJCombCategory::Shuntu, tile("7S"), MJCombRedFlags::none());
    assert!(!c.is_general_koutu());
    assert!(c.is_chanta());
    let c = MJComb::new(MJCombCategory::Tuitu, tile("B"), MJCombRedFlags::none());
    assert!(c.is_chanta());
    let d = c.clone();
    assert!(d == c);
}

#[test]
fn comb_text_and_order() {
    let c = MJComb::new(MJCombCategory::Shuntu, tile("5M"), MJCombRedFlags::from_counts(1, 0, 0, 0));
    assert_eq!(c.to_string(), "5M\0\0S");
    let t = MJComb::new(MJCombCategory::Tuitu, tile("6Sr"), MJCombRedFlags::none());
    assert_eq!(t.to_string(), "6Sr\0T");
    let g = MJComb::new(MJCombCategory::Kantu, tile("N"), MJCombRedFlags::none());
    assert_eq!(g.to_string(), "N\0\0\0G");
    let k = MJComb::new(MJCombCategory::Koutu, tile("5M"), MJCombRedFlags::none());
    assert_eq!(c.partial_cmp(&k), Some(Ordering::Less));
    assert_eq!(k.partial_cmp(&t), Some(Ordering::Less));
    assert_eq!(t.partial_cmp(&c), Some(Ordering::Greater));
    let c2 = MJComb::new(MJCombCategory::Shuntu, tile("5Mr"), MJCombRedFlags::none());
    assert!(c == c2);
    assert_eq!(c.partial_cmp(&c2), Some(Ordering::Equal));
    assert!(c != k);
}

#[test]
fn tile_text_parses_back() {
    for s in ["1M", "9M", "5Sr", "7P", "0S", "T", "N", "S", "P", "Z", "B", "F"] {
        let t = MJTile::from_str(s).unwrap();
        let text = t.to_string();
        let back = MJTile::from_str(text.trim_end_matches('\0')).unwrap();
        assert!(back == t);
        assert_eq!(back.is_red(), t.is_red());
        assert_eq!(text.trim_end_matches('\0'), s);
    }
}
