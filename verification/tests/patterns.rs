use mjagari::agari::pattern::{agari_patterns_text, pattern_line_text, AgariPattern, AgariPatternSeq};
use mjagari::agari::pattern_search::{search_pattern, search_pattern_sorted};
use mjagari::mjcore::mjcomb::MJCombCategory;
use mjagari::mjcore::mjtile::MJTile;

fn letters(p: &AgariPattern) -> String {
    let mut s = String::new();
    for i in 0..p.len() {
        s.push(match p.get(i as u8) {
            Some(MJCombCategory::Shuntu) => 'S',
            Some(MJCombCategory::Koutu) => 'K',
            Some(MJCombCategory::Kantu) => 'G',
            Some(MJCombCategory::Tuitu) => 'T',
            None => '.',
        });
    }
    s
}

fn hand(names: &[&str]) -> Vec<MJTile> {
    names.iter().map(|s| MJTile::from_str(s).unwrap()).collect()
}

fn search(names: &[&str]) -> Vec<String> {
    search_pattern(&hand(names)).iter().map(letters).collect()
}

#[test]
fn pattern_push_get_len() {
    let mut p = AgariPattern::new();
    assert!(p.empty());
    assert_eq!(p.len(), 0);
    p.push(MJCombCategory::Shuntu);
    p.push(MJCombCategory::Kantu);
    p.push(MJCombCategory::Tuitu);
    assert!(!p.empty());
    assert_eq!(p.len(), 3);
    assert_eq!(p.get(0), Some(MJCombCategory::Tuitu));
    assert_eq!(p.get(1), Some(MJCombCategory::Koutu));
    assert_eq!(p.get(2), Some(MJCombCategory::Shuntu));
    assert_eq!(p.get(3), None);
    assert!(p.has_tuitu());
    assert_eq!(letters(&p), "TKS");
}

#[test]
fn pattern_reversed_twice() {
    let mut p = AgariPattern::new();
    p.push(MJCombCategory::Shuntu);
    p.push(MJCombCategory::Koutu);
    p.push(MJCombCategory::Koutu);
    p.push(MJCombCategory::Tuitu);
    let r = p.reversed();
    assert_eq!(letters(&r), "SKKT");
    assert_eq!(r.len(), p.len());
    assert_eq!(r.reversed(), p);
}

#[test]
fn pattern_reversed_drops_empty_bottom_slot() {
    let mut p = AgariPattern::new();
    p.assign(2, MJCombCategory::Shuntu);
    assert_eq!(p.len(), 3);
    assert_eq!(letters(&p), "..S");
    let r = p.reversed();
    assert_eq!(letters(&r), "S");
    assert_ne!(r.reversed(), p);
}

#[test]
fn pattern_assign_and_has_tuitu() {
    let mut p = AgariPattern::from(MJCombCategory::Shuntu);
    assert!(!p.has_tuitu());
    p.assign(0, MJCombCategory::Tuitu);
    assert!(p.has_tuitu());
    assert_eq!(letters(&p), "T");
    let mut q = AgariPattern::new();
    q.assign(5, MJCombCategory::Tuitu);
    assert!(!q.has_tuitu());
    assert_eq!(q.len(), 6);
    assert_eq!(AgariPattern::default(), AgariPattern::new());
}

#[test]
fn pattern_push_past_eight_slots_drops_top() {
    let mut p = AgariPattern::new();
    p.push(MJCombCategory::Tuitu);
    for _ in 0..8 {
        p.push(MJCombCategory::Shuntu);
    }
    assert_eq!(p.len(), 8);
    assert!(!p.has_tuitu());
    assert_eq!(letters(&p), "SSSSSSSS");
}

#[test]
fn pattern_iter() {
    let mut p = AgariPattern::new();
    p.push(MJCombCategory::Koutu);
    p.push(MJCombCategory::Shuntu);
    let mut it = p.iter();
    assert_eq!(it.next(), Some(MJCombCategory::Shuntu));
    assert_eq!(it.next(), Some(MJCombCategory::Koutu));
    assert_eq!(it.next(), None);
    let mut it = p.iter();
    assert_eq!(it.nth(1), Some(MJCombCategory::Koutu));
    assert_eq!(it.nth(5), None);
    assert_eq!(AgariPattern::MAX_COMB_COUNT, 5);
}

#[test]
fn seq_push_get_len() {
    let mut s = AgariPatternSeq::new();
    assert!(s.empty());
    assert_eq!(s.len(), 0);
    let a = AgariPattern::from(MJCombCategory::Tuitu);
    let b = AgariPattern::from(MJCombCategory::Shuntu);
    s.push(a);
    s.push(b);
    assert_eq!(s.len(), 2);
    assert_eq!(s.get(0), Some(b));
    assert_eq!(s.get(1), Some(a));
    assert_eq!(s.get(2), None);
    let one = AgariPatternSeq::from(a);
    assert_eq!(one.len(), 1);
    assert_eq!(one.get(0), Some(a));
    assert_eq!(AgariPatternSeq::MAX_PATTERN_COUNT, 6);
}

#[test]
fn seq_set_if_existed() {
    let a = AgariPattern::from(MJCombCategory::Tuitu);
    let b = AgariPattern::from(MJCombCategory::Shuntu);
    let k = AgariPattern::from(MJCombCategory::Koutu);
    let mut s = AgariPatternSeq::from(a);
    s.push(b);
    s.set_if_existed(1, k);
    assert_eq!(s.get(1), Some(k));
    assert_eq!(s.get(0), Some(b));
    let before = s;
    s.set_if_existed(2, k);
    assert_eq!(s, before);
}

#[test]
fn seq_iter_both_ends() {
    let mut s = AgariPatternSeq::new();
    let pats = [
        AgariPattern::from(MJCombCategory::Tuitu),
        AgariPattern::from(MJCombCategory::Shuntu),
        AgariPattern::from(MJCombCategory::Koutu),
    ];
    for p in pats {
        s.push(p);
    }
    let mut it = s.iter();
    assert_eq!(it.next(), Some(pats[2]));
    assert_eq!(it.next_back(), Some(pats[0]));
    assert_eq!(it.next(), Some(pats[1]));
    assert_eq!(it.next(), None);
    assert_eq!(it.next_back(), None);
    let mut it = s.iter();
    assert_eq!(it.nth(2), Some(pats[0]));
    assert_eq!(it.nth(0), None);
}

#[test]
fn seq_seventh_push_keeps_a_partial_slot() {
    let mut s = AgariPatternSeq::new();
    let mut big = AgariPattern::new();
    for _ in 0..5 {
        big.push(MJCombCategory::Tuitu);
    }
    s.push(big);
    for _ in 0..6 {
        s.push(AgariPattern::from(MJCombCategory::Shuntu));
    }
    assert_eq!(s.len(), 7);
    assert_eq!(s.get(6).map(|p| p.len()), Some(2));
}

#[test]
fn search_main_examples() {
    assert_eq!(
        search(&["1S", "2S", "3S", "5S", "6S", "7S", "1M", "2M", "3M", "5M", "6M", "7M", "S", "S"]),
        vec!["SSSST"]
    );
    assert_eq!(
        search(&["1S", "1S", "1S", "2S", "2S", "2S", "2S", "3S", "3S", "3S", "3S", "4S", "4S", "4S"]),
        vec!["TKSKK", "KKKST", "SSSST", "TSSSS"]
    );
    assert_eq!(
        search(&["2M", "2M", "3M", "3M", "3M", "4M", "4M", "4M", "5M", "5M", "5M", "6M", "6M", "6M"]),
        vec!["TSSSK", "SSSTK", "TKKKK", "TKSSS"]
    );
}

#[test]
fn search_small_hands() {
    assert_eq!(search(&["S", "S"]), vec!["T"]);
    assert_eq!(search(&["1M", "2M", "3M"]), vec!["S"]);
    assert_eq!(search(&["1M", "1M", "1M"]), vec!["K"]);
    assert!(search(&["1M", "2M"]).is_empty());
    assert!(search(&["T", "T", "T", "T"]).is_empty());
    assert_eq!(search(&["1M", "1M", "2M", "2M", "3M", "3M"]), vec!["SS"]);
    assert!(search(&["5P"]).is_empty());
}

#[test]
fn search_continues_four_open_runs() {
    assert_eq!(
        search(&["1M", "1M", "1M", "1M", "2M", "2M", "2M", "2M", "3M", "3M", "3M", "3M", "4M", "4M"]),
        vec!["SSSST", "KKSKT", "TSSSS"]
    );
    assert_eq!(
        search(&["1M", "1M", "1M", "1M", "2M", "2M", "2M", "2M", "3M", "3M", "3M", "3M", "5P", "5P"]),
        vec!["SSSST", "KKSKT"]
    );
    assert_eq!(
        search(&["1M", "1M", "1M", "1M", "2M", "2M", "2M", "2M", "3M", "3M", "3M", "3M"]),
        vec!["KKSK", "SSSS"]
    );
}

#[test]
fn search_ignores_order_and_red() {
    let a = search(&["1S", "2S", "3S", "5S", "6S", "7S", "1M", "2M", "3M", "5M", "6M", "7M", "S", "S"]);
    let b = search(&["S", "7M", "6Mr", "5M", "3M", "2M", "1M", "7S", "6S", "5Sr", "3S", "2S", "1S", "S"]);
    assert_eq!(a, b);
}

#[test]
fn search_sorted_on_runs() {
    let h = hand(&["1M", "2M", "3M", "9M", "9M"]);
    let r: Vec<String> = search_pattern_sorted(&h).iter().map(letters).collect();
    assert_eq!(r, vec!["ST"]);
    let unsorted = hand(&["2M", "1M", "3M"]);
    let r: Vec<String> = search_pattern_sorted(&unsorted).iter().map(letters).collect();
    assert!(r.is_empty());
}

#[test]
fn pattern_lines_show_letters() {
    let mut p = AgariPattern::new();
    assert_eq!(pattern_line_text(p), "  \n");
    p.push(MJCombCategory::Shuntu);
    p.push(MJCombCategory::Kantu);
    p.push(MJCombCategory::Tuitu);
    assert_eq!(pattern_line_text(p), "  T K S \n");
    let mut gap = AgariPattern::new();
    gap.assign(2, MJCombCategory::Shuntu);
    assert_eq!(pattern_line_text(gap), "  \n");
    let mut six = AgariPattern::new();
    for _ in 0..6 {
        six.push(MJCombCategory::Shuntu);
    }
    assert_eq!(pattern_line_text(six), "  S S S S S \n");
}

#[test]
fn patterns_text_of_main_examples() {
    let h1 = hand(&["1S", "2S", "3S", "5S", "6S", "7S", "1M", "2M", "3M", "5M", "6M", "7M", "S", "S"]);
    assert_eq!(agari_patterns_text(&search_pattern(&h1)), "  S S S S T \n");
    let h2 = hand(&["1S", "1S", "1S", "2S", "2S", "2S", "2S", "3S", "3S", "3S", "3S", "4S", "4S", "4S"]);
    assert_eq!(
        agari_patterns_text(&search_pattern(&h2)),
        "  T K S K K \n  K K K S T \n  S S S S T \n  T S S S S \n"
    );
    assert_eq!(agari_patterns_text(&[]), "");
}

#[test]
fn sorted_search_agrees_with_search() {
    let h = hand(&["1M", "1M", "1M", "2M", "3M", "4M", "9S", "9S", "9S", "5P", "6P", "7P", "N", "N"]);
    let a: Vec<String> = search_pattern(&h).iter().map(letters).collect();
    let b: Vec<String> = search_pattern_sorted(&h).iter().map(letters).collect();
    assert_eq!(a, b);
    assert!(!a.is_empty());
}

/// The tiles a pattern's combinations use: three for a run or three of a
/// kind, two for a pair.
fn pattern_tiles(p: &AgariPattern) -> usize {
    let mut n = 0;
    for i in 0..p.len() {
        n += match p.get(i as u8) {
            Some(MJCombCategory::Tuitu) => 2,
            Some(_) => 3,
            None => 0,
        };
    }
    n
}

#[test]
fn every_result_uses_all_tiles_with_one_pair_at_most() {
    let hands: [&[&str]; 4] = [
        &["1S", "2S", "3S", "5S", "6S", "7S", "1M", "2M", "3M", "5M", "6M", "7M", "S", "S"],
        &["1S", "1S", "1S", "2S", "2S", "2S", "2S", "3S", "3S", "3S", "3S", "4S", "4S", "4S"],
        &["2M", "2M", "3M", "3M", "3M", "4M", "4M", "4M", "5M", "5M", "5M", "6M", "6M", "6M"],
        &["1P", "1P", "2P", "2P", "3P", "3P", "Z", "Z"],
    ];
    for h in hands.iter() {
        let tiles = hand(h);
        let res = search_pattern(&tiles);
        assert!(!res.is_empty());
        for p in res.iter() {
            assert_eq!(pattern_tiles(p), tiles.len());
            let pairs = (0..p.len()).filter(|i| p.get(*i as u8) == Some(MJCombCategory::Tuitu)).count();
            assert!(pairs <= 1);
        }
    }
}

#[test]
fn search_finds_a_pattern_exactly_when_one_exists() {
    // splittable hands
    assert!(!search(&["1M", "2M", "3M", "3M", "3M"]).is_empty());
    assert!(!search(&["7P", "8P", "9P", "B", "B", "B", "F", "F"]).is_empty());
    assert!(!search(&["1M", "1M", "1M", "1M", "2M", "2M", "2M", "2M", "3M", "3M", "3M", "3M", "4M", "4M"]).is_empty());
    // hands with no split: a run across suits, honours in a row, two pairs
    assert!(search(&["8M", "9M", "1S"]).is_empty());
    assert!(search(&["T", "N", "S"]).is_empty());
    assert!(search(&["1M", "1M", "2P", "2P"]).is_empty());
    assert!(search(&["9M", "9M", "9M", "9M", "1P", "2P", "3P"]).is_empty());
    assert_eq!(search(&["9M", "9M", "9M", "1P", "2P", "3P", "5S", "5S"]), vec!["KTS"]);
}

#[test]
fn nth_matches_repeated_next() {
    let mut p = AgariPattern::new();
    p.push(MJCombCategory::Shuntu);
    p.push(MJCombCategory::Koutu);
    p.push(MJCombCategory::Tuitu);
    for start in 0..6usize {
        for n in 0..7usize {
            let mut a = p.iter();
            let mut b = p.iter();
            for _ in 0..start {
                a.next();
                b.next();
            }
            let x = a.nth(n);
            let mut y = None;
            for _ in 0..=n {
                y = b.next();
            }
            assert_eq!(x, y);
        }
    }
}

#[test]
fn seq_iter_mixed_ends_yield_each_slot_once() {
    let pats = [
        AgariPattern::from(MJCombCategory::Tuitu),
        AgariPattern::from(MJCombCategory::Shuntu),
        AgariPattern::from(MJCombCategory::Koutu),
        AgariPattern::from(MJCombCategory::Shuntu),
    ];
    let mut s = AgariPatternSeq::new();
    for p in pats.iter() {
        s.push(*p);
    }
    let mut it = s.iter();
    let mut front = Vec::new();
    let mut back = Vec::new();
    back.push(it.next_back().unwrap());
    front.push(it.next().unwrap());
    back.push(it.next_back().unwrap());
    front.push(it.next().unwrap());
    assert_eq!(it.next(), None);
    assert_eq!(it.next_back(), None);
    // slot 0 holds the last pushed pattern
    assert_eq!(front, vec![pats[3], pats[2]]);
    assert_eq!(back, vec![pats[0], pats[1]]);
}
