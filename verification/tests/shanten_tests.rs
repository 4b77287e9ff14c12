use agari::parse::{parse_hand, parse_hand_with_aka, to_counts, TileCounts};
use agari::shanten::{
    array_to_tilecounts, calculate_shanten, calculate_shanten_with_melds, calculate_ukeire,
    calculate_ukeire_with_melds, calculate_ukeire_with_melds_and_visible,
    calculate_ukeire_with_visible, extract_melds_sequences_first, shanten_after_chi,
    shanten_after_kan, valid_chi_combinations, ShantenType,
};
use agari::tile::{index_to_tile, tile_to_index, Honor, KanType, Suit, Tile};

fn shanten(hand: &str) -> i8 {
    let tiles = parse_hand(hand).unwrap();
    let counts = to_counts(&tiles);
    calculate_shanten(&counts).shanten
}

fn shanten_type(hand: &str) -> ShantenType {
    let tiles = parse_hand(hand).unwrap();
    let counts = to_counts(&tiles);
    calculate_shanten(&counts).best_type
}

/// Hand notation with called melds written in parentheses, e.g.
/// `23678p234567s(222z)`: the concealed tiles' counts and the number of
/// called melds.
fn counts_with_called(hand: &str) -> (TileCounts, u8) {
    let mut concealed = String::new();
    let mut called_melds = 0u8;
    let mut depth = 0;
    for ch in hand.chars() {
        match ch {
            '(' => {
                depth += 1;
                called_melds += 1;
            }
            ')' => depth -= 1,
            _ if depth == 0 => concealed.push(ch),
            _ => {}
        }
    }
    let parsed = parse_hand_with_aka(&concealed).unwrap();
    (to_counts(&parsed.tiles), called_melds)
}

// ===== Complete Hand Tests =====

#[test]
fn test_complete_standard_hand() {
    // 123m 456p 789s 111z 22z - complete hand
    assert_eq!(shanten("123m456p789s11122z"), -1);
}

#[test]
fn test_complete_chiitoitsu() {
    // Seven pairs - complete
    assert_eq!(shanten("1122m3344p5566s77z"), -1);
}

#[test]
fn test_complete_kokushi() {
    // Thirteen orphans with pair on 1m
    assert_eq!(shanten("19m19p19s12345677z"), -1);
}

// ===== Tenpai Tests (shanten = 0) =====

#[test]
fn test_tenpai_standard() {
    // 123m 456p 789s 111z 2z - waiting on 2z
    assert_eq!(shanten("123m456p789s1112z"), 0);
}

#[test]
fn test_tenpai_chiitoitsu() {
    // Six pairs + one single - waiting on pair
    assert_eq!(shanten("1122m3344p5566s7z"), 0);
}

#[test]
fn test_tenpai_kokushi() {
    // 12 different terminals + 1 pair, waiting on 13th
    assert_eq!(shanten("19m19p19s1234567z"), 0);
}

// ===== Iishanten Tests (shanten = 1) =====

#[test]
fn test_iishanten_standard() {
    // Almost complete, needs 2 tiles
    assert_eq!(shanten("123m456p789s112z"), 1);
}

#[test]
fn test_iishanten_chiitoitsu() {
    // Five pairs + two singles
    assert_eq!(shanten("1122m3344p5566s"), 1);
}

// ===== Various Shanten Tests =====

#[test]
fn test_high_shanten() {
    // Very disconnected hand
    assert!(shanten("1379m1379p1379s1z") >= 4);
}

#[test]
fn test_multi_shanten() {
    // 123m is one meld, but rest is very disconnected
    let s = shanten("123m147p258s12345z");
    assert!(
        (3..=7).contains(&s),
        "Expected shanten between 3 and 7, got {}",
        s
    );

    // A more connected hand should have lower shanten
    let s2 = shanten("123m456p789s11234z");
    assert!(
        s2 <= 3,
        "Expected shanten <= 3 for connected hand, got {}",
        s2
    );
}

// ===== Best Type Tests =====

#[test]
fn test_best_type_standard() {
    assert_eq!(shanten_type("123m456p789s1112z"), ShantenType::Standard);
}

#[test]
fn test_best_type_chiitoitsu() {
    assert_eq!(shanten_type("1122m3344p5566s7z"), ShantenType::Chiitoitsu);
}

#[test]
fn test_best_type_kokushi() {
    assert_eq!(shanten_type("19m19p19s1234567z"), ShantenType::Kokushi);
}

// ===== Ukeire Tests =====

#[test]
fn test_ukeire_tenpai() {
    let tiles = parse_hand("123m456p789s1112z").unwrap();
    let counts = to_counts(&tiles);
    let ukeire = calculate_ukeire(&counts);

    assert_eq!(ukeire.shanten, 0);
    assert!(!ukeire.tiles.is_empty());
}

#[test]
fn test_ukeire_iishanten() {
    let tiles = parse_hand("123m456p789s112z").unwrap();
    let counts = to_counts(&tiles);
    let ukeire = calculate_ukeire(&counts);

    assert_eq!(ukeire.shanten, 1);
    assert!(ukeire.total_count > 0);
}

#[test]
fn test_ukeire_complete_hand() {
    let tiles = parse_hand("123m456p789s11122z").unwrap();
    let counts = to_counts(&tiles);
    let ukeire = calculate_ukeire(&counts);

    assert_eq!(ukeire.shanten, -1);
    // No tiles improve a complete hand
    assert!(ukeire.tiles.is_empty());
}

// ===== Ukeire with Called Melds Tests =====

#[test]
fn test_ukeire_with_called_pon_tenpai() {
    // 23678p234567s with called pon of 2z - tenpai
    let (counts, called_melds) = counts_with_called("23678p234567s(222z)");

    let ukeire = calculate_ukeire_with_melds(&counts, called_melds);

    assert_eq!(ukeire.shanten, 0, "Hand should be tenpai");
    assert!(
        ukeire.tiles.len() <= 5,
        "Tenpai hand should have at most a few waits, got {}",
        ukeire.tiles.len()
    );
    assert!(
        ukeire.total_count <= 20,
        "Total accepting tiles should be reasonable, got {}",
        ukeire.total_count
    );
}

#[test]
fn test_ukeire_with_two_called_melds_iishanten() {
    // 234568m with called chi 789p and called pon of white dragons
    let (counts, called_melds) = counts_with_called("234568m(789p)(whwhwh)");

    let ukeire = calculate_ukeire_with_melds(&counts, called_melds);

    assert_eq!(ukeire.shanten, 1, "Hand should be iishanten");
    assert!(
        ukeire.tiles.len() <= 10,
        "Iishanten hand with 2 called melds should have limited waits, got {}",
        ukeire.tiles.len()
    );
    assert!(
        ukeire.total_count <= 40,
        "Total accepting tiles should be reasonable, got {}",
        ukeire.total_count
    );
}

#[test]
fn test_ukeire_without_melds_matches_original() {
    let tiles = parse_hand("123m456p789s1112z").unwrap();
    let counts = to_counts(&tiles);

    let ukeire_plain = calculate_ukeire(&counts);
    let ukeire_with_melds = calculate_ukeire_with_melds(&counts, 0);

    assert_eq!(ukeire_plain.shanten, ukeire_with_melds.shanten);
    assert_eq!(ukeire_plain.tiles.len(), ukeire_with_melds.tiles.len());
    assert_eq!(ukeire_plain.total_count, ukeire_with_melds.total_count);
}

#[test]
fn test_ukeire_called_melds_vs_no_melds_differ() {
    let (counts, called_melds) = counts_with_called("23678p234567s(222z)");

    let ukeire_correct = calculate_ukeire_with_melds(&counts, called_melds);
    let ukeire_wrong = calculate_ukeire_with_melds(&counts, 0);

    // With 0 called melds, 11 tiles can't form 4 melds + pair,
    // so shanten will be higher and many more tiles "improve" the hand
    assert!(
        ukeire_wrong.tiles.len() > ukeire_correct.tiles.len(),
        "Ignoring called melds should produce more (incorrect) accepting tiles: wrong={}, correct={}",
        ukeire_wrong.tiles.len(),
        ukeire_correct.tiles.len()
    );
}

// ===== Ukeire with Visible Tiles Tests =====

#[test]
fn test_ukeire_with_visible_reduces_count() {
    // Tenpai hand: 123m456p789s1112z — waiting on 2z
    let tiles = parse_hand("123m456p789s1112z").unwrap();
    let counts = to_counts(&tiles);

    let theoretical = calculate_ukeire(&counts);

    // Suppose 2 copies of 2z are visible on the table
    let mut visible = TileCounts::new();
    visible.insert(Tile::honor(Honor::South), 2);

    let practical = calculate_ukeire_with_visible(&counts, &visible);

    assert_eq!(theoretical.shanten, practical.shanten);

    let theo_2z = theoretical
        .tiles
        .iter()
        .find(|t| t.tile == Tile::honor(Honor::South));
    let prac_2z = practical
        .tiles
        .iter()
        .find(|t| t.tile == Tile::honor(Honor::South));

    assert!(theo_2z.is_some(), "2z should be a theoretical wait");
    assert!(prac_2z.is_some(), "2z should still be a practical wait");

    // Theoretical: 4 - 1 (in hand) = 3 available
    assert_eq!(theo_2z.unwrap().available, 3);
    // Practical: 4 - 1 (hand) - 2 (visible) = 1 available
    assert_eq!(prac_2z.unwrap().available, 1);

    assert!(
        practical.total_count < theoretical.total_count,
        "Practical total ({}) should be less than theoretical ({})",
        practical.total_count,
        theoretical.total_count
    );
}

#[test]
fn test_ukeire_with_visible_shows_zero_available_when_all_copies_seen() {
    let tiles = parse_hand("123m456p789s1112z").unwrap();
    let counts = to_counts(&tiles);

    // All remaining 3 copies of 2z are visible
    let mut visible = TileCounts::new();
    visible.insert(Tile::honor(Honor::South), 3);

    let practical = calculate_ukeire_with_visible(&counts, &visible);

    let prac_2z = practical
        .tiles
        .iter()
        .find(|t| t.tile == Tile::honor(Honor::South));
    assert!(
        prac_2z.is_some(),
        "2z should still appear as a wait even with 0 available"
    );
    assert_eq!(prac_2z.unwrap().available, 0);
}

#[test]
fn test_ukeire_with_visible_no_visible_matches_theoretical() {
    let tiles = parse_hand("123m456p789s1112z").unwrap();
    let counts = to_counts(&tiles);

    let theoretical = calculate_ukeire(&counts);
    let practical = calculate_ukeire_with_visible(&counts, &TileCounts::new());

    assert_eq!(theoretical.shanten, practical.shanten);
    assert_eq!(theoretical.tiles.len(), practical.tiles.len());
    assert_eq!(theoretical.total_count, practical.total_count);
}

#[test]
fn test_ukeire_with_melds_and_visible() {
    let (counts, called_melds) = counts_with_called("23678p234567s(222z)");

    let theoretical = calculate_ukeire_with_melds(&counts, called_melds);

    // Imagine 1p has 2 copies in discard ponds
    let mut visible = TileCounts::new();
    visible.insert(Tile::suited(Suit::Pin, 1), 2);

    let practical = calculate_ukeire_with_melds_and_visible(&counts, called_melds, &visible);

    assert_eq!(theoretical.shanten, practical.shanten);
    assert!(
        practical.total_count <= theoretical.total_count,
        "Practical total ({}) should be <= theoretical ({})",
        practical.total_count,
        theoretical.total_count
    );
}

// ===== Index Conversion Tests =====

#[test]
fn test_tile_index_roundtrip() {
    for idx in 0..34 {
        let tile = index_to_tile(idx);
        let back = tile_to_index(tile);
        assert_eq!(
            idx, back,
            "Tile {:?} at index {} converted back to {}",
            tile, idx, back
        );
    }
}

#[test]
fn test_specific_tile_indices() {
    assert_eq!(tile_to_index(Tile::suited(Suit::Man, 1)), 0);
    assert_eq!(tile_to_index(Tile::suited(Suit::Man, 9)), 8);
    assert_eq!(tile_to_index(Tile::suited(Suit::Pin, 1)), 9);
    assert_eq!(tile_to_index(Tile::suited(Suit::Sou, 1)), 18);
    assert_eq!(tile_to_index(Tile::honor(Honor::East)), 27);
    assert_eq!(tile_to_index(Tile::honor(Honor::Red)), 33);
}

// ===== Regression Tests =====

#[test]
fn test_sequences_first_then_triplet_extraction() {
    // Optimal decomposition: 234m + 345m + 345m + 666m = 4 melds, waiting for 1p pair
    assert_eq!(
        shanten("233344455666m1p"),
        0,
        "Hand 233344455666m1p should be tenpai (shanten=0), not iishanten"
    );
}

#[test]
fn test_extract_melds_sequences_first_with_remaining_triplet() {
    // Input: 2(x1), 3(x3), 4(x3), 5(x2), 6(x3) in manzu
    let mut tiles = [0u8; 34];
    tiles[1] = 1; // 2m
    tiles[2] = 3; // 3m
    tiles[3] = 3; // 4m
    tiles[4] = 2; // 5m
    tiles[5] = 3; // 6m

    let (melds, remaining) = extract_melds_sequences_first(&tiles, 0);

    assert_eq!(
        melds, 4,
        "Should extract 4 melds (3 sequences + 1 triplet), got {}",
        melds
    );
    assert_eq!(
        remaining[5], 0,
        "All 6m tiles should be extracted as triplet, but {} remain",
        remaining[5]
    );
}

// ===== Chi Combination Tests =====

/// Helper: build a TileCounts from a 34-element array.
fn counts_from_arr(arr: [u8; 34]) -> TileCounts {
    array_to_tilecounts(&arr)
}

#[test]
fn test_chi_no_combos() {
    let mut arr = [0u8; 34];
    arr[5] = 1; // 6m
    let combos = valid_chi_combinations(&counts_from_arr(arr), index_to_tile(0));
    assert!(combos.is_empty());
}

#[test]
fn test_chi_low_end() {
    // 2m+3m in hand, discard 1m → combo (2m, 3m)
    let mut arr = [0u8; 34];
    arr[1] = 1; // 2m
    arr[2] = 1; // 3m
    let combos = valid_chi_combinations(&counts_from_arr(arr), index_to_tile(0));
    assert_eq!(combos, vec![(index_to_tile(1), index_to_tile(2))]);
}

#[test]
fn test_chi_high_end() {
    // 7m+8m in hand, discard 9m → combo (7m, 8m)
    let mut arr = [0u8; 34];
    arr[6] = 1; // 7m
    arr[7] = 1; // 8m
    let combos = valid_chi_combinations(&counts_from_arr(arr), index_to_tile(8));
    assert_eq!(combos, vec![(index_to_tile(6), index_to_tile(7))]);
}

#[test]
fn test_chi_two_combos() {
    // 1m,2m,4m in hand, discard 3m → (1m,2m) and (2m,4m)
    let mut arr = [0u8; 34];
    arr[0] = 1; // 1m
    arr[1] = 1; // 2m
    arr[3] = 1; // 4m
    let combos = valid_chi_combinations(&counts_from_arr(arr), index_to_tile(2));
    assert_eq!(
        combos,
        vec![
            (index_to_tile(0), index_to_tile(1)),
            (index_to_tile(1), index_to_tile(3)),
        ]
    );
}

#[test]
fn test_chi_three_combos() {
    // 3m,4m,6m,7m in hand, discard 5m → (3m,4m), (4m,6m), (6m,7m)
    let mut arr = [0u8; 34];
    arr[2] = 1; // 3m
    arr[3] = 1; // 4m
    arr[5] = 1; // 6m
    arr[6] = 1; // 7m
    let combos = valid_chi_combinations(&counts_from_arr(arr), index_to_tile(4));
    assert_eq!(
        combos,
        vec![
            (index_to_tile(2), index_to_tile(3)),
            (index_to_tile(3), index_to_tile(5)),
            (index_to_tile(5), index_to_tile(6)),
        ]
    );
}

#[test]
fn test_chi_honor_tile() {
    let mut arr = [0u8; 34];
    arr[27] = 3; // East x3
    let combos = valid_chi_combinations(&counts_from_arr(arr), index_to_tile(27));
    assert!(combos.is_empty());
}

// ===== Shanten After Chi Tests =====

#[test]
fn test_shanten_after_chi_good() {
    // Tenpai: 123m 456m 789m 1p 123s (13 tiles, shanten 0)
    let mut arr = [0u8; 34];
    arr[..9].fill(1); // 1-9m
    arr[9] = 1; // 1p
    arr[18] = 1; // 1s
    arr[19] = 1; // 2s
    arr[20] = 1; // 3s
    let hand = counts_from_arr(arr);

    let before = calculate_shanten(&hand).shanten;
    assert_eq!(before, 0);

    // Chi 1s from opponent using (2s, 3s)
    let after = shanten_after_chi(&hand, (index_to_tile(19), index_to_tile(20)), 0);
    assert!(after <= before, "Expected shanten <= {before} after good chi, got {after}");
}

#[test]
fn test_shanten_after_chi_bad() {
    // Scattered hand: all odd tiles
    let mut arr = [0u8; 34];
    for &i in &[0, 2, 4, 6, 8, 10, 12, 14, 16, 18, 20, 22, 24] {
        arr[i] = 1;
    }
    let hand = counts_from_arr(arr);

    let before = calculate_shanten(&hand).shanten;
    // Chi 2m(1) with combo (1m, 3m) = (0, 2)
    let after = shanten_after_chi(&hand, (index_to_tile(0), index_to_tile(2)), 0);
    assert!(
        after >= before - 1,
        "Unexpectedly good shanten after bad chi: {before} -> {after}"
    );
}

// ===== Shanten After Kan Tests =====

#[test]
fn test_shanten_after_kan_open() {
    // 123m 456m 789m EEE 1p (13 tiles, shanten 0)
    let mut arr = [0u8; 34];
    arr[..9].fill(1); // 1-9m
    arr[27] = 3; // East x3
    arr[9] = 1; // 1p
    let hand = counts_from_arr(arr);

    let before = calculate_shanten(&hand).shanten;
    assert_eq!(before, 0);

    // Open kan on East: remove 3, melds 0→1
    let after = shanten_after_kan(&hand, index_to_tile(27), KanType::Open, 0);
    assert_eq!(after, 0, "Expected 0 after open kan, got {after}");
}

#[test]
fn test_shanten_after_kan_closed() {
    // 123m 456m EEEE 1p (11 tiles, 0 melds)
    let mut arr = [0u8; 34];
    arr[..6].fill(1); // 1-6m
    arr[27] = 4; // East x4
    arr[9] = 1; // 1p
    let hand = counts_from_arr(arr);

    // Closed kan on East: remove 4, melds 0→1
    let after = shanten_after_kan(&hand, index_to_tile(27), KanType::Closed, 0);
    assert!(after >= 0, "Shanten should be non-negative after closed kan: {after}");
}

#[test]
fn test_shanten_after_kan_added() {
    // 123m 456m 789m E (10 tiles, 1 meld already — pon of East)
    let mut arr = [0u8; 34];
    arr[..9].fill(1); // 1-9m
    arr[27] = 1; // East (the 4th, adding to existing pon)
    let hand = counts_from_arr(arr);

    let before = calculate_shanten_with_melds(&hand, 1).shanten;
    // Added kan: remove 1 East, melds stay at 1
    let after = shanten_after_kan(&hand, index_to_tile(27), KanType::Added, 1);
    assert!((-1..=2).contains(&after),
        "Unexpected shanten after added kan: {before} -> {after}");
}
