use agari::blocks::count_melds_and_taatsu;
use agari::furiten::is_permanent_furiten;
use agari::parse::{parse_hand, parse_hand_with_aka, to_counts, validate_hand, TileCounts};
use agari::shanten::{
    array_to_tilecounts, calculate_chiitoitsu_shanten, calculate_kokushi_shanten,
    calculate_shanten, calculate_shanten_with_melds, calculate_standard_shanten,
    calculate_ukeire, calculate_ukeire_with_melds_and_visible, calculate_ukeire_with_visible,
    counts_to_array, extract_melds_triplets_first, shanten_after_chi, shanten_after_kan,
    valid_chi_combinations, ShantenType,
};
use agari::tile::{index_to_tile, tile_to_index, Honor, KanType, Suit, Tile};

fn counts(hand: &str) -> TileCounts {
    to_counts(&parse_hand(hand).unwrap())
}

// ===== Tiles and counts =====

#[test]
fn index_past_the_end_is_red_dragon() {
    assert_eq!(index_to_tile(34), Tile::honor(Honor::Red));
    assert_eq!(index_to_tile(33), Tile::honor(Honor::Red));
    assert_eq!(index_to_tile(13), Tile::suited(Suit::Pin, 5));
}

#[test]
fn every_tile_maps_back_to_itself() {
    for suit in [Suit::Man, Suit::Pin, Suit::Sou] {
        for value in 1..=9 {
            let t = Tile::suited(suit, value);
            assert_eq!(index_to_tile(tile_to_index(t)), t);
        }
    }
    let honors = [
        Honor::East,
        Honor::South,
        Honor::West,
        Honor::North,
        Honor::White,
        Honor::Green,
        Honor::Red,
    ];
    for h in honors {
        assert_eq!(index_to_tile(tile_to_index(Tile::honor(h))), Tile::honor(h));
    }
}

#[test]
fn array_and_counts_roundtrip() {
    let mut arr = [0u8; 34];
    arr[3] = 2;
    arr[30] = 4;
    let c = array_to_tilecounts(&arr);
    assert_eq!(counts_to_array(&c), arr);
    assert_eq!(c.get(index_to_tile(3)), 2);
    assert_eq!(c.get(index_to_tile(4)), 0);
}

#[test]
fn to_counts_counts_every_tile() {
    let tiles = parse_hand("1112345678999m5p").unwrap();
    let c = to_counts(&tiles);
    assert_eq!(c.get(Tile::suited(Suit::Man, 1)), 3);
    assert_eq!(c.get(Tile::suited(Suit::Man, 9)), 3);
    assert_eq!(c.get(Tile::suited(Suit::Pin, 5)), 1);
    assert_eq!(c.counts.iter().map(|&n| n as usize).sum::<usize>(), tiles.len());
}

#[test]
fn insert_replaces_a_count() {
    let mut c = TileCounts::new();
    c.insert(Tile::honor(Honor::Green), 3);
    c.insert(Tile::honor(Honor::Green), 1);
    assert_eq!(c.get(Tile::honor(Honor::Green)), 1);
    assert_eq!(c.counts[32], 1);
}

// ===== Parsing =====

#[test]
fn parse_counts_digits_and_zeros() {
    let r = parse_hand_with_aka(" 1 0 5m\t0p 77z\n").unwrap();
    assert_eq!(r.tiles.len(), 6);
    assert_eq!(r.aka_count, 2);
    assert_eq!(r.tiles[5], Tile::honor(Honor::Red));
}

#[test]
fn parse_hand_matches_parse_with_aka() {
    let a = parse_hand("406p11z").unwrap();
    let b = parse_hand_with_aka("406p11z").unwrap();
    assert_eq!(a, b.tiles);
}

#[test]
fn parse_error_messages() {
    assert_eq!(parse_hand("12x").unwrap_err(), "Unexpected character: x");
    assert_eq!(parse_hand("18z").unwrap_err(), "Invalid honor number: 8");
    assert_eq!(parse_hand("123m45").unwrap_err(), "Trailing numbers without suit suffix");
    assert_eq!(
        parse_hand("10z").unwrap_err(),
        "Red fives (0) cannot be used with honors (z)"
    );
    // The first error in the input is the one reported
    assert_eq!(parse_hand("9z!").unwrap_err(), "Invalid honor number: 9");
}

#[test]
fn validate_error_messages() {
    let short = parse_hand("123m").unwrap();
    assert_eq!(validate_hand(&short).unwrap_err(), "Hand must have 14 tiles, got 3");
    let five = parse_hand("11111m456p789s111z").unwrap();
    assert_eq!(
        validate_hand(&five).unwrap_err(),
        "Tile Suited { suit: Man, value: 1 } appears 5 times (max 4)"
    );
    assert_eq!(
        validate_hand(&five).unwrap_err(),
        format!("Tile {:?} appears 5 times (max 4)", Tile::suited(Suit::Man, 1))
    );
    let honors = parse_hand("123m456p789s55555z").unwrap();
    assert_eq!(
        validate_hand(&honors).unwrap_err(),
        format!("Tile {:?} appears 5 times (max 4)", Tile::honor(Honor::White))
    );
    assert_eq!(
        validate_hand(&honors).unwrap_err(),
        "Tile Honor(White) appears 5 times (max 4)"
    );
}

// ===== Shanten =====

#[test]
fn shanten_stays_in_range() {
    for hand in ["1379m1379p1379s1z", "19m19p19s1234567z", "5m", "1234567z", "11223344556677z"] {
        let s = calculate_shanten(&counts(hand)).shanten;
        assert!((-1..=8).contains(&s), "{hand}: {s}");
    }
}

#[test]
fn best_shanten_is_least_of_three_shapes() {
    for hand in ["1122m3344p5566s7z", "19m19p19s1234567z", "123m456p789s1112z", "147m258p369s1234z"] {
        let c = counts(hand);
        let r = calculate_shanten(&c);
        let standard = calculate_standard_shanten(&c);
        let chiitoi = calculate_chiitoitsu_shanten(&c);
        let kokushi = calculate_kokushi_shanten(&c);
        assert_eq!(r.shanten, standard.min(chiitoi).min(kokushi));
        let shape_value = match r.best_type {
            ShantenType::Standard => standard,
            ShantenType::Chiitoitsu => chiitoi,
            ShantenType::Kokushi => kokushi,
        };
        assert_eq!(shape_value, r.shanten);
    }
}

#[test]
fn called_melds_use_standard_shape_only() {
    let c = counts("1122m3344p5566s7z");
    let r = calculate_shanten_with_melds(&c, 1);
    assert_eq!(r.best_type, ShantenType::Standard);
    assert_eq!(r.shanten, calculate_shanten_with_melds(&c, 1).shanten);
}

#[test]
fn seven_pairs_and_orphans_formulas() {
    // 6 pairs, 6 kinds: 6 - 6 + (7 - 6)
    assert_eq!(calculate_chiitoitsu_shanten(&counts("1122m3344p5566s")), 1);
    // 4 of a kind counts as one pair of one kind: 6 - 1 + (7 - 1)
    assert_eq!(calculate_chiitoitsu_shanten(&counts("1111m")), 11);
    // 9 orphan kinds, one pair: 13 - 9 - 1
    assert_eq!(calculate_kokushi_shanten(&counts("119m19p19s123z")), 3);
    assert_eq!(calculate_kokushi_shanten(&TileCounts::new()), 13);
}

#[test]
fn short_hands_are_held_back_by_their_size() {
    // One tile with four called melds waits on its pair
    assert_eq!(calculate_shanten_with_melds(&counts("5m"), 4).shanten, 0);
    // Seven tiles and no call: far from tenpai
    assert!(calculate_standard_shanten(&counts("123m456p")) >= 2);
}

#[test]
fn triplets_first_extraction() {
    let mut tiles = [0u8; 34];
    tiles[9] = 3; // 1p
    tiles[10] = 1; // 2p
    tiles[11] = 1; // 3p
    let (melds, remaining) = extract_melds_triplets_first(&tiles, 9);
    assert_eq!(melds, 1);
    assert_eq!(remaining[9], 0);
    assert_eq!(remaining[10], 1);
    assert_eq!(remaining[11], 1);
}

// ===== Ukeire =====

#[test]
fn ukeire_lists_exactly_the_improving_tiles() {
    let c = counts("123m456p789s1112z");
    let current = calculate_shanten(&c).shanten;
    let u = calculate_ukeire(&c);
    let mut listed = Vec::new();
    for t in &u.tiles {
        listed.push(tile_to_index(t.tile));
    }
    for idx in 0..34 {
        let mut arr = counts_to_array(&c);
        let improves = arr[idx] < 4 && {
            arr[idx] += 1;
            calculate_shanten(&array_to_tilecounts(&arr)).shanten < current
        };
        assert_eq!(improves, listed.contains(&idx), "tile index {idx}");
    }
    // Listed in index order
    assert!(listed.windows(2).all(|w| w[0] < w[1]));
    let sum: u32 = u.tiles.iter().map(|t| t.available as u32).sum();
    assert_eq!(sum, u.total_count as u32);
}

#[test]
fn ukeire_visible_only_lowers_availability() {
    let c = counts("23m456p789s11223z");
    let mut visible = TileCounts::new();
    visible.insert(Tile::suited(Suit::Man, 1), 4);
    visible.insert(Tile::suited(Suit::Man, 4), 1);
    visible.insert(Tile::honor(Honor::South), 2);
    let theoretical = calculate_ukeire(&c);
    let practical = calculate_ukeire_with_visible(&c, &visible);
    assert_eq!(theoretical.tiles.len(), practical.tiles.len());
    for (a, b) in theoretical.tiles.iter().zip(practical.tiles.iter()) {
        assert_eq!(a.tile, b.tile);
        assert!(b.available <= a.available);
    }
    assert!(practical.total_count < theoretical.total_count);
}

#[test]
fn ukeire_available_counts_hand_and_visible() {
    // Waiting on 1m-4m: two copies of 4m in hand would be 5 with a draw
    let c = counts("23m456p789s11222z");
    let mut visible = TileCounts::new();
    visible.insert(Tile::suited(Suit::Man, 4), 1);
    let u = calculate_ukeire_with_melds_and_visible(&c, 0, &visible);
    let one = u.tiles.iter().find(|t| t.tile == Tile::suited(Suit::Man, 1)).unwrap();
    let four = u.tiles.iter().find(|t| t.tile == Tile::suited(Suit::Man, 4)).unwrap();
    assert_eq!(one.available, 4);
    assert_eq!(four.available, 3);
}

#[test]
fn complete_hands_accept_nothing() {
    for hand in ["123m456p789s11122z", "1122m3344p5566s77z", "19m19p19s12345677z"] {
        let u = calculate_ukeire(&counts(hand));
        assert_eq!(u.shanten, -1);
        assert!(u.tiles.is_empty());
        assert_eq!(u.total_count, 0);
    }
}

// ===== Calls =====

#[test]
fn chi_pairs_make_runs_with_the_discard() {
    let c = counts("123456789m123p");
    for d in 0..27usize {
        for (a, b) in valid_chi_combinations(&c, index_to_tile(d)) {
            let (x, y) = (tile_to_index(a), tile_to_index(b));
            assert!(x < y);
            assert_eq!(x / 9, d / 9);
            assert_eq!(y / 9, d / 9);
            let mut run = [x, y, d];
            run.sort();
            assert_eq!(run[1], run[0] + 1);
            assert_eq!(run[2], run[0] + 2);
        }
    }
    assert!(valid_chi_combinations(&c, Tile::honor(Honor::West)).is_empty());
}

#[test]
fn chi_with_nothing_left_to_discard() {
    let c = counts("23m");
    assert_eq!(shanten_after_chi(&c, (index_to_tile(1), index_to_tile(2)), 0), i8::MAX);
}

#[test]
fn kan_removes_tiles_and_counts_melds() {
    let mut arr = [0u8; 34];
    arr[..9].fill(1);
    arr[27] = 4;
    let hand = array_to_tilecounts(&arr);
    // Closed kan: 123m 456m 789m left with one called meld; nine tiles are
    // one short of the ten a tenpai hand needs with one meld called
    let mut after = arr;
    after[27] = 0;
    let expected = calculate_shanten_with_melds(&array_to_tilecounts(&after), 1).shanten;
    assert_eq!(shanten_after_kan(&hand, index_to_tile(27), KanType::Closed, 0), expected);
    assert_eq!(expected, 1);
}

// ===== Furiten =====

#[test]
fn furiten_when_a_wait_was_discarded() {
    let mut arr = [0u8; 34];
    for &i in &[0usize, 1, 2, 12, 13, 14, 24, 25, 26] {
        arr[i] = 1;
    }
    arr[27] = 3; // East
    arr[28] = 1; // South: waiting on South
    assert!(is_permanent_furiten(&arr, &[28], 0));
    assert!(!is_permanent_furiten(&arr, &[5, 27], 0));
    // Not tenpai: never furiten
    arr[27] = 0;
    arr[28] = 0;
    arr[30] = 1;
    arr[31] = 1;
    assert!(!is_permanent_furiten(&arr, &[28, 30, 31], 0));
}

#[test]
fn complete_hands_score_minus_one() {
    // 333m 456m 567m 567m 99m: complete, though a greedy split finds only
    // three melds
    assert_eq!(calculate_standard_shanten(&counts("33345556667799m")), -1);
    assert_eq!(calculate_shanten(&counts("33345556667799m")).shanten, -1);
    // With called melds: 123m 456p 11z and two melds called
    assert_eq!(calculate_shanten_with_melds(&counts("123m456p11z"), 2).shanten, -1);
    // Four melds called: a lone pair
    assert_eq!(calculate_shanten_with_melds(&counts("55s"), 4).shanten, -1);
    // Not complete: 14 tiles, no winning shape
    assert!(calculate_shanten(&counts("33345556667789m")).shanten >= 0);
}

#[test]
fn standard_shanten_takes_the_best_arrangement() {
    // 35m 68m 12p 24p 13s: five taatsu, four of them useful
    assert_eq!(calculate_standard_shanten(&counts("3568m1248p13s236z")), 4);
    assert_eq!(calculate_shanten(&counts("3568m1248p13s236z")).shanten, 4);
    // 345m 66m 24p 45p 89p: a meld, a pair and three taatsu
    assert_eq!(calculate_standard_shanten(&counts("34566m244589p15s")), 2);
    // 123m 456m 789m 1234p: tenpai on 1p or 4p
    assert_eq!(calculate_standard_shanten(&counts("123456789m1234p")), 0);
}

#[test]
fn greedy_block_count() {
    // 123m 456m, then 13p, 57p and 11z as taatsu
    let a = counts_to_array(&counts("123456m1357p11z"));
    assert_eq!(count_melds_and_taatsu(&a), (2, 3));
    // The greedy count finds three melds in 333m 456m 567m 567m 99m
    let b = counts_to_array(&counts("33345556667799m"));
    assert_eq!(count_melds_and_taatsu(&b), (3, 2));
}
