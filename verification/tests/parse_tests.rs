use agari::parse::{parse_hand, parse_hand_with_aka, validate_hand};
use agari::tile::{Honor, Suit, Tile};

#[test]
fn parse_simple_hand() {
    let tiles = parse_hand("123m456p789s11z").unwrap();
    assert_eq!(tiles.len(), 11);
    assert_eq!(tiles[0], Tile::suited(Suit::Man, 1));
    assert_eq!(tiles[9], Tile::honor(Honor::East));
}

#[test]
fn parse_full_hand() {
    let tiles = parse_hand("123m456p789s11222z").unwrap();
    assert_eq!(tiles.len(), 14);
}

#[test]
fn parse_invalid_honor() {
    let result = parse_hand("89z");
    assert!(result.is_err());
}

#[test]
fn parse_trailing_numbers() {
    let result = parse_hand("123");
    assert!(result.is_err());
}

#[test]
fn validate_correct_hand() {
    let tiles = parse_hand("123m456p789s11222z").unwrap();
    assert!(validate_hand(&tiles).is_ok());
}

#[test]
fn validate_wrong_count() {
    let tiles = parse_hand("123m456p789s11z").unwrap();
    assert!(validate_hand(&tiles).is_err());
}

#[test]
fn validate_too_many_copies() {
    let tiles = parse_hand("11111m456p789s11z").unwrap();
    assert!(validate_hand(&tiles).is_err());
}

// ===== Red Five (Akadora) Tests =====

#[test]
fn parse_red_five_manzu() {
    let result = parse_hand_with_aka("0m").unwrap();
    assert_eq!(result.tiles.len(), 1);
    assert_eq!(result.tiles[0], Tile::suited(Suit::Man, 5));
    assert_eq!(result.aka_count, 1);
}

#[test]
fn parse_red_five_all_suits() {
    let result = parse_hand_with_aka("0m0p0s").unwrap();
    assert_eq!(result.tiles.len(), 3);
    assert_eq!(result.tiles[0], Tile::suited(Suit::Man, 5));
    assert_eq!(result.tiles[1], Tile::suited(Suit::Pin, 5));
    assert_eq!(result.tiles[2], Tile::suited(Suit::Sou, 5));
    assert_eq!(result.aka_count, 3);
}

#[test]
fn parse_mixed_red_and_regular_fives() {
    // Hand with both red 5m and regular 5m
    let result = parse_hand_with_aka("50m").unwrap();
    assert_eq!(result.tiles.len(), 2);
    assert_eq!(result.tiles[0], Tile::suited(Suit::Man, 5));
    assert_eq!(result.tiles[1], Tile::suited(Suit::Man, 5));
    assert_eq!(result.aka_count, 1); // Only one is red
}

#[test]
fn parse_hand_with_red_five() {
    // Full hand with a red 5p
    let result = parse_hand_with_aka("123m406p789s11122z").unwrap();
    assert_eq!(result.tiles.len(), 14);
    assert_eq!(result.aka_count, 1);
    // The 0 should have been parsed as 5p
    assert_eq!(result.tiles[4], Tile::suited(Suit::Pin, 5));
}

#[test]
fn parse_red_zero_with_honor_fails() {
    let result = parse_hand_with_aka("0z");
    assert!(result.is_err());
}
