//! Shanten calculator for Riichi Mahjong
//!
//! Shanten is the minimum number of tile exchanges needed to reach tenpai
//! (ready hand). The standard shape is scored by the best arrangement of the
//! hand into melds, taatsu and a pair (see `arrange`); a hand is scored -1
//! exactly when it has a winning shape (see `complete`).
//! - Shanten = -1: Complete (winning) hand
//! - Shanten = 0: Tenpai (one tile away from winning)
//! - Shanten = 1: Iishanten (two tiles away)
//! - etc.

use vstd::prelude::*;

use crate::arrange::{
    acc_score, arrangement_score, arranges, heads_in, least_arrangement_score, least_score_from,
    lemma_least_below, lemma_least_from, lemma_least_range, lemma_least_reached, lemma_parts_cover, lemma_shanten_value_clamp, melds_in,
    scores_within, starts_from, taatsu_in, Part,
};
use crate::blocks::{lemma_total_prefix, lemma_total_update, total};
pub use crate::blocks::extract_melds_sequences_first;
pub use crate::blocks::extract_melds_triplets_first;
use crate::complete::{lemma_minus_one_iff_winning, winning_shape};
use crate::parse::TileCounts;
use crate::tile::{index_to_tile, tile_at, tile_to_index, KanType, Tile};

verus! {

/// Type of hand structure for shanten calculation
#[derive(Debug, Clone, Copy, PartialEq, Eq, Structural)]
pub enum ShantenType {
    /// Standard 4 melds + 1 pair
    Standard,
    /// Seven pairs (chiitoitsu)
    Chiitoitsu,
    /// Thirteen orphans (kokushi)
    Kokushi,
}

/// Result of shanten calculation
#[derive(Debug, Clone, Copy, PartialEq, Eq, Structural)]
pub struct ShantenResult {
    /// The shanten value (-1 = complete, 0 = tenpai, 1+ = tiles needed)
    pub shanten: i8,
    /// The type of hand structure that gives the best shanten
    pub best_type: ShantenType,
}

// ---------------------------------------------------------------------------
// Standard hands (4 melds + 1 pair)
// ---------------------------------------------------------------------------

pub open spec fn min_int(a: int, b: int) -> int {
    if a <= b {
        a
    } else {
        b
    }
}

pub open spec fn max_int(a: int, b: int) -> int {
    if a >= b {
        a
    } else {
        b
    }
}

/// Shanten from a count of melds and taatsu, with `called` melds already
/// called and `deficit` tiles short of the least a tenpai hand can hold.
///
/// 8, less 2 per meld (at most four count), less 1 per taatsu that still
/// has a meld slot to fill, less 1 for a pair; never below the deficit, so
/// a hand short of tiles is never reported ready or complete.
pub open spec fn shanten_value(melds: int, taatsu: int, has_pair: bool, called: int, deficit: int) -> int {
    let total_melds = melds + called;
    if total_melds >= 4 && has_pair && deficit == 0 {
        -1
    } else {
        let capped = min_int(total_melds, 4);
        let useful = min_int(taatsu, max_int(4 - total_melds, 0));
        let base = 8 - 2 * capped - useful - (if has_pair { 1int } else { 0int });
        let blocks = capped + useful;
        let s = if blocks > 4 { base + (blocks - 4) } else { base };
        max_int(s, deficit)
    }
}

/// Fewest hand tiles a tenpai hand can hold with `called` melds called.
pub open spec fn min_tenpai_tiles(called: int) -> int {
    if called >= 4 {
        1
    } else {
        max_int(13 - 3 * called, 0)
    }
}

/// How many tiles the hand is short of the fewest a tenpai hand can hold.
pub open spec fn hand_deficit(t: Seq<u8>, called: int) -> int {
    max_int(min_tenpai_tiles(called) - total(t), 0)
}

/// Standard-hand shanten: the least score of any arrangement of the hand
/// into melds, taatsu, a pair and single tiles (see `arrange`), and never
/// more than 8.
pub open spec fn standard_shanten(t: Seq<u8>, called: int) -> int {
    least_score_from(t, called, -1)
}

// ---------------------------------------------------------------------------
// Seven pairs and thirteen orphans
// ---------------------------------------------------------------------------

/// Number of slots below `n` holding at least `k` tiles.
pub open spec fn kinds_with_at_least(t: Seq<u8>, k: int, n: int) -> int
    decreases n,
{
    if n <= 0 {
        0
    } else {
        kinds_with_at_least(t, k, n - 1) + (if t[n - 1] >= k { 1int } else { 0int })
    }
}

/// Seven-pairs shanten: 6 less the kinds held in pairs, plus the kinds
/// still missing to reach seven different kinds.
pub open spec fn chiitoitsu_shanten(t: Seq<u8>) -> int {
    6 - kinds_with_at_least(t, 2, 34) + max_int(7 - kinds_with_at_least(t, 1, 34), 0)
}

/// Terminals (1 and 9 of each suit) and honors: the thirteen orphan kinds.
pub open spec fn is_orphan(i: int) -> bool {
    i == 0 || i == 8 || i == 9 || i == 17 || i == 18 || i == 26 || (27 <= i < 34)
}

/// Number of orphan kinds below `n` held at least `k` times.
pub open spec fn orphans_with_at_least(t: Seq<u8>, k: int, n: int) -> int
    decreases n,
{
    if n <= 0 {
        0
    } else {
        orphans_with_at_least(t, k, n - 1) + (if is_orphan(n - 1) && t[n - 1] >= k {
            1int
        } else {
            0int
        })
    }
}

/// Thirteen-orphans shanten: 13 less the orphan kinds held, less 1 if one
/// of them is held at least twice.
pub open spec fn kokushi_shanten(t: Seq<u8>) -> int {
    13 - orphans_with_at_least(t, 1, 34) - (if orphans_with_at_least(t, 2, 34) > 0 {
        1int
    } else {
        0int
    })
}

/// Best shanten and the hand shape that gives it: with called melds only the
/// standard shape counts; otherwise the lowest of the three, ties going to
/// standard, then seven pairs.
pub open spec fn best_shanten(t: Seq<u8>, called: int) -> (int, ShantenType) {
    let s = standard_shanten(t, called);
    if called > 0 {
        (s, ShantenType::Standard)
    } else {
        let c = chiitoitsu_shanten(t);
        let k = kokushi_shanten(t);
        if s <= c && s <= k {
            (s, ShantenType::Standard)
        } else if c <= k {
            (c, ShantenType::Chiitoitsu)
        } else {
            (k, ShantenType::Kokushi)
        }
    }
}


/// The shanten calculation stays within byte arithmetic: the hand's tiles
/// add up to at most 255.
pub open spec fn shanten_defined(t: Seq<u8>, called: int) -> bool {
    total(t) <= 255 && 0 <= called
}

// ---------------------------------------------------------------------------
// Range of shanten values
// ---------------------------------------------------------------------------

pub proof fn lemma_shanten_value_range(melds: int, taatsu: int, has_pair: bool, called: int, deficit: int)
    requires
        melds >= 0,
        taatsu >= 0,
        called >= 0,
        deficit >= 0,
    ensures
        shanten_value(melds, taatsu, has_pair, called, deficit) >= -1,
{
}

/// More melds, more taatsu, a pair or more called melds never raise the
/// shanten value for the same deficit.
pub proof fn lemma_shanten_value_monotone(
    m1: int,
    t1: int,
    p1: bool,
    k1: int,
    m2: int,
    t2: int,
    p2: bool,
    k2: int,
    deficit: int,
)
    requires
        0 <= m1 <= m2,
        0 <= t1 <= t2,
        p1 ==> p2,
        0 <= k1 <= k2,
        deficit >= 0,
    ensures
        shanten_value(m2, t2, p2, k2, deficit) <= shanten_value(m1, t1, p1, k1, deficit),
{
}

/// A hand short of tiles is never scored below its deficit.
pub proof fn lemma_shanten_value_deficit(melds: int, taatsu: int, has_pair: bool, called: int, deficit: int)
    requires
        melds >= 0,
        taatsu >= 0,
        called >= 0,
        deficit > 0,
    ensures
        shanten_value(melds, taatsu, has_pair, called, deficit) >= deficit,
{
}

/// Standard-hand shanten lies between -1 (complete) and 8.
pub proof fn lemma_standard_shanten_range(t: Seq<u8>, called: int)
    requires
        called >= 0,
    ensures
        -1 <= standard_shanten(t, called) <= 8,
{
    lemma_least_range(t, called, -1);
}

pub proof fn lemma_pairs_bound(t: Seq<u8>, n: int)
    requires
        0 <= n <= t.len(),
    ensures
        2 * kinds_with_at_least(t, 2, n) <= total(t.take(n)),
        0 <= kinds_with_at_least(t, 2, n) <= n,
        0 <= kinds_with_at_least(t, 1, n) <= n,
    decreases n,
{
    if n > 0 {
        lemma_pairs_bound(t, n - 1);
        lemma_total_prefix(t, n - 1);
    } else {
        assert(t.take(0) =~= Seq::<u8>::empty());
    }
}

/// Number of orphan slots below `n`.
pub open spec fn orphan_slots(n: int) -> int
    decreases n,
{
    if n <= 0 {
        0
    } else {
        orphan_slots(n - 1) + (if is_orphan(n - 1) { 1int } else { 0int })
    }
}

pub proof fn lemma_orphans_bound(t: Seq<u8>, k: int, n: int)
    ensures
        0 <= orphans_with_at_least(t, k, n) <= orphan_slots(n),
    decreases n,
{
    if n > 0 {
        lemma_orphans_bound(t, k, n - 1);
    }
}

/// The standard shanten is the least score of any arrangement of the hand:
/// no arrangement scores less, and, unless it is 8, some arrangement scores
/// exactly it.
pub proof fn lemma_standard_shanten_is_least(t: Seq<u8>, called: int)
    requires
        called >= 0,
    ensures
        forall|ps: Seq<Part>|
            #[trigger] arranges(t, ps) ==> standard_shanten(t, called) <= arrangement_score(
                t,
                ps,
                called,
            ),
        standard_shanten(t, called) < 8 ==> exists|ps: Seq<Part>|
            #[trigger] arranges(t, ps) && arrangement_score(t, ps, called) == standard_shanten(
                t,
                called,
            ),
{
    let d = hand_deficit(t, called);
    assert forall|ps: Seq<Part>| #[trigger] arranges(t, ps) implies standard_shanten(t, called)
        <= arrangement_score(t, ps, called) by {
        lemma_parts_cover(ps);
        lemma_shanten_value_range(melds_in(ps), taatsu_in(ps), heads_in(ps) == 1, called, d);
        assert(scores_within(t, called, arrangement_score(t, ps, called)));
        lemma_least_below(t, called, -1, arrangement_score(t, ps, called));
    }
    lemma_least_reached(t, called, -1);
}

/// The shanten of a hand is at most 8, and at least -1 when the hand has at
/// most 15 tiles (a complete hand, or one with a tile drawn on top).
pub proof fn lemma_shanten_range(t: Seq<u8>, called: int)
    requires
        t.len() == 34,
        called >= 0,
    ensures
        best_shanten(t, called).0 <= 8,
        total(t) <= 15 ==> best_shanten(t, called).0 >= -1,
        called > 0 ==> best_shanten(t, called).0 >= -1,
{
    lemma_standard_shanten_range(t, called);
    lemma_pairs_bound(t, 34);
    assert(t.take(34) =~= t);
    lemma_orphans_bound(t, 1, 34);
    lemma_orphans_bound(t, 2, 34);
    reveal_with_fuel(orphan_slots, 35);
    assert(orphan_slots(34) == 13);
}

/// The shanten of a hand without called melds is the least of the three
/// shapes, and the shape reported is one that gives it; with called melds
/// it is the standard shape's.
pub proof fn lemma_best_is_least(t: Seq<u8>, called: int)
    ensures
        called == 0 ==> {
            let b = best_shanten(t, called);
            &&& b.0 <= standard_shanten(t, called)
            &&& b.0 <= chiitoitsu_shanten(t)
            &&& b.0 <= kokushi_shanten(t)
            &&& b.1 == ShantenType::Standard ==> b.0 == standard_shanten(t, called)
            &&& b.1 == ShantenType::Chiitoitsu ==> b.0 == chiitoitsu_shanten(t)
            &&& b.1 == ShantenType::Kokushi ==> b.0 == kokushi_shanten(t)
            &&& b.0 == min_int(
                standard_shanten(t, called),
                min_int(chiitoitsu_shanten(t), kokushi_shanten(t)),
            )
        },
        called > 0 ==> best_shanten(t, called) == (standard_shanten(t, called), ShantenType::Standard),
{
}

// ---------------------------------------------------------------------------
// Executable
// ---------------------------------------------------------------------------

/// Whether the shanten calculation for this hand stays within byte
/// arithmetic, its tiles adding up to at most 255 (what
/// `calculate_shanten_with_melds` needs of its input).
pub fn shanten_input_fits(counts: &TileCounts, called_melds: u8) -> (b: bool)
    ensures
        b == shanten_defined(counts@, called_melds as int),
{
    let tiles = counts.counts;
    let ghost t = counts@;
    assert(t == tiles@);
    let mut sum: u32 = 0;
    let mut i: usize = 0;
    while i < 34
        invariant
            i <= 34,
            t == tiles@,
            t.len() == 34,
            sum == total(t.take(i as int)),
            sum <= 255 * i,
        decreases 34 - i,
    {
        proof {
            lemma_total_prefix(t, i as int);
        }
        sum = sum + tiles[i] as u32;
        i = i + 1;
    }
    assert(t.take(34) =~= t);
    sum <= 255
}

/// Calculate the shanten for a hand
///
/// Returns the minimum shanten across all possible hand types
/// (standard, chiitoitsu, kokushi)
pub fn calculate_shanten(counts: &TileCounts) -> (r: ShantenResult)
    requires
        total(counts@) <= 255,
    ensures
        r.shanten == best_shanten(counts@, 0).0,
        r.best_type == best_shanten(counts@, 0).1,
        total(counts@) == 14 ==> (r.shanten == -1 <==> winning_shape(counts@, 0)),
{
    calculate_shanten_with_melds(counts, 0)
}

/// Calculate shanten for a hand with called melds
///
/// `called_melds` is the number of complete melds already called (pon, chi, kan).
/// These melds are not included in `counts` - only the remaining hand tiles are.
///
/// For example, with 3 called pons and 4 tiles in hand (waiting for a pair),
/// pass `called_melds = 3` and counts containing only the 4 hand tiles.
pub fn calculate_shanten_with_melds(counts: &TileCounts, called_melds: u8) -> (r: ShantenResult)
    requires
        shanten_defined(counts@, called_melds as int),
    ensures
        r.shanten == best_shanten(counts@, called_melds as int).0,
        r.best_type == best_shanten(counts@, called_melds as int).1,
        called_melds <= 4 && total(counts@) == 14 - 3 * called_melds ==> (r.shanten == -1
            <==> winning_shape(counts@, called_melds as int)),
{
    proof {
        if called_melds <= 4 && total(counts@) == 14 - 3 * called_melds {
            lemma_minus_one_iff_winning(counts@, called_melds as int);
        }
    }
    let standard = calculate_standard_shanten_with_melds(counts, called_melds);

    // Chiitoitsu and Kokushi are not possible with called melds
    if called_melds > 0 {
        return ShantenResult { shanten: standard, best_type: ShantenType::Standard };
    }
    let chiitoi = calculate_chiitoitsu_shanten(counts);
    let kokushi = calculate_kokushi_shanten(counts);

    // Return the best (lowest) shanten
    if standard <= chiitoi && standard <= kokushi {
        ShantenResult { shanten: standard, best_type: ShantenType::Standard }
    } else if chiitoi <= kokushi {
        ShantenResult { shanten: chiitoi, best_type: ShantenType::Chiitoitsu }
    } else {
        ShantenResult { shanten: kokushi, best_type: ShantenType::Kokushi }
    }
}

/// Calculate shanten for standard hand (4 melds + 1 pair)
///
/// Counts complete melds (runs and triplets), taatsu (two-tile blocks a
/// single tile completes) and a pair, over every way of laying the hand out
/// into them, and keeps the best.
pub fn calculate_standard_shanten(counts: &TileCounts) -> (s: i8)
    requires
        total(counts@) <= 255,
    ensures
        s == standard_shanten(counts@, 0),
{
    calculate_standard_shanten_with_melds(counts, 0)
}

/// Calculate shanten for standard hand with called melds
///
/// `called_melds` is the number of complete melds already called.
fn calculate_standard_shanten_with_melds(counts: &TileCounts, called_melds: u8) -> (s: i8)
    requires
        shanten_defined(counts@, called_melds as int),
    ensures
        s == standard_shanten(counts@, called_melds as int),
{
    // Index 0-8: man 1-9, 9-17: pin 1-9, 18-26: sou 1-9, 27-33: honors
    let tiles = counts_to_array(counts);
    let ghost t = tiles@;

    // Count total tiles in hand
    let mut total_hand_tiles: u8 = 0;
    let mut i: usize = 0;
    while i < 34
        invariant
            i <= 34,
            t == tiles@,
            t.len() == 34,
            total(t) <= 255,
            total_hand_tiles == total(t.take(i as int)),
        decreases 34 - i,
    {
        proof {
            lemma_total_prefix(t, i as int);
        }
        total_hand_tiles = total_hand_tiles + tiles[i];
        i = i + 1;
    }
    assert(t.take(34) =~= t);

    // Tenpai needs at least (13 - 3 * called_melds) hand tiles, and at least
    // one (a single-tile wait) once four melds are called
    let min_tenpai_tiles: u8 = if called_melds >= 4 {
        1
    } else {
        13u8.saturating_sub(3 * called_melds)
    };
    let tile_deficit = min_tenpai_tiles.saturating_sub(total_hand_tiles);

    // Calls past four count as four
    let called: u8 = if called_melds < 4 {
        called_melds
    } else {
        4
    };
    let s = least_arrangement_score(tiles, 0, 0, 0, 0, false, called, tile_deficit);
    proof {
        let k = called_melds as int;
        let d = hand_deficit(t, k);
        assert(tile_deficit == d);
        assert forall|ps: Seq<Part>| #[trigger] arranges(t, ps) implies s <= arrangement_score(
            t,
            ps,
            k,
        ) && acc_score(ps, 0, 0, false, called as int, d) == arrangement_score(t, ps, k) by {
            lemma_parts_cover(ps);
            lemma_shanten_value_clamp(melds_in(ps), taatsu_in(ps), heads_in(ps) == 1, k, d);
            lemma_shanten_value_clamp(
                melds_in(ps),
                taatsu_in(ps),
                heads_in(ps) == 1,
                called as int,
                d,
            );
            assert(starts_from(ps, 0, 0));
        }
        let w = choose|ps: Seq<Part>|
            #[trigger] arranges(t, ps) && (false ==> heads_in(ps) == 0) && acc_score(
                ps,
                0,
                0,
                false,
                called as int,
                d,
            ) <= s;
        assert(scores_within(t, k, s as int));
        lemma_parts_cover(w);
        lemma_shanten_value_range(melds_in(w), taatsu_in(w), heads_in(w) == 1, k, d);
        lemma_least_from(t, k, -1, s as int);
    }
    s
}

/// Convert a 34-element array back to TileCounts.
///
/// Index mapping: 0–8 = 1m–9m, 9–17 = 1p–9p, 18–26 = 1s–9s, 27–33 = honors (East…Red).
pub fn array_to_tilecounts(arr: &[u8; 34]) -> (counts: TileCounts)
    ensures
        counts@ == arr@,
{
    TileCounts { counts: *arr }
}

/// Convert TileCounts to a 34-element array.
///
/// Index mapping: 0–8 = 1m–9m, 9–17 = 1p–9p, 18–26 = 1s–9s, 27–33 = honors (East…Red).
pub fn counts_to_array(counts: &TileCounts) -> (arr: [u8; 34])
    ensures
        arr@ == counts@,
{
    counts.counts
}

/// Calculate shanten value from meld and taatsu counts, accounting for called melds
///
/// `tile_deficit` is how many tiles short we are of the minimum needed for tenpai.
/// This ensures we don't report tenpai when there aren't enough tiles to form a valid wait.
pub(crate) fn calculate_shanten_value_with_called(
    melds: u8,
    taatsu: u8,
    has_pair: bool,
    called_melds: u8,
    tile_deficit: u8,
) -> (s: i8)
    requires
        melds + called_melds <= 255,
        tile_deficit <= 127,
    ensures
        s == shanten_value(
            melds as int,
            taatsu as int,
            has_pair,
            called_melds as int,
            tile_deficit as int,
        ),
        tile_deficit > 0 ==> s >= tile_deficit,
{
    // Total melds = melds found in hand + called melds
    let total_melds = melds + called_melds;

    // Four melds and a pair, with enough tiles, is a complete hand
    if total_melds >= 4 && has_pair && tile_deficit == 0 {
        return -1;
    }

    // At most (4 - total_melds) taatsu are useful: a hand needs exactly 4 melds
    let max_useful_taatsu = 4u8.saturating_sub(total_melds);
    let useful_taatsu = if taatsu < max_useful_taatsu {
        taatsu
    } else {
        max_useful_taatsu
    };
    let capped_melds: u8 = if total_melds < 4 {
        total_melds
    } else {
        4
    };

    // Start with 8; each complete meld saves 2 exchanges, each useful taatsu 1,
    // and a pair 1
    let mut shanten: i8 = 8i8 - (2 * capped_melds as i8) - (useful_taatsu as i8);
    if has_pair {
        shanten = shanten - 1;
    }

    // Only 4 blocks (besides the pair) can be used
    let total_blocks = capped_melds + useful_taatsu;
    if total_blocks > 4 {
        shanten = shanten + (total_blocks - 4) as i8;
    }

    // Without enough tiles for a valid wait the hand cannot be tenpai:
    // each missing tile is one more step away
    let deficit = tile_deficit as i8;
    if deficit > shanten {
        shanten = deficit;
    }
    shanten
}

/// Calculate shanten for chiitoitsu (seven pairs)
///
/// Formula: 6 - pairs + max(0, 7 - unique_tiles)
/// We need 7 different pairs. Each pair we have reduces shanten by 1.
/// If we have fewer than 7 unique tiles, we need to draw new tiles too.
pub fn calculate_chiitoitsu_shanten(counts: &TileCounts) -> (s: i8)
    ensures
        s == chiitoitsu_shanten(counts@),
{
    let mut pairs: i8 = 0;
    let mut unique_tiles: i8 = 0;
    let mut idx: usize = 0;
    while idx < 34
        invariant
            idx <= 34,
            counts@.len() == 34,
            pairs == kinds_with_at_least(counts@, 2, idx as int),
            unique_tiles == kinds_with_at_least(counts@, 1, idx as int),
            0 <= pairs <= idx,
            0 <= unique_tiles <= idx,
        decreases 34 - idx,
    {
        let count = counts.counts[idx];
        if count >= 1 {
            unique_tiles = unique_tiles + 1;
        }
        if count >= 2 {
            pairs = pairs + 1;
        }
        idx = idx + 1;
    }
    // 7 pairs of 7 different kinds are needed
    let missing_kinds: i8 = 7 - unique_tiles;
    6 - pairs + if missing_kinds > 0 {
        missing_kinds
    } else {
        0
    }
}

/// Calculate shanten for kokushi (thirteen orphans)
///
/// We need all 13 terminal/honor tiles, plus one duplicate.
/// Formula: 13 - unique_terminals - has_pair
pub fn calculate_kokushi_shanten(counts: &TileCounts) -> (s: i8)
    ensures
        s == kokushi_shanten(counts@),
{
    let mut unique_terminals: i8 = 0;
    let mut has_pair = false;
    let mut idx: usize = 0;
    while idx < 34
        invariant
            idx <= 34,
            counts@.len() == 34,
            unique_terminals == orphans_with_at_least(counts@, 1, idx as int),
            has_pair == (orphans_with_at_least(counts@, 2, idx as int) > 0),
            0 <= unique_terminals <= idx,
            0 <= orphans_with_at_least(counts@, 2, idx as int),
        decreases 34 - idx,
    {
        let orphan = idx == 0 || idx == 8 || idx == 9 || idx == 17 || idx == 18 || idx == 26
            || idx >= 27;
        let count = counts.counts[idx];
        if orphan && count >= 1 {
            unique_terminals = unique_terminals + 1;
        }
        if orphan && count >= 2 {
            has_pair = true;
        }
        idx = idx + 1;
    }
    // 13 different orphans plus one of them twice
    13 - unique_terminals - if has_pair {
        1
    } else {
        0
    }
}


// ---------------------------------------------------------------------------
// Ukeire (tile acceptance)
// ---------------------------------------------------------------------------

/// Result of ukeire calculation
#[derive(Debug, Clone)]
pub struct UkeireResult {
    /// Current shanten value
    pub shanten: i8,
    /// Tiles that would improve the hand
    pub tiles: Vec<UkeireTile>,
    /// Total count of all accepting tiles
    pub total_count: u8,
}

/// A single tile that improves the hand
#[derive(Debug, Clone, Copy)]
pub struct UkeireTile {
    /// The tile
    pub tile: Tile,
    /// How many copies are available to draw.
    /// Theoretical: 4 - hand_count. Practical: 4 - hand_count - visible_count.
    pub available: u8,
}

/// The counts of visible tiles, if any are given.
pub open spec fn visible_view(visible: Option<&TileCounts>) -> Option<Seq<u8>> {
    match visible {
        Some(v) => Some(v@),
        None => None,
    }
}

/// Copies of slot `i` seen outside the hand (0 when none are given).
pub open spec fn visible_at(visible: Option<Seq<u8>>, i: int) -> int {
    match visible {
        Some(v) => v[i] as int,
        None => 0,
    }
}

/// Drawing one more tile of slot `i` lowers the shanten (only tried when
/// the hand holds fewer than four of it).
pub open spec fn improves(t: Seq<u8>, called: int, i: int) -> bool {
    t[i] < 4 && best_shanten(t.update(i, (t[i] + 1) as u8), called).0 < best_shanten(t, called).0
}

/// Copies of slot `i` still to be drawn: 4 less those in hand and those
/// seen, and never below 0.
pub open spec fn available_at(t: Seq<u8>, visible: Option<Seq<u8>>, i: int) -> int {
    max_int(4 - (t[i] + visible_at(visible, i)), 0)
}

/// The improving tiles among the slots below `n`, in index order, each with
/// its available copies.
pub open spec fn ukeire_tiles(t: Seq<u8>, called: int, visible: Option<Seq<u8>>, n: int) -> Seq<
    UkeireTile,
>
    decreases n,
{
    if n <= 0 {
        Seq::empty()
    } else {
        let prev = ukeire_tiles(t, called, visible, n - 1);
        if improves(t, called, n - 1) {
            prev.push(
                UkeireTile { tile: tile_at(n - 1), available: available_at(t, visible, n - 1) as u8 },
            )
        } else {
            prev
        }
    }
}

/// Sum of the available copies of the improving tiles among the slots below `n`.
pub open spec fn ukeire_total(t: Seq<u8>, called: int, visible: Option<Seq<u8>>, n: int) -> int
    decreases n,
{
    if n <= 0 {
        0
    } else {
        ukeire_total(t, called, visible, n - 1) + (if improves(t, called, n - 1) {
            available_at(t, visible, n - 1)
        } else {
            0
        })
    }
}

/// What ukeire needs of its input: the shanten calculation stays within
/// byte arithmetic for the hand and for the hand with any one tile added
/// (where the hand holds fewer than four of it), and for every improving
/// slot the hand and visible copies summed fit in a byte.
pub open spec fn ukeire_input_ok(t: Seq<u8>, called: int, visible: Option<Seq<u8>>) -> bool {
    &&& shanten_defined(t, called)
    &&& forall|i: int|
        0 <= i < 34 && t[i] < 4 ==> #[trigger] shanten_defined(t.update(i, (t[i] + 1) as u8), called)
    &&& forall|i: int|
        0 <= i < 34 && #[trigger] improves(t, called, i) ==> t[i] + visible_at(visible, i) <= 255
}

/// Sum of the available copies of the listed tiles.
pub open spec fn sum_available(s: Seq<UkeireTile>) -> int
    decreases s.len(),
{
    if s.len() == 0 {
        0
    } else {
        sum_available(s.drop_last()) + s.last().available
    }
}

/// The total count is the sum of the available copies over the listed tiles,
/// and each slot contributes at most 4.
pub proof fn lemma_ukeire_total(t: Seq<u8>, called: int, visible: Option<Seq<u8>>, n: int)
    requires
        0 <= n,
    ensures
        ukeire_total(t, called, visible, n) == sum_available(ukeire_tiles(t, called, visible, n)),
        0 <= ukeire_total(t, called, visible, n) <= 4 * n,
    decreases n,
{
    if n > 0 {
        lemma_ukeire_total(t, called, visible, n - 1);
        let prev = ukeire_tiles(t, called, visible, n - 1);
        if improves(t, called, n - 1) {
            let e = UkeireTile {
                tile: tile_at(n - 1),
                available: available_at(t, visible, n - 1) as u8,
            };
            assert(prev.push(e).drop_last() =~= prev);
        }
    }
}

/// Visible tiles only lower what is available: the practical list names the
/// same tiles in the same order as the theoretical one, each with at most as
/// many copies, so its total is at most the theoretical total; and with no
/// tile visible the two are the same.
pub proof fn lemma_ukeire_visible(t: Seq<u8>, called: int, v: Seq<u8>, n: int)
    requires
        0 <= n <= 34,
        v.len() == 34,
    ensures
        ukeire_tiles(t, called, Some(v), n).len() == ukeire_tiles(t, called, None, n).len(),
        forall|k: int|
            0 <= k < ukeire_tiles(t, called, None, n).len() ==> {
                &&& (#[trigger] ukeire_tiles(t, called, Some(v), n)[k]).tile == ukeire_tiles(
                    t,
                    called,
                    None,
                    n,
                )[k].tile
                &&& ukeire_tiles(t, called, Some(v), n)[k].available <= ukeire_tiles(
                    t,
                    called,
                    None,
                    n,
                )[k].available
            },
        ukeire_total(t, called, Some(v), n) <= ukeire_total(t, called, None, n),
        ukeire_tiles(t, called, Some(Seq::new(34, |i: int| 0u8)), n) == ukeire_tiles(
            t,
            called,
            None,
            n,
        ),
        ukeire_total(t, called, Some(Seq::new(34, |i: int| 0u8)), n) == ukeire_total(
            t,
            called,
            None,
            n,
        ),
    decreases n,
{
    if n > 0 {
        lemma_ukeire_visible(t, called, v, n - 1);
        let zeros = Seq::new(34, |i: int| 0u8);
        assert(visible_at(Some(zeros), n - 1) == 0);
        assert(available_at(t, Some(zeros), n - 1) == available_at(t, None, n - 1));
    }
}

/// The list holds exactly the improving tiles: each entry is the tile of an
/// improving slot with its available copies, and every improving slot has
/// an entry.
pub proof fn lemma_ukeire_lists_improving(t: Seq<u8>, called: int, visible: Option<Seq<u8>>, n: int)
    requires
        0 <= n <= 34,
    ensures
        forall|k: int|
            0 <= k < ukeire_tiles(t, called, visible, n).len() ==> exists|i: int|
                0 <= i < n && improves(t, called, i) && (#[trigger] ukeire_tiles(
                    t,
                    called,
                    visible,
                    n,
                )[k]).tile == tile_at(i) && ukeire_tiles(t, called, visible, n)[k].available
                    == available_at(t, visible, i) as u8,
        forall|i: int|
            0 <= i < n && #[trigger] improves(t, called, i) ==> exists|k: int|
                0 <= k < ukeire_tiles(t, called, visible, n).len() && ukeire_tiles(
                    t,
                    called,
                    visible,
                    n,
                )[k].tile == tile_at(i),
    decreases n,
{
    if n > 0 {
        lemma_ukeire_lists_improving(t, called, visible, n - 1);
        let prev = ukeire_tiles(t, called, visible, n - 1);
        let cur = ukeire_tiles(t, called, visible, n);
        assert forall|k: int| 0 <= k < cur.len() implies exists|i: int|
            0 <= i < n && improves(t, called, i) && (#[trigger] cur[k]).tile == tile_at(i)
                && cur[k].available == available_at(t, visible, i) as u8 by {
            if k < prev.len() {
                assert(cur[k] == prev[k]);
                let i = choose|i: int|
                    0 <= i < n - 1 && improves(t, called, i) && (#[trigger] prev[k]).tile
                        == tile_at(i) && prev[k].available == available_at(t, visible, i) as u8;
            } else {
                assert(improves(t, called, n - 1));
            }
        }
        assert forall|i: int| 0 <= i < n && #[trigger] improves(t, called, i) implies exists|k: int|
            0 <= k < cur.len() && cur[k].tile == tile_at(i) by {
            if i < n - 1 {
                let k = choose|k: int| 0 <= k < prev.len() && prev[k].tile == tile_at(i);
                assert(cur[k] == prev[k]);
            } else {
                assert(cur[prev.len() as int].tile == tile_at(i));
            }
        }
    }
}

/// A complete hand of at most 14 tiles accepts no tile: no draw lowers its
/// shanten below -1.
pub proof fn lemma_complete_hand_accepts_nothing(
    t: Seq<u8>,
    called: int,
    visible: Option<Seq<u8>>,
    n: int,
)
    requires
        t.len() == 34,
        total(t) <= 14,
        called >= 0,
        0 <= n <= 34,
        best_shanten(t, called).0 == -1,
    ensures
        ukeire_tiles(t, called, visible, n).len() == 0,
        ukeire_total(t, called, visible, n) == 0,
    decreases n,
{
    if n > 0 {
        lemma_complete_hand_accepts_nothing(t, called, visible, n - 1);
        let i = n - 1;
        if t[i] < 4 {
            lemma_total_update(t, i, (t[i] + 1) as u8);
            lemma_shanten_range(t.update(i, (t[i] + 1) as u8), called);
        }
        assert(!improves(t, called, i));
    }
}

/// Calculate theoretical ukeire (tile acceptance) for a hand.
///
/// Returns a list of tiles that would improve the hand (reduce shanten)
/// along with the count of how many of each are available. Assumes a full
/// 136-tile deck — the only tiles subtracted are those in the hand itself.
/// For a practical calculation that accounts for visible tiles on the table,
/// see [`calculate_ukeire_with_visible`].
pub fn calculate_ukeire(counts: &TileCounts) -> (r: UkeireResult)
    requires
        ukeire_input_ok(counts@, 0, None),
    ensures
        r.shanten == best_shanten(counts@, 0).0,
        r.tiles@ == ukeire_tiles(counts@, 0, None, 34),
        r.total_count == ukeire_total(counts@, 0, None, 34),
{
    calculate_ukeire_inner(counts, 0, None)
}

/// Calculate theoretical ukeire (tile acceptance) for a hand with called melds.
///
/// `called_melds` is the number of complete melds already called (pon, chi, kan).
/// These melds are not included in `counts` — only the remaining hand tiles are.
/// Assumes a full 136-tile deck — the only tiles subtracted are those in the hand.
/// For a practical calculation that accounts for visible tiles on the table,
/// see [`calculate_ukeire_with_melds_and_visible`].
pub fn calculate_ukeire_with_melds(counts: &TileCounts, called_melds: u8) -> (r: UkeireResult)
    requires
        ukeire_input_ok(counts@, called_melds as int, None),
    ensures
        r.shanten == best_shanten(counts@, called_melds as int).0,
        r.tiles@ == ukeire_tiles(counts@, called_melds as int, None, 34),
        r.total_count == ukeire_total(counts@, called_melds as int, None, 34),
{
    calculate_ukeire_inner(counts, called_melds, None)
}

/// Calculate practical ukeire (tile acceptance) accounting for visible tiles.
///
/// Like [`calculate_ukeire`], but subtracts `visible_counts` from the available
/// tile pool. `visible_counts` should include all tiles the player can see:
/// all discard ponds, all open melds on the table, dora indicators, etc.
/// Tiles in the player's own hand should NOT be included in `visible_counts`
/// (they are already accounted for).
pub fn calculate_ukeire_with_visible(counts: &TileCounts, visible_counts: &TileCounts) -> (r:
    UkeireResult)
    requires
        ukeire_input_ok(counts@, 0, Some(visible_counts@)),
    ensures
        r.shanten == best_shanten(counts@, 0).0,
        r.tiles@ == ukeire_tiles(counts@, 0, Some(visible_counts@), 34),
        r.total_count == ukeire_total(counts@, 0, Some(visible_counts@), 34),
{
    calculate_ukeire_inner(counts, 0, Some(visible_counts))
}

/// Calculate practical ukeire (tile acceptance) with called melds and visible tiles.
///
/// Combines meld-aware shanten calculation with practical tile availability.
/// `called_melds` is the number of complete melds already called (pon, chi, kan).
/// `visible_counts` should include all tiles the player can see on the table
/// (discard ponds, open melds, dora indicators, etc.) — these are subtracted
/// from the theoretical maximum of 4 per tile type.
pub fn calculate_ukeire_with_melds_and_visible(
    counts: &TileCounts,
    called_melds: u8,
    visible_counts: &TileCounts,
) -> (r: UkeireResult)
    requires
        ukeire_input_ok(counts@, called_melds as int, Some(visible_counts@)),
    ensures
        r.shanten == best_shanten(counts@, called_melds as int).0,
        r.tiles@ == ukeire_tiles(counts@, called_melds as int, Some(visible_counts@), 34),
        r.total_count == ukeire_total(counts@, called_melds as int, Some(visible_counts@), 34),
{
    calculate_ukeire_inner(counts, called_melds, Some(visible_counts))
}

/// Shared ukeire implementation.
///
/// When `visible_counts` is `None`, available copies = 4 - hand_count (theoretical).
/// When `visible_counts` is `Some`, available copies = 4 - hand_count - visible_count (practical).
fn calculate_ukeire_inner(
    counts: &TileCounts,
    called_melds: u8,
    visible_counts: Option<&TileCounts>,
) -> (r: UkeireResult)
    requires
        ukeire_input_ok(counts@, called_melds as int, visible_view(visible_counts)),
    ensures
        r.shanten == best_shanten(counts@, called_melds as int).0,
        r.tiles@ == ukeire_tiles(counts@, called_melds as int, visible_view(visible_counts), 34),
        r.total_count == ukeire_total(
            counts@,
            called_melds as int,
            visible_view(visible_counts),
            34,
        ),
{
    let ghost t = counts@;
    let ghost vis = visible_view(visible_counts);
    let current = calculate_shanten_with_melds(counts, called_melds);
    let mut accepting_tiles: Vec<UkeireTile> = Vec::new();
    let mut total_count: u8 = 0;

    // Try adding each possible tile and see if it improves shanten
    let mut idx: usize = 0;
    while idx < 34
        invariant
            idx <= 34,
            t == counts@,
            t.len() == 34,
            vis == visible_view(visible_counts),
            ukeire_input_ok(t, called_melds as int, vis),
            current.shanten == best_shanten(t, called_melds as int).0,
            accepting_tiles@ == ukeire_tiles(t, called_melds as int, vis, idx as int),
            total_count == ukeire_total(t, called_melds as int, vis, idx as int),
            total_count <= 4 * idx,
        decreases 34 - idx,
    {
        let tile = index_to_tile(idx);
        let hand_count = counts.counts[idx];
        let visible_count: u8 = match visible_counts {
            Some(vc) => vc.counts[idx],
            None => 0,
        };
        assert(visible_count == visible_at(vis, idx as int));

        // Skip if already have 4 of this tile in hand (can't test adding a 5th)
        if hand_count < 4 {
            // Add the tile temporarily
            let mut test_counts = *counts;
            test_counts.counts[idx] = test_counts.counts[idx] + 1;
            proof {
                assert(test_counts@ =~= t.update(idx as int, (t[idx as int] + 1) as u8));
            }
            let new_shanten = calculate_shanten_with_melds(&test_counts, called_melds);

            if new_shanten.shanten < current.shanten {
                assert(improves(t, called_melds as int, idx as int));
                let available = 4u8.saturating_sub(hand_count + visible_count);
                accepting_tiles.push(UkeireTile { tile, available });
                total_count = total_count + available;
            }
        }
        idx = idx + 1;
    }
    UkeireResult { shanten: current.shanten, tiles: accepting_tiles, total_count }
}


// ============================================================================
// Chi / Kan utility functions
// ============================================================================

/// The chi pairs for a discard at index `d`: hand tiles (d-2, d-1), then
/// (d-1, d+1), then (d+1, d+2), each where both are held and all three lie
/// in the discard's suit. None for honors.
pub open spec fn chi_combos(t: Seq<u8>, d: int) -> Seq<(Tile, Tile)> {
    if d > 26 {
        Seq::empty()
    } else {
        let v = d % 9;
        let high = if v >= 2 && t[d - 2] > 0 && t[d - 1] > 0 {
            seq![(tile_at(d - 2), tile_at(d - 1))]
        } else {
            Seq::empty()
        };
        let middle = if 1 <= v <= 7 && t[d - 1] > 0 && t[d + 1] > 0 {
            seq![(tile_at(d - 1), tile_at(d + 1))]
        } else {
            Seq::empty()
        };
        let low = if v <= 6 && t[d + 1] > 0 && t[d + 2] > 0 {
            seq![(tile_at(d + 1), tile_at(d + 2))]
        } else {
            Seq::empty()
        };
        high + middle + low
    }
}

/// Every tile whose draw lowers the shanten (any tile the hand holds fewer
/// than four of, a held triplet's fourth copy included) is listed, with the
/// copies not in the hand and not seen.
pub proof fn lemma_ukeire_lists_every_improving_tile(
    t: Seq<u8>,
    called: int,
    visible: Option<Seq<u8>>,
)
    ensures
        forall|i: int|
            0 <= i < 34 && t[i] < 4 && #[trigger] best_shanten(t.update(i, (t[i] + 1) as u8), called).0
                < best_shanten(t, called).0 ==> exists|k: int|
                0 <= k < ukeire_tiles(t, called, visible, 34).len() && ukeire_tiles(
                    t,
                    called,
                    visible,
                    34,
                )[k].tile == tile_at(i) && ukeire_tiles(t, called, visible, 34)[k].available == max_int(
                    4 - t[i] - visible_at(visible, i),
                    0,
                ) as u8,
{
    lemma_ukeire_lists_improving(t, called, visible, 34);
    let u = ukeire_tiles(t, called, visible, 34);
    assert forall|i: int|
        0 <= i < 34 && t[i] < 4 && #[trigger] best_shanten(t.update(i, (t[i] + 1) as u8), called).0
            < best_shanten(t, called).0 implies exists|k: int|
            0 <= k < u.len() && u[k].tile == tile_at(i) && u[k].available == max_int(
                4 - t[i] - visible_at(visible, i),
                0,
            ) as u8 by {
        assert(improves(t, called, i));
        let k = choose|k: int| 0 <= k < u.len() && u[k].tile == tile_at(i);
        let i2 = choose|i2: int|
            0 <= i2 < 34 && improves(t, called, i2) && (#[trigger] u[k]).tile == tile_at(i2)
                && u[k].available == available_at(t, visible, i2) as u8;
        crate::tile::lemma_index_tile_roundtrip(i, tile_at(i));
        crate::tile::lemma_index_tile_roundtrip(i2, tile_at(i2));
        assert(i2 == i);
    }
}

/// A kan leaves the hand less the tiles it takes: three for an open kan and
/// four for a closed one, each one more called meld; one for an added kan,
/// which upgrades a meld already called and leaves the called count as it is.
pub proof fn lemma_kan_hand(hand: Seq<u8>, i: int, kan_type: KanType, k: int)
    ensures
        kan_type == KanType::Added ==> best_shanten(
            hand.update(i, (hand[i] - kan_removes(kan_type)) as u8),
            kan_melds(kan_type, k),
        ) == best_shanten(hand.update(i, (hand[i] - 1) as u8), k),
        kan_type == KanType::Open ==> best_shanten(
            hand.update(i, (hand[i] - kan_removes(kan_type)) as u8),
            kan_melds(kan_type, k),
        ) == best_shanten(hand.update(i, (hand[i] - 3) as u8), k + 1),
        kan_type == KanType::Closed ==> best_shanten(
            hand.update(i, (hand[i] - kan_removes(kan_type)) as u8),
            kan_melds(kan_type, k),
        ) == best_shanten(hand.update(i, (hand[i] - 4) as u8), k + 1),
{
}

/// Every run through a suited discard is offered: whenever the two other
/// tiles of a run through `d` lie in `d`'s suit and are held, that pair is
/// among the chi options.
pub proof fn lemma_chi_combos_complete(t: Seq<u8>, d: int)
    requires
        0 <= d < 27,
    ensures
        d >= 2 && (d - 2) / 9 == d / 9 && t[d - 2] > 0 && t[d - 1] > 0 ==> chi_combos(t, d).contains(
            (tile_at(d - 2), tile_at(d - 1)),
        ),
        d >= 1 && (d - 1) / 9 == d / 9 && (d + 1) / 9 == d / 9 && t[d - 1] > 0 && t[d + 1] > 0
            ==> chi_combos(t, d).contains((tile_at(d - 1), tile_at(d + 1))),
        (d + 2) / 9 == d / 9 && t[d + 1] > 0 && t[d + 2] > 0 ==> chi_combos(t, d).contains(
            (tile_at(d + 1), tile_at(d + 2)),
        ),
{
    let v = d % 9;
    let high = if v >= 2 && t[d - 2] > 0 && t[d - 1] > 0 {
        seq![(tile_at(d - 2), tile_at(d - 1))]
    } else {
        Seq::empty()
    };
    let middle = if 1 <= v <= 7 && t[d - 1] > 0 && t[d + 1] > 0 {
        seq![(tile_at(d - 1), tile_at(d + 1))]
    } else {
        Seq::empty()
    };
    let low = if v <= 6 && t[d + 1] > 0 && t[d + 2] > 0 {
        seq![(tile_at(d + 1), tile_at(d + 2))]
    } else {
        Seq::empty()
    };
    let c = chi_combos(t, d);
    assert(c == high + middle + low);
    if d >= 2 && (d - 2) / 9 == d / 9 && t[d - 2] > 0 && t[d - 1] > 0 {
        assert(v >= 2);
        assert(c[0] == (tile_at(d - 2), tile_at(d - 1)));
    }
    if d >= 1 && (d - 1) / 9 == d / 9 && (d + 1) / 9 == d / 9 && t[d - 1] > 0 && t[d + 1] > 0 {
        assert(1 <= v <= 7);
        assert(c[high.len() as int] == (tile_at(d - 1), tile_at(d + 1)));
    }
    if (d + 2) / 9 == d / 9 && t[d + 1] > 0 && t[d + 2] > 0 {
        assert(v <= 6);
        assert(c[(high.len() + middle.len()) as int] == (tile_at(d + 1), tile_at(d + 2)));
    }
}

/// Return all valid chi (sequence call) combinations for a discarded tile.
///
/// Given the tiles in a player's hand and a `discarded_tile`, this function
/// returns every pair of tiles already in the hand that would form a three-tile
/// sequence together with the discard.  Only suited tiles (man, pin, sou) can
/// form sequences — honor tiles always produce an empty result.
///
/// Each returned `(Tile, Tile)` is the pair of hand tiles used (not the
/// discard itself), listed in index order.
pub fn valid_chi_combinations(hand: &TileCounts, discarded_tile: Tile) -> (combos: Vec<(Tile, Tile)>)
    requires
        discarded_tile.wf(),
    ensures
        combos@ == chi_combos(hand@, discarded_tile.index()),
{
    let arr = counts_to_array(hand);
    let d = tile_to_index(discarded_tile);

    // Honor tiles (index > 26) cannot form sequences
    if d > 26 {
        return vec![];
    }
    let val = d % 9;  // position within suit (0-8)
    let mut combos: Vec<(Tile, Tile)> = Vec::new();

    // Discarded tile is the HIGH end of sequence: (d-2, d-1, d)
    if val >= 2 && arr[d - 2] > 0 && arr[d - 1] > 0 {
        combos.push((index_to_tile(d - 2), index_to_tile(d - 1)));
    }
    // Discarded tile is the MIDDLE of sequence: (d-1, d, d+1)
    if 1 <= val && val <= 7 && arr[d - 1] > 0 && arr[d + 1] > 0 {
        combos.push((index_to_tile(d - 1), index_to_tile(d + 1)));
    }
    // Discarded tile is the LOW end of sequence: (d, d+1, d+2)
    if val <= 6 && arr[d + 1] > 0 && arr[d + 2] > 0 {
        combos.push((index_to_tile(d + 1), index_to_tile(d + 2)));
    }
    assert(combos@ =~= chi_combos(hand@, d as int));
    combos
}

/// Every chi pair is held in the hand and makes, with the discard, three
/// consecutive tiles of one suit, listed lower tile first; honors give none.
pub proof fn lemma_chi_combos_are_runs(t: Seq<u8>, d: int)
    requires
        0 <= d < 34,
        t.len() == 34,
    ensures
        d > 26 ==> chi_combos(t, d).len() == 0,
        chi_combos(t, d).len() <= 3,
        forall|k: int|
            0 <= k < chi_combos(t, d).len() ==> {
                let x = (#[trigger] chi_combos(t, d)[k]).0.index();
                let y = chi_combos(t, d)[k].1.index();
                &&& 0 <= x < y < 27
                &&& t[x] > 0
                &&& t[y] > 0
                &&& x / 9 == d / 9
                &&& y / 9 == d / 9
                &&& ((x == d - 2 && y == d - 1) || (x == d - 1 && y == d + 1) || (x == d + 1 && y
                    == d + 2))
            },
{
    if d <= 26 {
        let v = d % 9;
        if v >= 2 {
            crate::tile::lemma_index_tile_roundtrip(d - 2, tile_at(d - 2));
            crate::tile::lemma_index_tile_roundtrip(d - 1, tile_at(d - 1));
        }
        if 1 <= v <= 7 {
            crate::tile::lemma_index_tile_roundtrip(d - 1, tile_at(d - 1));
            crate::tile::lemma_index_tile_roundtrip(d + 1, tile_at(d + 1));
        }
        if v <= 6 {
            crate::tile::lemma_index_tile_roundtrip(d + 1, tile_at(d + 1));
            crate::tile::lemma_index_tile_roundtrip(d + 2, tile_at(d + 2));
        }
        let high = if v >= 2 && t[d - 2] > 0 && t[d - 1] > 0 {
            seq![(tile_at(d - 2), tile_at(d - 1))]
        } else {
            Seq::empty()
        };
        let middle = if 1 <= v <= 7 && t[d - 1] > 0 && t[d + 1] > 0 {
            seq![(tile_at(d - 1), tile_at(d + 1))]
        } else {
            Seq::empty()
        };
        let low = if v <= 6 && t[d + 1] > 0 && t[d + 2] > 0 {
            seq![(tile_at(d + 1), tile_at(d + 2))]
        } else {
            Seq::empty()
        };
        let all = high + middle + low;
        assert forall|k: int| 0 <= k < all.len() implies (all[k] == high[k] && k < high.len()) || (
        all[k] == middle[k - high.len()] && high.len() <= k < high.len() + middle.len()) || (all[k]
            == low[k - high.len() - middle.len()] && high.len() + middle.len() <= k) by {}
    }
}

/// The hand left after giving up one tile at `i0` and then one at `i1`.
pub open spec fn without_two(t: Seq<u8>, i0: int, i1: int) -> Seq<u8> {
    let a = t.update(i0, (t[i0] - 1) as u8);
    a.update(i1, (a[i1] - 1) as u8)
}

/// Least shanten, with `melds` called, over discarding one tile from each
/// held slot below `n`; 127 (`i8::MAX`) when no slot below `n` is held.
pub open spec fn best_after_discard(r: Seq<u8>, melds: int, n: int) -> int
    decreases n,
{
    if n <= 0 {
        127
    } else {
        let prev = best_after_discard(r, melds, n - 1);
        if r[n - 1] > 0 {
            min_int(prev, best_shanten(r.update(n - 1, (r[n - 1] - 1) as u8), melds).0)
        } else {
            prev
        }
    }
}

/// Compute the best possible shanten after calling chi with a specific combo.
///
/// Removes the two `combo` tiles from the hand, then tries every possible
/// discard and returns the minimum resulting shanten (with `num_melds + 1`
/// called melds); `i8::MAX` when nothing is left to discard.
///
/// Both combo tiles must be in the hand (the same kind twice needs two copies).
pub fn shanten_after_chi(hand: &TileCounts, combo: (Tile, Tile), num_melds: u8) -> (s: i8)
    requires
        combo.0.wf(),
        combo.1.wf(),
        hand@[combo.0.index()] >= 1,
        hand@.update(combo.0.index(), (hand@[combo.0.index()] - 1) as u8)[combo.1.index()] >= 1,
        num_melds < 255,
        forall|i: int|
            0 <= i < 34 && without_two(hand@, combo.0.index(), combo.1.index())[i] > 0
                ==> #[trigger] shanten_defined(
                without_two(hand@, combo.0.index(), combo.1.index()).update(
                    i,
                    (without_two(hand@, combo.0.index(), combo.1.index())[i] - 1) as u8,
                ),
                num_melds + 1,
            ),
    ensures
        s == best_after_discard(
            without_two(hand@, combo.0.index(), combo.1.index()),
            num_melds + 1,
            34,
        ),
{
    let mut arr = counts_to_array(hand);
    let idx0 = tile_to_index(combo.0);
    let idx1 = tile_to_index(combo.1);

    arr[idx0] = arr[idx0] - 1;
    arr[idx1] = arr[idx1] - 1;
    let ghost r = arr@;
    assert(r =~= without_two(hand@, idx0 as int, idx1 as int));

    let new_melds = num_melds + 1;
    let mut best: i8 = 127;

    let mut i: usize = 0;
    while i < 34
        invariant
            i <= 34,
            arr@ == r,
            r.len() == 34,
            new_melds == num_melds + 1,
            forall|j: int|
                0 <= j < 34 && r[j] > 0 ==> #[trigger] shanten_defined(
                    r.update(j, (r[j] - 1) as u8),
                    new_melds as int,
                ),
            best == best_after_discard(r, new_melds as int, i as int),
        decreases 34 - i,
    {
        if arr[i] > 0 {
            arr[i] = arr[i] - 1;
            proof {
                assert(arr@ =~= r.update(i as int, (r[i as int] - 1) as u8));
            }
            let counts = array_to_tilecounts(&arr);
            let s = calculate_shanten_with_melds(&counts, new_melds).shanten;
            if s < best {
                best = s;
            }
            arr[i] = arr[i] + 1;
            assert(arr@ =~= r);
        }
        i = i + 1;
    }
    best
}

/// Tiles a kan takes from the hand.
pub open spec fn kan_removes(kan_type: KanType) -> int {
    match kan_type {
        KanType::Open => 3,
        KanType::Closed => 4,
        KanType::Added => 1,
    }
}

/// Called melds after a kan: one more, except an added kan, which upgrades
/// a meld already called.
pub open spec fn kan_melds(kan_type: KanType, num_melds: int) -> int {
    match kan_type {
        KanType::Added => num_melds,
        _ => num_melds + 1,
    }
}

/// Compute shanten after declaring kan.
///
/// - [`KanType::Open`] (daiminkan): removes 3 tiles from hand, increments melds.
/// - [`KanType::Closed`] (ankan): removes 4 tiles from hand, increments melds.
/// - [`KanType::Added`] (kakan): removes 1 tile from hand, melds unchanged.
///
/// The hand must contain enough copies of `kan_tile`.
pub fn shanten_after_kan(hand: &TileCounts, kan_tile: Tile, kan_type: KanType, num_melds: u8) -> (s:
    i8)
    requires
        kan_tile.wf(),
        hand@[kan_tile.index()] >= kan_removes(kan_type),
        kan_melds(kan_type, num_melds as int) <= 255,
        shanten_defined(
            hand@.update(
                kan_tile.index(),
                (hand@[kan_tile.index()] - kan_removes(kan_type)) as u8,
            ),
            kan_melds(kan_type, num_melds as int),
        ),
    ensures
        s == best_shanten(
            hand@.update(
                kan_tile.index(),
                (hand@[kan_tile.index()] - kan_removes(kan_type)) as u8,
            ),
            kan_melds(kan_type, num_melds as int),
        ).0,
        kan_type == KanType::Added ==> s == best_shanten(
            hand@.update(kan_tile.index(), (hand@[kan_tile.index()] - 1) as u8),
            num_melds as int,
        ).0,
        kan_type == KanType::Open ==> s == best_shanten(
            hand@.update(kan_tile.index(), (hand@[kan_tile.index()] - 3) as u8),
            num_melds + 1,
        ).0,
        kan_type == KanType::Closed ==> s == best_shanten(
            hand@.update(kan_tile.index(), (hand@[kan_tile.index()] - 4) as u8),
            num_melds + 1,
        ).0,
{
    proof {
        lemma_kan_hand(hand@, kan_tile.index(), kan_type, num_melds as int);
    }
    let mut arr = counts_to_array(hand);
    let kt = tile_to_index(kan_tile);

    let (remove, melds) = match kan_type {
        KanType::Open => (3u8, num_melds + 1),
        KanType::Closed => (4u8, num_melds + 1),
        KanType::Added => (1u8, num_melds),
    };
    arr[kt] = arr[kt] - remove;
    assert(arr@ =~= hand@.update(kt as int, (hand@[kt as int] - remove) as u8));
    let counts = array_to_tilecounts(&arr);
    calculate_shanten_with_melds(&counts, melds).shanten
}

} // verus!
