//! Tile counts and hand notation.
//!
//! A hand is written as groups of digits each closed by a suit letter:
//! `m` (man), `p` (pin), `s` (sou) and `z` (honors 1–7 = East, South, West,
//! North, White, Green, Red). A `0` stands for a red five of its suit.

use vstd::prelude::*;

use vstd::string::StringExecFns;

use crate::blocks::{lemma_total_update, lemma_total_zero, total};
use crate::text::{decimal, push_char, push_decimal, push_tile_debug, tile_debug};
use crate::tile::{honor_at, index_to_tile, tile_at, tile_to_index, Honor, Suit, Tile};

verus! {

/// How many copies of each of the 34 tile kinds a hand holds, indexed by
/// tile index; a kind that is absent has count 0.
#[derive(Debug, Clone, Copy)]
pub struct TileCounts {
    pub counts: [u8; 34],
}

/// Result of parsing a hand, including red five (akadora) count
#[derive(Debug, Clone)]
pub struct ParsedHand {
    pub tiles: Vec<Tile>,
    /// Number of red fives (0m, 0p, 0s)
    pub aka_count: u8,
}

impl View for TileCounts {
    type V = Seq<u8>;

    open spec fn view(&self) -> Seq<u8> {
        self.counts@
    }
}

impl TileCounts {
    /// Counts with no tiles.
    pub fn new() -> (c: TileCounts)
        ensures
            c@ == Seq::new(34, |i: int| 0u8),
    {
        let c = TileCounts { counts: [0u8; 34] };
        assert(c@ =~= Seq::new(34, |i: int| 0u8));
        c
    }

    /// Set the count of `tile`.
    pub fn insert(&mut self, tile: Tile, count: u8)
        requires
            tile.wf(),
        ensures
            final(self)@ == old(self)@.update(tile.index(), count),
    {
        let idx = tile_to_index(tile);
        self.counts[idx] = count;
    }

    /// The count of `tile` (0 when absent).
    pub fn get(&self, tile: Tile) -> (n: u8)
        requires
            tile.wf(),
        ensures
            n == self@[tile.index()],
    {
        self.counts[tile_to_index(tile)]
    }
}

// ---------------------------------------------------------------------------
// Hand notation
// ---------------------------------------------------------------------------

/// Where a scan of hand notation stands after a prefix of the input: the
/// tiles read so far, the red fives among them, the digits still waiting
/// for their suit letter (value, red), and the error met, if any.
pub struct Scan {
    pub tiles: Seq<Tile>,
    pub aka: nat,
    pub pending: Seq<(u8, bool)>,
    pub error: Option<Seq<char>>,
}

/// The suit a letter closes a digit group with (`z`, honors, is apart).
pub open spec fn letter_suit(c: char) -> Option<Suit> {
    if c == 'm' {
        Some(Suit::Man)
    } else if c == 'p' {
        Some(Suit::Pin)
    } else if c == 's' {
        Some(Suit::Sou)
    } else {
        None
    }
}

/// Digits `1`–`9`.
pub open spec fn is_nonzero_digit(c: char) -> bool {
    49 <= (c as u32) <= 57
}

/// Waiting digits read as tiles of `suit`.
pub open spec fn suited_run(p: Seq<(u8, bool)>, suit: Suit) -> Seq<Tile> {
    p.map_values(|e: (u8, bool)| Tile::Suited { suit, value: e.0 })
}

/// Number of red fives among waiting digits.
pub open spec fn reds(p: Seq<(u8, bool)>) -> nat
    decreases p.len(),
{
    if p.len() == 0 {
        0
    } else {
        reds(p.drop_last()) + (if p.last().1 { 1nat } else { 0nat })
    }
}

/// Waiting digits read as honors, in order; the first digit that is a red
/// five or not 1–7 gives an error instead.
pub open spec fn honor_run(p: Seq<(u8, bool)>) -> Result<Seq<Tile>, Seq<char>>
    decreases p.len(),
{
    if p.len() == 0 {
        Ok(Seq::empty())
    } else {
        match honor_run(p.drop_last()) {
            Err(e) => Err(e),
            Ok(hs) => {
                let n = p.last().0;
                if p.last().1 {
                    Err("Red fives (0) cannot be used with honors (z)"@)
                } else if 1 <= n <= 7 {
                    Ok(hs.push(Tile::Honor(honor_at(n - 1))))
                } else {
                    Err("Invalid honor number: "@ + decimal(n as nat))
                }
            },
        }
    }
}

/// One character of hand notation: a digit waits for its suit letter
/// (`0` is a red five), a suit letter turns the waiting digits into tiles,
/// blanks are skipped, anything else is an error. After an error nothing
/// changes.
pub open spec fn scan_step(st: Scan, c: char) -> Scan {
    if st.error is Some {
        st
    } else if is_nonzero_digit(c) {
        Scan {
            tiles: st.tiles,
            aka: st.aka,
            pending: st.pending.push((((c as u32) - 48) as u8, false)),
            error: None,
        }
    } else if c == '0' {
        Scan { tiles: st.tiles, aka: st.aka, pending: st.pending.push((5u8, true)), error: None }
    } else if letter_suit(c) is Some {
        Scan {
            tiles: st.tiles + suited_run(st.pending, letter_suit(c)->0),
            aka: st.aka + reds(st.pending),
            pending: Seq::empty(),
            error: None,
        }
    } else if c == 'z' {
        match honor_run(st.pending) {
            Ok(hs) => Scan { tiles: st.tiles + hs, aka: st.aka, pending: Seq::empty(), error: None },
            Err(e) => Scan { tiles: st.tiles, aka: st.aka, pending: st.pending, error: Some(e) },
        }
    } else if c == ' ' || c == '\t' || c == '\n' {
        st
    } else {
        Scan {
            tiles: st.tiles,
            aka: st.aka,
            pending: st.pending,
            error: Some("Unexpected character: "@.push(c)),
        }
    }
}

/// The scan after reading all of `s`.
pub open spec fn scan(s: Seq<char>) -> Scan
    decreases s.len(),
{
    if s.len() == 0 {
        Scan { tiles: Seq::empty(), aka: 0, pending: Seq::empty(), error: None }
    } else {
        scan_step(scan(s.drop_last()), s.last())
    }
}

/// What parsing `s` gives: the first error met, or an error for digits left
/// without a suit letter, or the tiles and the count of red fives.
pub open spec fn parse_result(s: Seq<char>) -> Result<(Seq<Tile>, nat), Seq<char>> {
    let st = scan(s);
    match st.error {
        Some(e) => Err(e),
        None => if st.pending.len() > 0 {
            Err("Trailing numbers without suit suffix"@)
        } else {
            Ok((st.tiles, st.aka))
        },
    }
}

/// Waiting digits are 1–9, and a red one is a five.
pub open spec fn pending_ok(p: Seq<(u8, bool)>) -> bool {
    forall|k: int| 0 <= k < p.len() ==> 1 <= #[trigger] p[k].0 <= 9 && (p[k].1 ==> p[k].0 == 5)
}

/// The scan only ever holds well-formed tiles and digits 1–9; once it meets
/// an error it keeps it; its count of red fives only grows.
pub proof fn lemma_scan_prefix(s: Seq<char>, i: int)
    requires
        0 <= i <= s.len(),
    ensures
        all_wf(scan(s.take(i)).tiles),
        pending_ok(scan(s.take(i)).pending),
        scan(s.take(i)).aka <= scan(s).aka,
        scan(s.take(i)).error is Some ==> scan(s).error == scan(s.take(i)).error,
    decreases s.len(),
{
    if i == s.len() {
        assert(s.take(i) =~= s);
        lemma_scan_wf(s);
    } else {
        lemma_scan_prefix(s.drop_last(), i);
        assert(s.drop_last().take(i) =~= s.take(i));
    }
}

pub proof fn lemma_honor_run_wf(p: Seq<(u8, bool)>)
    ensures
        honor_run(p) is Ok ==> all_wf(honor_run(p)->Ok_0),
    decreases p.len(),
{
    if p.len() > 0 {
        lemma_honor_run_wf(p.drop_last());
    }
}

pub proof fn lemma_scan_wf(s: Seq<char>)
    ensures
        all_wf(scan(s).tiles),
        pending_ok(scan(s).pending),
    decreases s.len(),
{
    if s.len() > 0 {
        lemma_scan_wf(s.drop_last());
        let st = scan(s.drop_last());
        lemma_honor_run_wf(st.pending);
        let c = s.last();
        if st.error is None && letter_suit(c) is Some {
            let run = suited_run(st.pending, letter_suit(c)->0);
            assert forall|k: int| 0 <= k < run.len() implies #[trigger] run[k].wf() by {
                assert(st.pending[k].0 >= 1);
            }
        }
    }
}

/// Number of digit characters (`0`–`9`) in `s`.
pub open spec fn digit_chars(s: Seq<char>) -> int
    decreases s.len(),
{
    if s.len() == 0 {
        0
    } else {
        digit_chars(s.drop_last()) + (if is_nonzero_digit(s.last()) || s.last() == '0' {
            1int
        } else {
            0int
        })
    }
}

/// Number of `0` characters (red fives) in `s`.
pub open spec fn zero_chars(s: Seq<char>) -> int
    decreases s.len(),
{
    if s.len() == 0 {
        0
    } else {
        zero_chars(s.drop_last()) + (if s.last() == '0' { 1int } else { 0int })
    }
}

pub proof fn lemma_honor_run_counts(p: Seq<(u8, bool)>)
    ensures
        honor_run(p) is Ok ==> honor_run(p)->Ok_0.len() == p.len() && reds(p) == 0,
    decreases p.len(),
{
    if p.len() > 0 {
        lemma_honor_run_counts(p.drop_last());
    }
}

/// Until an error, every digit read is either a tile or still waiting, and
/// every `0` read is a red five among them.
pub proof fn lemma_scan_counts(s: Seq<char>)
    ensures
        scan(s).error is None ==> {
            &&& scan(s).tiles.len() + scan(s).pending.len() == digit_chars(s)
            &&& scan(s).aka + reds(scan(s).pending) == zero_chars(s)
        },
    decreases s.len(),
{
    if s.len() > 0 {
        lemma_scan_counts(s.drop_last());
        let st = scan(s.drop_last());
        lemma_honor_run_counts(st.pending);
        let c = s.last();
        if st.error is None && (is_nonzero_digit(c) || c == '0') {
            let p2 = scan(s).pending;
            assert(p2.drop_last() =~= st.pending);
        }
    }
}

/// A parsed hand has one tile per digit of the input, and its red-five count
/// is the number of `0` digits.
pub proof fn lemma_parse_counts(s: Seq<char>)
    ensures
        parse_result(s) is Ok ==> {
            &&& parse_result(s)->Ok_0.0.len() == digit_chars(s)
            &&& parse_result(s)->Ok_0.1 == zero_chars(s)
        },
{
    lemma_scan_counts(s);
}

/// Parse a hand string into tiles.
/// Red fives use '0' notation: 0m = red 5m, 0p = red 5p, 0s = red 5s
pub fn parse_hand(input: &str) -> (r: Result<Vec<Tile>, String>)
    requires
        scan(input@).aka <= 255,
    ensures
        match r {
            Ok(tiles) => parse_result(input@) is Ok && tiles@ == parse_result(input@)->Ok_0.0,
            Err(e) => parse_result(input@) == Err::<(Seq<Tile>, nat), Seq<char>>(e@),
        },
        r is Ok ==> all_wf(r->Ok_0@),
{
    match parse_hand_with_aka(input) {
        Ok(parsed) => Ok(parsed.tiles),
        Err(e) => Err(e),
    }
}

/// Parse a hand string, also tracking red five count
pub fn parse_hand_with_aka(input: &str) -> (r: Result<ParsedHand, String>)
    requires
        scan(input@).aka <= 255,
    ensures
        match r {
            Ok(h) => parse_result(input@) == Ok::<(Seq<Tile>, nat), Seq<char>>(
                (h.tiles@, h.aka_count as nat),
            ),
            Err(e) => parse_result(input@) == Err::<(Seq<Tile>, nat), Seq<char>>(e@),
        },
        r is Ok ==> all_wf(r->Ok_0.tiles@),
{
    let ghost s = input@;
    let mut tiles: Vec<Tile> = Vec::new();
    let mut aka_count: u8 = 0;
    // Store (digit, is_red) pairs
    let mut pending: Vec<(u8, bool)> = Vec::new();

    for ch in it: input.chars()
        invariant
            s == input@,
            it.seq() == s,
            scan(s).aka <= 255,
            scan(s.take(it.index() as int)).error is None,
            tiles@ == scan(s.take(it.index() as int)).tiles,
            aka_count == scan(s.take(it.index() as int)).aka,
            pending@ == scan(s.take(it.index() as int)).pending,
    {
        let ghost i = it.index() as int;
        let ghost st = scan(s.take(i));
        proof {
            lemma_scan_prefix(s, i);
            lemma_scan_prefix(s, i + 1);
            assert(s.take(i + 1).drop_last() =~= s.take(i));
            assert(s.take(i + 1).last() == ch);
        }
        let code = #[verifier::truncate] (ch as u32);
        if 49 <= code && code <= 57 {
            let digit = (code - 48) as u8;
            pending.push((digit, false));
        } else if ch == '0' {
            // Red five - treat as 5 but mark as aka
            pending.push((5, true));
        } else if ch == 'm' || ch == 'p' || ch == 's' {
            let suit = if ch == 'm' {
                Suit::Man
            } else if ch == 'p' {
                Suit::Pin
            } else {
                Suit::Sou
            };
            let ghost tiles0 = tiles@;
            let ghost aka0 = aka_count as nat;
            let mut j: usize = 0;
            while j < pending.len()
                invariant
                    j <= pending.len(),
                    pending@ == st.pending,
                    pending_ok(st.pending),
                    aka0 + reds(st.pending) <= 255,
                    tiles@ == tiles0 + suited_run(pending@.take(j as int), suit),
                    aka_count == aka0 + reds(pending@.take(j as int)),
                decreases pending.len() - j,
            {
                let (n, is_red) = pending[j];
                proof {
                    assert(pending@.take(j + 1).drop_last() =~= pending@.take(j as int));
                    lemma_reds_prefix(pending@, j + 1);
                    assert(1 <= pending@[j as int].0 <= 9);
                }
                tiles.push(Tile::suited(suit, n));
                if is_red {
                    aka_count = aka_count + 1;
                }
                j = j + 1;
                proof {
                    assert(suited_run(pending@.take(j as int), suit) =~= suited_run(
                        pending@.take(j - 1),
                        suit,
                    ).push(Tile::Suited { suit, value: n }));
                    assert(tiles@ =~= tiles0 + suited_run(pending@.take(j as int), suit));
                }
            }
            assert(pending@.take(pending.len() as int) =~= pending@);
            pending.clear();
        } else if ch == 'z' {
            let ghost tiles0 = tiles@;
            assert(scan(s.take(i + 1)) == scan_step(st, ch));
            let mut j: usize = 0;
            while j < pending.len()
                invariant
                    j <= pending.len(),
                    pending@ == st.pending,
                    st.error is None,
                    ch == 'z',
                    s == input@,
                    scan(s.take(i + 1)) == scan_step(st, ch),
                    scan(s.take(i + 1)).error is Some ==> scan(s).error == scan(s.take(i + 1)).error,
                    honor_run(pending@.take(j as int)) is Ok,
                    tiles@ == tiles0 + honor_run(pending@.take(j as int))->Ok_0,
                decreases pending.len() - j,
            {
                let (n, is_red) = pending[j];
                proof {
                    assert(pending@.take(j + 1).drop_last() =~= pending@.take(j as int));
                }
                if is_red {
                    let msg = String::from_str("Red fives (0) cannot be used with honors (z)");
                    proof {
                        assert(pending@.take(j + 1).last() == pending@[j as int]);
                        assert(honor_run(pending@.take(j + 1)) == Err::<Seq<Tile>, Seq<char>>(
                            msg@,
                        ));
                        lemma_honor_run_error(pending@, j + 1);
                        assert(scan(s.take(i + 1)).error == Some(msg@));
                    }
                    return Err(msg);
                }
                let honor = if n == 1 {
                    Honor::East
                } else if n == 2 {
                    Honor::South
                } else if n == 3 {
                    Honor::West
                } else if n == 4 {
                    Honor::North
                } else if n == 5 {
                    Honor::White
                } else if n == 6 {
                    Honor::Green
                } else if n == 7 {
                    Honor::Red
                } else {
                    let mut msg = String::from_str("Invalid honor number: ");
                    push_decimal(&mut msg, n as usize);
                    proof {
                        assert(pending@.take(j + 1).last() == pending@[j as int]);
                        assert(honor_run(pending@.take(j + 1)) == Err::<Seq<Tile>, Seq<char>>(
                            msg@,
                        ));
                        lemma_honor_run_error(pending@, j + 1);
                        assert(scan(s.take(i + 1)).error == Some(msg@));
                    }
                    return Err(msg);
                };
                tiles.push(Tile::honor(honor));
                j = j + 1;
                proof {
                    assert(tiles@ =~= tiles0 + honor_run(pending@.take(j as int))->Ok_0);
                }
            }
            assert(pending@.take(pending.len() as int) =~= pending@);
            pending.clear();
        } else if ch == ' ' || ch == '\t' || ch == '\n' {
        } else {
            let mut msg = String::from_str("Unexpected character: ");
            push_char(&mut msg, ch);
            return Err(msg);
        }
    }
    assert(s.take(s.len() as int) =~= s);
    proof {
        lemma_scan_wf(s);
    }

    if pending.len() > 0 {
        return Err(String::from_str("Trailing numbers without suit suffix"));
    }
    Ok(ParsedHand { tiles, aka_count })
}

/// The red fives among the first `j` waiting digits.
pub proof fn lemma_reds_prefix(p: Seq<(u8, bool)>, j: int)
    requires
        0 < j <= p.len(),
    ensures
        reds(p.take(j)) == reds(p.take(j - 1)) + (if p[j - 1].1 { 1nat } else { 0nat }),
        reds(p.take(j)) <= reds(p),
    decreases p.len() - j,
{
    assert(p.take(j).drop_last() =~= p.take(j - 1));
    if j < p.len() {
        lemma_reds_prefix(p, j + 1);
    } else {
        assert(p.take(j) =~= p);
    }
}

/// An error met among the first `j` waiting digits is the error of them all.
pub proof fn lemma_honor_run_error(p: Seq<(u8, bool)>, j: int)
    requires
        0 < j <= p.len(),
        honor_run(p.take(j)) is Err,
    ensures
        honor_run(p) == honor_run(p.take(j)),
    decreases p.len() - j,
{
    if j < p.len() {
        assert(p.take(j + 1).drop_last() =~= p.take(j));
        lemma_honor_run_error(p, j + 1);
    } else {
        assert(p.take(j) =~= p);
    }
}

// ---------------------------------------------------------------------------
// Counting tiles
// ---------------------------------------------------------------------------

/// How many tiles of `s` sit in slot `i`.
pub open spec fn occurrences(s: Seq<Tile>, i: int) -> int
    decreases s.len(),
{
    if s.len() == 0 {
        0
    } else {
        occurrences(s.drop_last(), i) + (if s.last().index() == i { 1int } else { 0int })
    }
}

/// Every tile of `s` is well formed.
pub open spec fn all_wf(s: Seq<Tile>) -> bool {
    forall|k: int| 0 <= k < s.len() ==> #[trigger] s[k].wf()
}

pub proof fn lemma_occurrences_prefix(s: Seq<Tile>, k: int, i: int)
    requires
        0 <= k < s.len(),
    ensures
        occurrences(s.take(k + 1), i) == occurrences(s.take(k), i) + (if s[k].index() == i {
            1int
        } else {
            0int
        }),
        occurrences(s.take(k + 1), i) <= occurrences(s, i),
    decreases s.len() - k,
{
    assert(s.take(k + 1).drop_last() =~= s.take(k));
    if k + 1 < s.len() {
        lemma_occurrences_prefix(s, k + 1, i);
    } else {
        assert(s.take(k + 1) =~= s);
    }
}

pub proof fn lemma_occurrences_len(s: Seq<Tile>, i: int)
    ensures
        0 <= occurrences(s, i) <= s.len(),
    decreases s.len(),
{
    if s.len() > 0 {
        lemma_occurrences_len(s.drop_last(), i);
    }
}

/// Count the tiles of a hand, kind by kind.
pub fn to_counts(tiles: &[Tile]) -> (counts: TileCounts)
    requires
        all_wf(tiles@),
        forall|i: int| 0 <= i < 34 ==> #[trigger] occurrences(tiles@, i) <= 255,
    ensures
        forall|i: int| 0 <= i < 34 ==> #[trigger] counts@[i] == occurrences(tiles@, i),
        total(counts@) == tiles.len(),
{
    let mut counts = TileCounts::new();
    proof {
        lemma_total_zero(counts@);
    }
    let mut k: usize = 0;
    while k < tiles.len()
        invariant
            k <= tiles.len(),
            all_wf(tiles@),
            forall|i: int| 0 <= i < 34 ==> #[trigger] occurrences(tiles@, i) <= 255,
            forall|i: int|
                0 <= i < 34 ==> #[trigger] counts@[i] == occurrences(tiles@.take(k as int), i),
            total(counts@) == k,
        decreases tiles.len() - k,
    {
        let tile = tiles[k];
        proof {
            assert(tiles@[k as int].wf());
        }
        let idx = tile_to_index(tile);
        let ghost before = counts@;
        proof {
            lemma_total_update(before, idx as int, (before[idx as int] + 1) as u8);
            lemma_occurrences_prefix(tiles@, k as int, idx as int);
            assert(counts@[idx as int] == occurrences(tiles@.take(k as int), idx as int));
        }
        counts.counts[idx] = counts.counts[idx] + 1;
        proof {
            assert forall|i: int| 0 <= i < 34 implies #[trigger] counts@[i] == occurrences(
                tiles@.take(k + 1),
                i,
            ) by {
                lemma_occurrences_prefix(tiles@, k as int, i);
                assert(before[i] == occurrences(tiles@.take(k as int), i));
                if i != idx {
                    assert(counts@[i] == before[i]);
                }
            }
        }
        k = k + 1;
        assert(counts@ =~= before.update(idx as int, (before[idx as int] + 1) as u8));
    }
    assert(tiles@.take(tiles.len() as int) =~= tiles@);
    counts
}

// ---------------------------------------------------------------------------
// Validating a hand
// ---------------------------------------------------------------------------

/// The lowest slot from `i` on holding more than four tiles of `s`.
pub open spec fn first_over_four(s: Seq<Tile>, i: int) -> Option<int>
    decreases 34 - i,
{
    if i >= 34 {
        None
    } else if occurrences(s, i) > 4 {
        Some(i)
    } else {
        first_over_four(s, i + 1)
    }
}

/// What `validate_hand` gives: an error unless the hand has exactly 14
/// tiles, then an error naming the lowest tile kind held more than four times.
pub open spec fn validation(s: Seq<Tile>) -> Result<(), Seq<char>> {
    if s.len() != 14 {
        Err("Hand must have 14 tiles, got "@ + decimal(s.len()))
    } else {
        match first_over_four(s, 0) {
            None => Ok(()),
            Some(i) => Err(
                "Tile "@ + tile_debug(tile_at(i)) + " appears "@ + decimal(occurrences(s, i) as nat)
                    + " times (max 4)"@,
            ),
        }
    }
}

pub proof fn lemma_first_over_four(s: Seq<Tile>, i: int)
    requires
        0 <= i <= 34,
    ensures
        first_over_four(s, i) is None <==> forall|j: int| i <= j < 34 ==> occurrences(s, j) <= 4,
    decreases 34 - i,
{
    if i < 34 {
        lemma_first_over_four(s, i + 1);
    }
}

/// Check that a hand has 14 tiles and no tile kind more than four times.
pub fn validate_hand(tiles: &[Tile]) -> (r: Result<(), String>)
    requires
        all_wf(tiles@),
    ensures
        r is Ok <==> tiles.len() == 14 && forall|i: int| 0 <= i < 34 ==> occurrences(tiles@, i) <= 4,
        match r {
            Ok(_) => validation(tiles@) is Ok,
            Err(e) => validation(tiles@) == Err::<(), Seq<char>>(e@),
        },
{
    proof {
        lemma_first_over_four(tiles@, 0);
    }
    if tiles.len() != 14 {
        let mut msg = String::from_str("Hand must have 14 tiles, got ");
        push_decimal(&mut msg, tiles.len());
        return Err(msg);
    }
    proof {
        assert forall|i: int| 0 <= i < 34 implies #[trigger] occurrences(tiles@, i) <= 255 by {
            lemma_occurrences_len(tiles@, i);
        }
    }
    let counts = to_counts(tiles);
    let mut idx: usize = 0;
    while idx < 34
        invariant
            idx <= 34,
            tiles.len() == 14,
            all_wf(tiles@),
            forall|i: int| 0 <= i < 34 ==> #[trigger] counts@[i] == occurrences(tiles@, i),
            first_over_four(tiles@, 0) == first_over_four(tiles@, idx as int),
        decreases 34 - idx,
    {
        let count = counts.counts[idx];
        assert(counts@[idx as int] == occurrences(tiles@, idx as int));
        assert(count == counts@[idx as int]);
        if count > 4 {
            let tile = index_to_tile(idx);
            let mut msg = String::from_str("Tile ");
            push_tile_debug(&mut msg, tile);
            msg.append(" appears ");
            push_decimal(&mut msg, count as usize);
            msg.append(" times (max 4)");
            assert(msg@ =~= "Tile "@ + tile_debug(tile_at(idx as int)) + " appears "@ + decimal(
                occurrences(tiles@, idx as int) as nat,
            ) + " times (max 4)"@);
            return Err(msg);
        }
        idx = idx + 1;
    }
    Ok(())
}

} // verus!
