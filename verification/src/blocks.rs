//! Splitting a 34-slot count array into complete melds (runs and triplets)
//! and two-tile blocks (pairs and partial runs), suit by suit.
//!
//! The split is greedy: each pass sweeps the slots of one suit from low to
//! high and takes as many blocks of its shape as the slots allow. It is a
//! quick count; the shanten calculation itself takes the best of every
//! arrangement of the hand (see `arrange`).

use vstd::prelude::*;

verus! {

// ---------------------------------------------------------------------------
// Tile totals
// ---------------------------------------------------------------------------

/// Number of tiles in a count sequence.
pub open spec fn total(s: Seq<u8>) -> int
    decreases s.len(),
{
    if s.len() == 0 {
        0
    } else {
        total(s.drop_last()) + s.last()
    }
}

pub proof fn lemma_total_update(s: Seq<u8>, i: int, v: u8)
    requires
        0 <= i < s.len(),
    ensures
        total(s.update(i, v)) == total(s) - s[i] + v,
    decreases s.len(),
{
    if i == s.len() - 1 {
        assert(s.update(i, v).drop_last() =~= s.drop_last());
    } else {
        lemma_total_update(s.drop_last(), i, v);
        assert(s.update(i, v).drop_last() =~= s.drop_last().update(i, v));
    }
}

pub proof fn lemma_total_bounds(s: Seq<u8>, i: int)
    requires
        0 <= i < s.len(),
    ensures
        0 <= s[i] <= total(s),
    decreases s.len(),
{
    lemma_total_nonneg(s.drop_last());
    if i < s.len() - 1 {
        lemma_total_bounds(s.drop_last(), i);
    }
}

pub proof fn lemma_total_zero(s: Seq<u8>)
    requires
        forall|i: int| 0 <= i < s.len() ==> s[i] == 0,
    ensures
        total(s) == 0,
    decreases s.len(),
{
    if s.len() > 0 {
        lemma_total_zero(s.drop_last());
    }
}

pub proof fn lemma_total_nonneg(s: Seq<u8>)
    ensures
        total(s) >= 0,
    decreases s.len(),
{
    if s.len() > 0 {
        lemma_total_nonneg(s.drop_last());
    }
}

// ---------------------------------------------------------------------------
// Passes
// ---------------------------------------------------------------------------

pub open spec fn min3(a: int, b: int, c: int) -> int {
    if a <= b && a <= c {
        a
    } else if b <= c {
        b
    } else {
        c
    }
}

/// Remove `k` runs starting at slot `i`: `k` tiles each from slots i, i+1, i+2.
pub open spec fn take_run(r: Seq<u8>, i: int, k: int) -> Seq<u8> {
    r.update(i, (r[i] - k) as u8).update(i + 1, (r[i + 1] - k) as u8).update(
        i + 2,
        (r[i + 2] - k) as u8,
    )
}

/// Runs pass: for each start slot from `i` up to `end`, take every run
/// (three consecutive tiles) that starts there. Gives (runs taken, tiles left).
pub open spec fn runs_pass(r: Seq<u8>, i: int, end: int) -> (nat, Seq<u8>)
    decreases end - i,
{
    if i >= end {
        (0, r)
    } else {
        let k = min3(r[i] as int, r[i + 1] as int, r[i + 2] as int);
        let rest = runs_pass(take_run(r, i, k), i + 1, end);
        ((rest.0 + k) as nat, rest.1)
    }
}

/// Triplets pass: for each slot from `i` up to `end`, take every triplet
/// of that tile. Gives (triplets taken, tiles left).
pub open spec fn triplets_pass(r: Seq<u8>, i: int, end: int) -> (nat, Seq<u8>)
    decreases end - i,
{
    if i >= end {
        (0, r)
    } else {
        let rest = triplets_pass(r.update(i, (r[i] % 3) as u8), i + 1, end);
        ((rest.0 + r[i] / 3) as nat, rest.1)
    }
}

/// Whether a two-tile block can be taken at slot `i` with its partner at
/// `i + d`; `d == 0` means a pair of the tile at `i`.
pub open spec fn block_fits(r: Seq<u8>, i: int, d: int) -> bool {
    if d == 0 {
        r[i] >= 2
    } else {
        r[i] >= 1 && r[i + d] >= 1
    }
}

/// Remove one two-tile block at slot `i` with partner offset `d`.
pub open spec fn take_block(r: Seq<u8>, i: int, d: int) -> Seq<u8> {
    if d == 0 {
        r.update(i, (r[i] - 2) as u8)
    } else {
        r.update(i, (r[i] - 1) as u8).update(i + d, (r[i + d] - 1) as u8)
    }
}

/// Two-tile pass: for each slot from `i` up to `end`, take at most one block
/// made of that slot and the slot `d` higher (a pair when `d == 0`, a
/// side-by-side partial run when `d == 1`, a run missing its middle when
/// `d == 2`). Gives (blocks taken, tiles left).
pub open spec fn blocks_pass(r: Seq<u8>, i: int, end: int, d: int) -> (nat, Seq<u8>)
    decreases end - i,
{
    if i >= end {
        (0, r)
    } else if block_fits(r, i, d) {
        let rest = blocks_pass(take_block(r, i, d), i + 1, end, d);
        ((rest.0 + 1) as nat, rest.1)
    } else {
        blocks_pass(r, i + 1, end, d)
    }
}

/// Complete melds of the suit starting at `start`, runs taken before triplets.
pub open spec fn sequences_first(t: Seq<u8>, start: int) -> (nat, Seq<u8>) {
    let a = runs_pass(t, start, start + 7);
    let b = triplets_pass(a.1, start, start + 9);
    (a.0 + b.0, b.1)
}

/// Complete melds of the suit starting at `start`, triplets taken before runs.
pub open spec fn triplets_first(t: Seq<u8>, start: int) -> (nat, Seq<u8>) {
    let a = triplets_pass(t, start, start + 9);
    let b = runs_pass(a.1, start, start + 7);
    (a.0 + b.0, b.1)
}

/// `t` with the nine slots of the suit at `start` taken from `r`.
pub open spec fn splice_suit(t: Seq<u8>, r: Seq<u8>, start: int) -> Seq<u8> {
    Seq::new(t.len(), |j: int| if start <= j < start + 9 { r[j] } else { t[j] })
}

/// The better of the two meld orders: runs first unless triplets first
/// gives strictly more melds.
pub open spec fn best_melds(t: Seq<u8>, start: int) -> (nat, Seq<u8>) {
    let s = sequences_first(t, start);
    let p = triplets_first(t, start);
    if s.0 >= p.0 {
        s
    } else {
        p
    }
}

/// (melds, two-tile blocks, tiles left) for the suit at `start`: the better
/// meld order, then pairs, then side-by-side partial runs, then partial runs
/// with a gap, each from what the previous step left.
pub open spec fn suit_blocks(t: Seq<u8>, start: int) -> (nat, nat, Seq<u8>) {
    let best = best_melds(t, start);
    let pairs = blocks_pass(best.1, start, start + 9, 0);
    let sides = blocks_pass(pairs.1, start, start + 8, 1);
    let gaps = blocks_pass(sides.1, start, start + 7, 2);
    (best.0, pairs.0 + sides.0 + gaps.0, splice_suit(t, gaps.1, start))
}

/// (triplets, pairs) among honor slots `i` up to `end`: each honor gives at
/// most one triplet and then at most one pair from what is left.
pub open spec fn honor_blocks(r: Seq<u8>, i: int, end: int) -> (nat, nat)
    decreases end - i,
{
    if i >= end {
        (0, 0)
    } else {
        let c = r[i] as int;
        let m: nat = if c >= 3 { 1 } else { 0 };
        let left = if c >= 3 { c - 3 } else { c };
        let p: nat = if left >= 2 { 1 } else { 0 };
        let rest = honor_blocks(r, i + 1, end);
        (rest.0 + m, rest.1 + p)
    }
}

/// (complete melds, two-tile blocks) of a whole 34-slot hand: man, pin and
/// sou in turn, each from what the previous suit left, then the honors.
pub open spec fn melds_and_taatsu(t: Seq<u8>) -> (nat, nat) {
    let a = suit_blocks(t, 0);
    let b = suit_blocks(a.2, 9);
    let c = suit_blocks(b.2, 18);
    let h = honor_blocks(c.2, 27, 34);
    (a.0 + b.0 + c.0 + h.0, a.1 + b.1 + c.1 + h.1)
}


// ---------------------------------------------------------------------------
// Every pass keeps the tiles: what it takes plus what it leaves is what it got
// ---------------------------------------------------------------------------

pub proof fn lemma_take_run(r: Seq<u8>, i: int, k: int)
    requires
        0 <= i,
        i + 2 < r.len(),
        0 <= k <= min3(r[i] as int, r[i + 1] as int, r[i + 2] as int),
    ensures
        take_run(r, i, k).len() == r.len(),
        total(take_run(r, i, k)) == total(r) - 3 * k,
        take_run(r, i, k)[i] == r[i] - k,
        take_run(r, i, k)[i + 1] == r[i + 1] - k,
        take_run(r, i, k)[i + 2] == r[i + 2] - k,
        forall|j: int| 0 <= j < r.len() && j != i && j != i + 1 && j != i + 2
            ==> #[trigger] take_run(r, i, k)[j] == r[j],
{
    let r1 = r.update(i, (r[i] - k) as u8);
    let r2 = r1.update(i + 1, (r[i + 1] - k) as u8);
    lemma_total_update(r, i, (r[i] - k) as u8);
    lemma_total_update(r1, i + 1, (r[i + 1] - k) as u8);
    lemma_total_update(r2, i + 2, (r[i + 2] - k) as u8);
}

pub proof fn lemma_runs_pass(r: Seq<u8>, i: int, end: int)
    requires
        0 <= i,
        end + 2 <= r.len(),
    ensures
        runs_pass(r, i, end).1.len() == r.len(),
        3 * runs_pass(r, i, end).0 + total(runs_pass(r, i, end).1) == total(r),
        forall|j: int|
            0 <= j < r.len() && (j < i || j >= end + 2) ==> #[trigger] runs_pass(r, i, end).1[j]
                == r[j],
        forall|j: int| 0 <= j < r.len() ==> #[trigger] runs_pass(r, i, end).1[j] <= r[j],
    decreases end - i,
{
    if i < end {
        let k = min3(r[i] as int, r[i + 1] as int, r[i + 2] as int);
        let r1 = take_run(r, i, k);
        lemma_take_run(r, i, k);
        lemma_runs_pass(r1, i + 1, end);
        assert forall|j: int| 0 <= j < r.len() implies #[trigger] runs_pass(r, i, end).1[j] <= r[j] by {
            assert(runs_pass(r1, i + 1, end).1[j] <= r1[j]);
        }
    }
}

pub proof fn lemma_triplets_pass(r: Seq<u8>, i: int, end: int)
    requires
        0 <= i,
        end <= r.len(),
    ensures
        triplets_pass(r, i, end).1.len() == r.len(),
        3 * triplets_pass(r, i, end).0 + total(triplets_pass(r, i, end).1) == total(r),
        forall|j: int|
            0 <= j < r.len() && (j < i || j >= end) ==> #[trigger] triplets_pass(r, i, end).1[j]
                == r[j],
        forall|j: int| 0 <= j < r.len() ==> #[trigger] triplets_pass(r, i, end).1[j] <= r[j],
    decreases end - i,
{
    if i < end {
        let r1 = r.update(i, (r[i] % 3) as u8);
        lemma_total_update(r, i, (r[i] % 3) as u8);
        lemma_triplets_pass(r1, i + 1, end);
        assert forall|j: int| 0 <= j < r.len() implies #[trigger] triplets_pass(r, i, end).1[j]
            <= r[j] by {
            assert(triplets_pass(r1, i + 1, end).1[j] <= r1[j]);
        }
    }
}

pub proof fn lemma_blocks_pass(r: Seq<u8>, i: int, end: int, d: int)
    requires
        0 <= i,
        0 <= d <= 2,
        end + d <= r.len(),
    ensures
        blocks_pass(r, i, end, d).1.len() == r.len(),
        2 * blocks_pass(r, i, end, d).0 + total(blocks_pass(r, i, end, d).1) == total(r),
        forall|j: int|
            0 <= j < r.len() && (j < i || j >= end + d) ==> #[trigger] blocks_pass(
                r,
                i,
                end,
                d,
            ).1[j] == r[j],
        forall|j: int| 0 <= j < r.len() ==> #[trigger] blocks_pass(r, i, end, d).1[j] <= r[j],
    decreases end - i,
{
    if i < end {
        if block_fits(r, i, d) {
            let r1 = take_block(r, i, d);
            if d == 0 {
                lemma_total_update(r, i, (r[i] - 2) as u8);
            } else {
                let ra = r.update(i, (r[i] - 1) as u8);
                lemma_total_update(r, i, (r[i] - 1) as u8);
                lemma_total_update(ra, i + d, (r[i + d] - 1) as u8);
            }
            lemma_blocks_pass(r1, i + 1, end, d);
            assert forall|j: int| 0 <= j < r.len() implies #[trigger] blocks_pass(r, i, end, d).1[j]
                <= r[j] by {
                assert(blocks_pass(r1, i + 1, end, d).1[j] <= r1[j]);
            }
        } else {
            lemma_blocks_pass(r, i + 1, end, d);
        }
    }
}

pub proof fn lemma_honor_blocks(r: Seq<u8>, i: int, end: int)
    requires
        0 <= i <= end,
    ensures
        honor_blocks(r, i, end).0 <= end - i,
        honor_blocks(r, i, end).1 <= end - i,
    decreases end - i,
{
    if i < end {
        lemma_honor_blocks(r, i + 1, end);
    }
}

pub proof fn lemma_sequences_first(t: Seq<u8>, start: int)
    requires
        0 <= start,
        start + 9 <= t.len(),
    ensures
        sequences_first(t, start).1.len() == t.len(),
        3 * sequences_first(t, start).0 + total(sequences_first(t, start).1) == total(t),
        forall|j: int|
            0 <= j < t.len() && (j < start || j >= start + 9) ==> #[trigger] sequences_first(
                t,
                start,
            ).1[j] == t[j],
        forall|j: int| 0 <= j < t.len() ==> #[trigger] sequences_first(t, start).1[j] <= t[j],
{
    let a = runs_pass(t, start, start + 7);
    lemma_runs_pass(t, start, start + 7);
    lemma_triplets_pass(a.1, start, start + 9);
    assert forall|j: int| 0 <= j < t.len() implies #[trigger] sequences_first(t, start).1[j]
        <= t[j] by {
        assert(a.1[j] <= t[j]);
        assert(triplets_pass(a.1, start, start + 9).1[j] <= a.1[j]);
    }
}

pub proof fn lemma_triplets_first(t: Seq<u8>, start: int)
    requires
        0 <= start,
        start + 9 <= t.len(),
    ensures
        triplets_first(t, start).1.len() == t.len(),
        3 * triplets_first(t, start).0 + total(triplets_first(t, start).1) == total(t),
        forall|j: int|
            0 <= j < t.len() && (j < start || j >= start + 9) ==> #[trigger] triplets_first(
                t,
                start,
            ).1[j] == t[j],
        forall|j: int| 0 <= j < t.len() ==> #[trigger] triplets_first(t, start).1[j] <= t[j],
{
    let a = triplets_pass(t, start, start + 9);
    lemma_triplets_pass(t, start, start + 9);
    lemma_runs_pass(a.1, start, start + 7);
    assert forall|j: int| 0 <= j < t.len() implies #[trigger] triplets_first(t, start).1[j]
        <= t[j] by {
        assert(a.1[j] <= t[j]);
        assert(runs_pass(a.1, start, start + 7).1[j] <= a.1[j]);
    }
}

/// The blocks of one suit together with what is left hold exactly the
/// tiles of the hand, no slot of the suit grows, and the other slots are
/// left as they were.
pub proof fn lemma_suit_blocks(t: Seq<u8>, start: int)
    requires
        0 <= start,
        start + 9 <= t.len(),
    ensures
        suit_blocks(t, start).2.len() == t.len(),
        3 * suit_blocks(t, start).0 + 2 * suit_blocks(t, start).1 + total(suit_blocks(t, start).2)
            == total(t),
        suit_blocks(t, start).0 == if sequences_first(t, start).0 >= triplets_first(t, start).0 {
            sequences_first(t, start).0
        } else {
            triplets_first(t, start).0
        },
        forall|j: int|
            0 <= j < t.len() && (j < start || j >= start + 9) ==> #[trigger] suit_blocks(
                t,
                start,
            ).2[j] == t[j],
        forall|j: int| 0 <= j < t.len() ==> #[trigger] suit_blocks(t, start).2[j] <= t[j],
{
    lemma_sequences_first(t, start);
    lemma_triplets_first(t, start);
    let best = best_melds(t, start);
    lemma_blocks_pass(best.1, start, start + 9, 0);
    let pairs = blocks_pass(best.1, start, start + 9, 0);
    lemma_blocks_pass(pairs.1, start, start + 8, 1);
    let sides = blocks_pass(pairs.1, start, start + 8, 1);
    lemma_blocks_pass(sides.1, start, start + 7, 2);
    let gaps = blocks_pass(sides.1, start, start + 7, 2);
    assert(splice_suit(t, gaps.1, start) =~= gaps.1);
    assert forall|j: int| 0 <= j < t.len() implies #[trigger] suit_blocks(t, start).2[j] <= t[j] by {
        assert(best.1[j] <= t[j]);
        assert(pairs.1[j] <= best.1[j]);
        assert(sides.1[j] <= pairs.1[j]);
        assert(gaps.1[j] <= sides.1[j]);
    }
}


/// Totals of prefixes grow with the prefix and end at the whole total.
pub proof fn lemma_total_prefix(s: Seq<u8>, i: int)
    requires
        0 <= i < s.len(),
    ensures
        total(s.take(i + 1)) == total(s.take(i)) + s[i],
        total(s.take(i + 1)) <= total(s),
    decreases s.len() - i,
{
    assert(s.take(i + 1).drop_last() =~= s.take(i));
    if i + 1 < s.len() {
        lemma_total_prefix(s, i + 1);
        lemma_total_bounds(s, i + 1);
    } else {
        assert(s.take(i + 1) =~= s);
    }
}

// ---------------------------------------------------------------------------
// Executable passes
// ---------------------------------------------------------------------------

/// Extract melds preferring sequences first.
///
/// Sweeps the nine slots of the suit at `start`: first takes every run it can
/// from each start slot, low to high, then every triplet from what is left.
/// Gives the number of melds and the array with them removed.
pub fn extract_melds_sequences_first(tiles: &[u8; 34], start: usize) -> (res: (u8, [u8; 34]))
    requires
        start + 9 <= 34,
        sequences_first(tiles@, start as int).0 <= 255,
    ensures
        res.0 == sequences_first(tiles@, start as int).0,
        res.1@ == sequences_first(tiles@, start as int).1,
{
    let mut remaining = *tiles;
    let mut melds: u8 = 0;
    let ghost runs = runs_pass(tiles@, start as int, start + 7);
    let ghost trips = triplets_pass(runs.1, start as int, start + 9);

    // Runs first
    let mut i: usize = start;
    while i < start + 7
        invariant
            start + 9 <= 34,
            start <= i <= start + 7,
            runs == runs_pass(tiles@, start as int, start + 7),
            trips == triplets_pass(runs.1, start as int, start + 9),
            runs.0 + trips.0 <= 255,
            melds + runs_pass(remaining@, i as int, start + 7).0 == runs.0,
            runs_pass(remaining@, i as int, start + 7).1 == runs.1,
        decreases start + 7 - i,
    {
        let ghost before = remaining@;
        let ghost k = min3(before[i as int] as int, before[i + 1] as int, before[i + 2] as int);
        let ghost melds_before = melds;
        let ghost mut taken: int = 0;
        proof {
            assert(take_run(before, i as int, 0) =~= before);
        }
        while remaining[i] >= 1 && remaining[i + 1] >= 1 && remaining[i + 2] >= 1
            invariant
                start + 9 <= 34,
                start <= i < start + 7,
                runs.0 + trips.0 <= 255,
                melds_before + runs_pass(before, i as int, start + 7).0 == runs.0,
                before.len() == 34,
                k == min3(before[i as int] as int, before[i + 1] as int, before[i + 2] as int),
                0 <= taken <= k,
                remaining@ == take_run(before, i as int, taken),
                melds == melds_before + taken,
            decreases k - taken,
        {
            proof {
                lemma_take_run(before, i as int, taken);
            }
            melds = melds + 1;
            remaining[i] = remaining[i] - 1;
            remaining[i + 1] = remaining[i + 1] - 1;
            remaining[i + 2] = remaining[i + 2] - 1;
            proof {
                taken = taken + 1;
                assert(remaining@ =~= take_run(before, i as int, taken));
            }
        }
        proof {
            lemma_take_run(before, i as int, taken);
            assert(taken == k);
        }
        i = i + 1;
    }

    // Then triplets
    let mut j: usize = start;
    while j < start + 9
        invariant
            start + 9 <= 34,
            start <= j <= start + 9,
            runs.0 + trips.0 <= 255,
            melds + triplets_pass(remaining@, j as int, start + 9).0 == runs.0 + trips.0,
            triplets_pass(remaining@, j as int, start + 9).1 == trips.1,
        decreases start + 9 - j,
    {
        let ghost before = remaining@;
        let ghost melds_before = melds;
        while remaining[j] >= 3
            invariant
                start + 9 <= 34,
                start <= j < start + 9,
                runs.0 + trips.0 <= 255,
                melds_before + triplets_pass(before, j as int, start + 9).0 == runs.0 + trips.0,
                before.len() == 34,
                remaining@ == before.update(j as int, remaining[j as int]),
                remaining[j as int] % 3 == before[j as int] % 3,
                remaining[j as int] <= before[j as int],
                melds == melds_before + (before[j as int] - remaining[j as int]) / 3,
            decreases remaining[j as int],
        {
            melds = melds + 1;
            remaining[j] = remaining[j] - 3;
            proof {
                assert(remaining@ =~= before.update(j as int, remaining[j as int]));
            }
        }
        proof {
            assert(remaining@ =~= before.update(j as int, (before[j as int] % 3) as u8));
        }
        j = j + 1;
    }
    (melds, remaining)
}


/// Extract melds preferring triplets first.
///
/// Sweeps the nine slots of the suit at `start`: first takes every triplet,
/// then every run it can from each start slot, low to high.
/// Gives the number of melds and the array with them removed.
pub fn extract_melds_triplets_first(tiles: &[u8; 34], start: usize) -> (res: (u8, [u8; 34]))
    requires
        start + 9 <= 34,
        triplets_first(tiles@, start as int).0 <= 255,
    ensures
        res.0 == triplets_first(tiles@, start as int).0,
        res.1@ == triplets_first(tiles@, start as int).1,
{
    let mut remaining = *tiles;
    let mut melds: u8 = 0;
    let ghost trips = triplets_pass(tiles@, start as int, start + 9);
    let ghost runs = runs_pass(trips.1, start as int, start + 7);

    // Triplets first
    let mut j: usize = start;
    while j < start + 9
        invariant
            start + 9 <= 34,
            start <= j <= start + 9,
            trips == triplets_pass(tiles@, start as int, start + 9),
            runs == runs_pass(trips.1, start as int, start + 7),
            runs.0 + trips.0 <= 255,
            melds + triplets_pass(remaining@, j as int, start + 9).0 == trips.0,
            triplets_pass(remaining@, j as int, start + 9).1 == trips.1,
        decreases start + 9 - j,
    {
        let ghost before = remaining@;
        let ghost melds_before = melds;
        while remaining[j] >= 3
            invariant
                start + 9 <= 34,
                start <= j < start + 9,
                runs.0 + trips.0 <= 255,
                melds_before + triplets_pass(before, j as int, start + 9).0 == trips.0,
                before.len() == 34,
                remaining@ == before.update(j as int, remaining[j as int]),
                remaining[j as int] % 3 == before[j as int] % 3,
                remaining[j as int] <= before[j as int],
                melds == melds_before + (before[j as int] - remaining[j as int]) / 3,
            decreases remaining[j as int],
        {
            melds = melds + 1;
            remaining[j] = remaining[j] - 3;
            proof {
                assert(remaining@ =~= before.update(j as int, remaining[j as int]));
            }
        }
        proof {
            assert(remaining@ =~= before.update(j as int, (before[j as int] % 3) as u8));
        }
        j = j + 1;
    }

    // Then runs
    let mut i: usize = start;
    while i < start + 7
        invariant
            start + 9 <= 34,
            start <= i <= start + 7,
            runs.0 + trips.0 <= 255,
            melds + runs_pass(remaining@, i as int, start + 7).0 == trips.0 + runs.0,
            runs_pass(remaining@, i as int, start + 7).1 == runs.1,
        decreases start + 7 - i,
    {
        let ghost before = remaining@;
        let ghost k = min3(before[i as int] as int, before[i + 1] as int, before[i + 2] as int);
        let ghost melds_before = melds;
        let ghost mut taken: int = 0;
        proof {
            assert(take_run(before, i as int, 0) =~= before);
        }
        while remaining[i] >= 1 && remaining[i + 1] >= 1 && remaining[i + 2] >= 1
            invariant
                start + 9 <= 34,
                start <= i < start + 7,
                runs.0 + trips.0 <= 255,
                melds_before + runs_pass(before, i as int, start + 7).0 == trips.0 + runs.0,
                before.len() == 34,
                k == min3(before[i as int] as int, before[i + 1] as int, before[i + 2] as int),
                0 <= taken <= k,
                remaining@ == take_run(before, i as int, taken),
                melds == melds_before + taken,
            decreases k - taken,
        {
            proof {
                lemma_take_run(before, i as int, taken);
            }
            melds = melds + 1;
            remaining[i] = remaining[i] - 1;
            remaining[i + 1] = remaining[i + 1] - 1;
            remaining[i + 2] = remaining[i + 2] - 1;
            proof {
                taken = taken + 1;
                assert(remaining@ =~= take_run(before, i as int, taken));
            }
        }
        proof {
            lemma_take_run(before, i as int, taken);
            assert(taken == k);
        }
        i = i + 1;
    }
    (melds, remaining)
}


/// Count melds and taatsu for a single suit, leaving in `tiles` what is not
/// used by any block.
fn count_suit_melds(tiles: &mut [u8; 34], start: usize) -> (res: (u8, u8))
    requires
        start + 9 <= 34,
        total(old(tiles)@) <= 255,
    ensures
        res.0 == suit_blocks(old(tiles)@, start as int).0,
        res.1 == suit_blocks(old(tiles)@, start as int).1,
        final(tiles)@ == suit_blocks(old(tiles)@, start as int).2,
        forall|j: int| 0 <= j < 34 ==> #[trigger] final(tiles)@[j] <= old(tiles)@[j],
{
    let ghost t = tiles@;
    proof {
        lemma_sequences_first(t, start as int);
        lemma_triplets_first(t, start as int);
        lemma_total_nonneg(sequences_first(t, start as int).1);
        lemma_total_nonneg(triplets_first(t, start as int).1);
        lemma_suit_blocks(t, start as int);
        lemma_total_nonneg(suit_blocks(t, start as int).2);
    }
    let mut taatsu: u8 = 0;

    // First pass: complete melds, in whichever order gives more
    let (m1, remaining1) = extract_melds_sequences_first(tiles, start);
    let (m2, remaining2) = extract_melds_triplets_first(tiles, start);
    let (melds, mut remaining) = if m1 >= m2 {
        (m1, remaining1)
    } else {
        (m2, remaining2)
    };
    let ghost best = best_melds(t, start as int);
    let ghost pairs = blocks_pass(best.1, start as int, start + 9, 0);
    let ghost sides = blocks_pass(pairs.1, start as int, start + 8, 1);
    let ghost gaps = blocks_pass(sides.1, start as int, start + 7, 2);
    assert(remaining@ == best.1);

    // Second pass: two-tile blocks from what is left. Pairs
    let mut k: usize = start;
    while k < start + 9
        invariant
            start + 9 <= 34,
            start <= k <= start + 9,
            pairs.0 + sides.0 + gaps.0 <= 127,
            taatsu + blocks_pass(remaining@, k as int, start + 9, 0).0 == pairs.0,
            blocks_pass(remaining@, k as int, start + 9, 0).1 == pairs.1,
        decreases start + 9 - k,
    {
        if remaining[k] >= 2 {
            taatsu = taatsu + 1;
            remaining[k] = remaining[k] - 2;
        }
        k = k + 1;
    }

    // Side-by-side partial runs (like 12, 23, 89)
    let mut k: usize = start;
    while k < start + 8
        invariant
            start + 9 <= 34,
            start <= k <= start + 8,
            pairs.0 + sides.0 + gaps.0 <= 127,
            taatsu + blocks_pass(remaining@, k as int, start + 8, 1).0 == pairs.0 + sides.0,
            blocks_pass(remaining@, k as int, start + 8, 1).1 == sides.1,
        decreases start + 8 - k,
    {
        if remaining[k] >= 1 && remaining[k + 1] >= 1 {
            taatsu = taatsu + 1;
            remaining[k] = remaining[k] - 1;
            remaining[k + 1] = remaining[k + 1] - 1;
        }
        k = k + 1;
    }

    // Partial runs with a gap (like 13, 24)
    let mut k: usize = start;
    while k < start + 7
        invariant
            start + 9 <= 34,
            start <= k <= start + 7,
            pairs.0 + sides.0 + gaps.0 <= 127,
            taatsu + blocks_pass(remaining@, k as int, start + 7, 2).0 == pairs.0 + sides.0
                + gaps.0,
            blocks_pass(remaining@, k as int, start + 7, 2).1 == gaps.1,
        decreases start + 7 - k,
    {
        if remaining[k] >= 1 && remaining[k + 2] >= 1 {
            taatsu = taatsu + 1;
            remaining[k] = remaining[k] - 1;
            remaining[k + 2] = remaining[k + 2] - 1;
        }
        k = k + 1;
    }

    // Write the suit's slots back
    let mut k: usize = start;
    while k < start + 9
        invariant
            start + 9 <= 34,
            start <= k <= start + 9,
            remaining@ == gaps.1,
            t.len() == 34,
            tiles@ == Seq::new(34, |j: int| if start <= j < k { gaps.1[j] } else { t[j] }),
        decreases start + 9 - k,
    {
        tiles[k] = remaining[k];
        k = k + 1;
        proof {
            assert(tiles@ =~= Seq::new(
                34,
                |j: int| if start <= j < k { gaps.1[j] } else { t[j] },
            ));
        }
    }
    proof {
        assert(tiles@ =~= splice_suit(t, gaps.1, start as int));
    }
    (melds, taatsu)
}

/// Count complete melds and incomplete melds (taatsu) in the tiles, by the
/// greedy split: a quick count, which may find fewer blocks than the best
/// arrangement of the hand holds.
pub fn count_melds_and_taatsu(tiles: &[u8; 34]) -> (res: (u8, u8))
    requires
        total(tiles@) <= 255,
    ensures
        res.0 == melds_and_taatsu(tiles@).0,
        res.1 == melds_and_taatsu(tiles@).1,
{
    let ghost t = tiles@;
    let ghost a = suit_blocks(t, 0);
    let ghost b = suit_blocks(a.2, 9);
    let ghost c = suit_blocks(b.2, 18);
    let ghost h = honor_blocks(c.2, 27, 34);
    proof {
        lemma_suit_blocks(t, 0);
        lemma_suit_blocks(a.2, 9);
        lemma_suit_blocks(b.2, 18);
        lemma_total_nonneg(a.2);
        lemma_total_nonneg(b.2);
        lemma_total_nonneg(c.2);
        lemma_honor_blocks(c.2, 27, 34);
    }
    let mut tiles = *tiles;

    // Each suit in turn (indices 0-8, 9-17, 18-26)
    let (m0, t0) = count_suit_melds(&mut tiles, 0);
    let (m1, t1) = count_suit_melds(&mut tiles, 9);
    let (m2, t2) = count_suit_melds(&mut tiles, 18);
    let mut melds: u8 = m0 + m1 + m2;
    let mut taatsu: u8 = t0 + t1 + t2;

    // Honors (27-33) can only form triplets and pairs
    let mut idx: usize = 27;
    while idx < 34
        invariant
            27 <= idx <= 34,
            c.2.len() == 34,
            h == honor_blocks(c.2, 27, 34),
            h.0 <= 7,
            h.1 <= 7,
            a.0 + b.0 + c.0 <= 85,
            a.1 + b.1 + c.1 <= 127,
            forall|j: int| idx <= j < 34 ==> tiles@[j] == c.2[j],
            melds + honor_blocks(c.2, idx as int, 34).0 == a.0 + b.0 + c.0 + h.0,
            taatsu + honor_blocks(c.2, idx as int, 34).1 == a.1 + b.1 + c.1 + h.1,
        decreases 34 - idx,
    {
        proof {
            lemma_honor_blocks(c.2, idx + 1, 34);
        }
        if tiles[idx] >= 3 {
            melds = melds + 1;
            tiles[idx] = tiles[idx] - 3;
        }
        if tiles[idx] >= 2 {
            taatsu = taatsu + 1;
            tiles[idx] = tiles[idx] - 2;
        }
        idx = idx + 1;
    }
    (melds, taatsu)
}

} // verus!
