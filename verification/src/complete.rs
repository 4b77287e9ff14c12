//! A hand the shanten calculation calls complete really is one, and every
//! complete hand is called complete: a hand of 14 - 3k tiles, k melds
//! called, has shanten -1 exactly when it is 4 - k melds and a pair, seven
//! different pairs, or the thirteen orphans with one of them paired.

use vstd::prelude::*;

use crate::blocks::total;
use crate::arrange::{
    arrangement_score, arranges, heads_in, lemma_arrangement_size, lemma_head_index,
    lemma_least_range, lemma_only_melds, lemma_parts_cover, lemma_parts_push, lemma_parts_remove,
    melds_in, part_at, part_ok, parts_at, scores_within, singles_in, taatsu_in, is_meld, Part,
    Shape,
};
use crate::shanten::{
    best_shanten, chiitoitsu_shanten, hand_deficit, is_orphan, kinds_with_at_least,
    kokushi_shanten, lemma_best_is_least, lemma_orphans_bound, lemma_pairs_bound,
    lemma_shanten_range, lemma_standard_shanten_is_least, orphan_slots, orphans_with_at_least,
    standard_shanten, ShantenType,
};

verus! {

/// A meld: three of a kind at `slot`, or a run of three starting at `slot`.
pub struct Meld {
    pub slot: int,
    pub run: bool,
}

/// A triplet lies on any slot; a run starts on a suited slot that leaves
/// room for two more of its suit.
pub open spec fn meld_ok(m: Meld) -> bool {
    &&& 0 <= m.slot < 34
    &&& m.run ==> m.slot < 27 && m.slot % 9 <= 6
}

/// Tiles a meld holds in slot `j`.
pub open spec fn meld_at(m: Meld, j: int) -> int {
    if m.run {
        if m.slot <= j <= m.slot + 2 {
            1
        } else {
            0
        }
    } else if j == m.slot {
        3
    } else {
        0
    }
}

/// Tiles the melds `ms` hold together in slot `j`.
pub open spec fn melds_at(ms: Seq<Meld>, j: int) -> int
    decreases ms.len(),
{
    if ms.len() == 0 {
        0
    } else {
        melds_at(ms.drop_last(), j) + meld_at(ms.last(), j)
    }
}

pub open spec fn all_melds_ok(ms: Seq<Meld>) -> bool {
    forall|k: int| 0 <= k < ms.len() ==> #[trigger] meld_ok(ms[k])
}

/// The melds `ms` make up the hand `t` exactly.
pub open spec fn splits_into(t: Seq<u8>, ms: Seq<Meld>) -> bool {
    &&& all_melds_ok(ms)
    &&& forall|j: int| 0 <= j < 34 ==> #[trigger] t[j] == melds_at(ms, j)
}

/// The hand `t` is exactly `n` melds.
pub open spec fn is_melds(t: Seq<u8>, n: nat) -> bool {
    exists|ms: Seq<Meld>| ms.len() == n && #[trigger] splits_into(t, ms)
}

/// The hand `t` less a pair at slot `p`.
pub open spec fn without_pair(t: Seq<u8>, p: int) -> Seq<u8> {
    t.update(p, (t[p] - 2) as u8)
}

/// With `called` melds called (at most four), the hand is exactly a pair
/// and the `4 - called` melds still to be made: a complete standard hand.
pub open spec fn standard_complete(t: Seq<u8>, called: int) -> bool {
    &&& 0 <= called <= 4
    &&& exists|p: int|
        0 <= p < 34 && t[p] >= 2 && #[trigger] is_melds(without_pair(t, p), (4 - called) as nat)
}

// ---------------------------------------------------------------------------
// Sums over slots
// ---------------------------------------------------------------------------

pub open spec fn sum_to(f: spec_fn(int) -> int, n: int) -> int
    decreases n,
{
    if n <= 0 {
        0
    } else {
        sum_to(f, n - 1) + f(n - 1)
    }
}

pub proof fn lemma_sum_to_ext(f: spec_fn(int) -> int, g: spec_fn(int) -> int, n: int)
    requires
        forall|j: int| 0 <= j < n ==> #[trigger] f(j) == g(j),
    ensures
        sum_to(f, n) == sum_to(g, n),
    decreases n,
{
    if n > 0 {
        lemma_sum_to_ext(f, g, n - 1);
    }
}

/// With `f` at most `g` slot by slot and equal sums, the two agree.
pub proof fn lemma_sum_to_tight(f: spec_fn(int) -> int, g: spec_fn(int) -> int, n: int)
    requires
        forall|j: int| 0 <= j < n ==> #[trigger] f(j) <= g(j),
    ensures
        sum_to(f, n) <= sum_to(g, n),
        sum_to(f, n) == sum_to(g, n) ==> forall|j: int| 0 <= j < n ==> #[trigger] f(j) == g(j),
    decreases n,
{
    if n > 0 {
        lemma_sum_to_tight(f, g, n - 1);
    }
}

pub proof fn lemma_total_is_sum(s: Seq<u8>)
    ensures
        total(s) == sum_to(|j: int| s[j] as int, s.len() as int),
    decreases s.len(),
{
    if s.len() > 0 {
        let d = s.drop_last();
        lemma_total_is_sum(d);
        lemma_sum_to_ext(|j: int| d[j] as int, |j: int| s[j] as int, d.len() as int);
    }
}

// ---------------------------------------------------------------------------
// Complete hands
// ---------------------------------------------------------------------------

/// Seven different kinds, two of each, and nothing else.
pub open spec fn is_seven_pairs(t: Seq<u8>) -> bool {
    &&& kinds_with_at_least(t, 2, 34) == 7
    &&& forall|j: int| 0 <= j < 34 ==> #[trigger] t[j] == 0 || t[j] == 2
}

/// One of each terminal and honor, one of them twice, and nothing else.
pub open spec fn is_thirteen_orphans(t: Seq<u8>, q: int) -> bool {
    &&& is_orphan(q)
    &&& forall|j: int|
        0 <= j < 34 ==> #[trigger] t[j] == (if is_orphan(j) {
            if j == q {
                2int
            } else {
                1int
            }
        } else {
            0int
        })
}

pub proof fn lemma_pair_sum(t: Seq<u8>, n: int)
    requires
        0 <= n <= t.len(),
    ensures
        sum_to(|j: int| if t[j] >= 2 { 2int } else { 0int }, n) == 2 * kinds_with_at_least(t, 2, n),
    decreases n,
{
    if n > 0 {
        lemma_pair_sum(t, n - 1);
    }
}

/// A 14-tile hand with seven-pairs shanten -1 is seven different pairs.
pub proof fn lemma_complete_is_seven_pairs(t: Seq<u8>)
    requires
        t.len() == 34,
        total(t) == 14,
        chiitoitsu_shanten(t) == -1,
    ensures
        is_seven_pairs(t),
{
    lemma_pairs_bound(t, 34);
    assert(t.take(34) =~= t);
    let f = |j: int| if t[j] >= 2 { 2int } else { 0int };
    let g = |j: int| t[j] as int;
    lemma_pair_sum(t, 34);
    lemma_total_is_sum(t);
    assert forall|j: int| 0 <= j < 34 implies #[trigger] f(j) <= g(j) by {}
    lemma_sum_to_tight(f, g, 34);
    assert forall|j: int| 0 <= j < 34 implies #[trigger] t[j] == 0 || t[j] == 2 by {
        assert(f(j) == g(j));
    }
}

pub proof fn lemma_orphan_sum(q: int, n: int)
    requires
        0 <= n <= 34,
    ensures
        sum_to(
            |j: int|
                if is_orphan(j) {
                    if j == q {
                        2int
                    } else {
                        1int
                    }
                } else {
                    0int
                },
            n,
        ) == orphan_slots(n) + (if is_orphan(q) && 0 <= q < n { 1int } else { 0int }),
    decreases n,
{
    if n > 0 {
        lemma_orphan_sum(q, n - 1);
    }
}

pub proof fn lemma_orphan_pair_witness(t: Seq<u8>, n: int) -> (q: int)
    requires
        orphans_with_at_least(t, 2, n) > 0,
    ensures
        0 <= q < n,
        is_orphan(q),
        t[q] >= 2,
    decreases n,
{
    if n > 0 && orphans_with_at_least(t, 2, n - 1) > 0 {
        lemma_orphan_pair_witness(t, n - 1)
    } else {
        n - 1
    }
}

pub proof fn lemma_all_orphans_held(t: Seq<u8>, n: int)
    requires
        0 <= n,
        orphans_with_at_least(t, 1, n) == orphan_slots(n),
    ensures
        forall|j: int| 0 <= j < n && is_orphan(j) ==> #[trigger] t[j] >= 1,
    decreases n,
{
    if n > 0 {
        lemma_orphans_bound(t, 1, n - 1);
        lemma_all_orphans_held(t, n - 1);
    }
}

/// A 14-tile hand with thirteen-orphans shanten -1 is the thirteen orphans
/// with one of them paired.
pub proof fn lemma_complete_is_thirteen_orphans(t: Seq<u8>)
    requires
        t.len() == 34,
        total(t) == 14,
        kokushi_shanten(t) == -1,
    ensures
        exists|q: int| is_thirteen_orphans(t, q),
{
    lemma_orphans_bound(t, 1, 34);
    lemma_orphans_bound(t, 2, 34);
    reveal_with_fuel(orphan_slots, 35);
    assert(orphan_slots(34) == 13);
    lemma_all_orphans_held(t, 34);
    let q = lemma_orphan_pair_witness(t, 34);
    let f = |j: int|
        if is_orphan(j) {
            if j == q {
                2int
            } else {
                1int
            }
        } else {
            0int
        };
    let g = |j: int| t[j] as int;
    lemma_orphan_sum(q, 34);
    lemma_total_is_sum(t);
    assert forall|j: int| 0 <= j < 34 implies #[trigger] f(j) <= g(j) by {}
    lemma_sum_to_tight(f, g, 34);
    assert forall|j: int| 0 <= j < 34 implies #[trigger] t[j] == (if is_orphan(j) {
        if j == q {
            2int
        } else {
            1int
        }
    } else {
        0int
    }) by {
        assert(f(j) == g(j));
    }
    assert(is_thirteen_orphans(t, q));
}

// ---------------------------------------------------------------------------
// Complete hands score -1, and only they do
// ---------------------------------------------------------------------------

/// A winning shape for a hand with `called` melds called: a pair and the
/// melds still to be made, or, with nothing called, seven different pairs or
/// the thirteen orphans with one of them paired.
pub open spec fn winning_shape(t: Seq<u8>, called: int) -> bool {
    ||| standard_complete(t, called)
    ||| called == 0 && is_seven_pairs(t)
    ||| called == 0 && exists|q: int| is_thirteen_orphans(t, q)
}

/// The parts that lay out the melds `ms`.
pub open spec fn meld_parts(ms: Seq<Meld>) -> Seq<Part> {
    Seq::new(
        ms.len(),
        |q: int|
            Part {
                slot: ms[q].slot,
                shape: if ms[q].run {
                    Shape::Run
                } else {
                    Shape::Triplet
                },
            },
    )
}

pub proof fn lemma_meld_parts(ms: Seq<Meld>)
    ensures
        forall|j: int| #[trigger] parts_at(meld_parts(ms), j) == melds_at(ms, j),
        melds_in(meld_parts(ms)) == ms.len(),
        taatsu_in(meld_parts(ms)) == 0,
        heads_in(meld_parts(ms)) == 0,
        singles_in(meld_parts(ms)) == 0,
    decreases ms.len(),
{
    if ms.len() > 0 {
        let d = ms.drop_last();
        lemma_meld_parts(d);
        assert(meld_parts(ms).drop_last() =~= meld_parts(d));
        assert forall|j: int| #[trigger] parts_at(meld_parts(ms), j) == melds_at(ms, j) by {
            assert(parts_at(meld_parts(d), j) == melds_at(d, j));
        }
    }
}

/// A hand of 13 - 3k tiles, k of at most three melds called, that is the
/// 3 - k melds still to be made, a pair, and two tiles one draw from a
/// meld (a second pair, two neighbours, or two of a suit with one slot
/// between them, the 7-9 and 1-3 gaps included) is tenpai.
pub proof fn lemma_two_tile_wait_is_tenpai(
    t: Seq<u8>,
    ms: Seq<Meld>,
    called: int,
    p: int,
    x: int,
    d: int,
)
    requires
        t.len() == 34,
        0 <= called <= 3,
        ms.len() == 3 - called,
        all_melds_ok(ms),
        0 <= p < 34,
        0 <= x < 34,
        0 <= d <= 2,
        d > 0 ==> x < 27 && x % 9 + d <= 8,
        forall|j: int|
            0 <= j < 34 ==> #[trigger] t[j] == melds_at(ms, j) + (if j == p { 2int } else { 0int })
                + (if j == x { 1int } else { 0int }) + (if j == x + d { 1int } else { 0int }),
    ensures
        standard_shanten(t, called) == 0,
        best_shanten(t, called).0 <= 0,
{
    let hd = Part { slot: p, shape: Shape::Head };
    let wait = Part {
        slot: x,
        shape: if d == 0 {
            Shape::Pair
        } else if d == 1 {
            Shape::Side
        } else {
            Shape::Gap
        },
    };
    let mp = meld_parts(ms);
    let ps1 = mp.push(hd);
    let ps = ps1.push(wait);
    lemma_meld_parts(ms);
    lemma_parts_push(mp, hd);
    lemma_parts_push(ps1, wait);
    assert forall|k: int| 0 <= k < ps.len() implies #[trigger] part_ok(ps[k]) by {
        if k < ms.len() {
            assert(meld_ok(ms[k]));
            assert(ps[k] == mp[k]);
        } else if k == ms.len() {
            assert(ps[k] == hd);
        }
    }
    assert forall|j: int| 0 <= j < 34 implies #[trigger] t[j] == parts_at(ps, j) by {}
    assert(arranges(t, ps));
    lemma_arrangement_size(t, ps);
    assert(total(t) == 13 - 3 * called);
    assert(hand_deficit(t, called) == 0);
    assert(arrangement_score(t, ps, called) == 0);
    lemma_standard_shanten_is_least(t, called);
    if standard_shanten(t, called) < 0 {
        let q = choose|q: Seq<Part>|
            #[trigger] arranges(t, q) && arrangement_score(t, q, called) == standard_shanten(t, called);
        lemma_parts_cover(q);
        lemma_arrangement_size(t, q);
        assert(melds_in(q) + called >= 4 && heads_in(q) == 1);
    }
    lemma_best_is_least(t, called);
}

/// A hand of 14 - 3k tiles, with k of at most four melds called, has
/// standard shanten -1 exactly when it is a pair and 4 - k melds.
pub proof fn lemma_standard_minus_one(t: Seq<u8>, called: int)
    requires
        t.len() == 34,
        0 <= called <= 4,
        total(t) == 14 - 3 * called,
    ensures
        standard_shanten(t, called) == -1 <==> standard_complete(t, called),
{
    assert(hand_deficit(t, called) == 0);
    if standard_complete(t, called) {
        let p = choose|p: int|
            0 <= p < 34 && t[p] >= 2 && #[trigger] is_melds(without_pair(t, p), (4 - called) as nat);
        let u = without_pair(t, p);
        let ms = choose|ms: Seq<Meld>| ms.len() == (4 - called) as nat && #[trigger] splits_into(u, ms);
        let hd = Part { slot: p, shape: Shape::Head };
        let mp = meld_parts(ms);
        let ps = mp.push(hd);
        lemma_meld_parts(ms);
        lemma_parts_push(mp, hd);
        assert forall|k: int| 0 <= k < ps.len() implies #[trigger] part_ok(ps[k]) by {
            if k < ms.len() {
                assert(meld_ok(ms[k]));
                assert(ps[k] == mp[k]);
            }
        }
        assert forall|j: int| 0 <= j < 34 implies #[trigger] t[j] == parts_at(ps, j) by {
            assert(u[j] == melds_at(ms, j));
        }
        assert(arranges(t, ps));
        assert(arrangement_score(t, ps, called) == -1);
        assert(scores_within(t, called, -1));
    }
    if standard_shanten(t, called) == -1 {
        if !scores_within(t, called, -1) {
            lemma_least_range(t, called, 0);
        }
        let ps = choose|ps: Seq<Part>|
            #[trigger] arranges(t, ps) && arrangement_score(t, ps, called) <= -1;
        lemma_parts_cover(ps);
        lemma_arrangement_size(t, ps);
        assert(melds_in(ps) + called >= 4 && heads_in(ps) == 1);
        assert(taatsu_in(ps) == 0 && singles_in(ps) == 0 && melds_in(ps) == 4 - called);
        let h = lemma_head_index(ps);
        let p = ps[h].slot;
        let rest = ps.remove(h);
        lemma_parts_remove(ps, h);
        lemma_only_melds(rest);
        let ms = Seq::new(rest.len(), |q: int| Meld { slot: rest[q].slot, run: rest[q].shape is Run });
        assert forall|q: int| 0 <= q < rest.len() implies #[trigger] meld_parts(ms)[q] == rest[q] by {
            assert(is_meld(rest[q].shape));
        }
        assert(meld_parts(ms) =~= rest);
        lemma_meld_parts(ms);
        assert(part_ok(ps[h]));
        assert(parts_at(ps, p) >= part_at(ps[h], p));
        let u = without_pair(t, p);
        assert forall|q: int| 0 <= q < ms.len() implies #[trigger] meld_ok(ms[q]) by {
            assert(rest[q] == ps[if q < h { q } else { q + 1 }]);
            assert(part_ok(rest[q]));
            assert(is_meld(rest[q].shape));
        }
        assert forall|j: int| 0 <= j < 34 implies #[trigger] u[j] == melds_at(ms, j) by {
            assert(parts_at(meld_parts(ms), j) == parts_at(rest, j));
        }
        assert(splits_into(u, ms));
        assert(is_melds(u, (4 - called) as nat));
    }
}

pub proof fn lemma_pairs_are_kinds(t: Seq<u8>, n: int)
    requires
        0 <= n <= t.len(),
        forall|j: int| 0 <= j < t.len() ==> #[trigger] t[j] == 0 || t[j] == 2,
    ensures
        kinds_with_at_least(t, 1, n) == kinds_with_at_least(t, 2, n),
    decreases n,
{
    if n > 0 {
        lemma_pairs_are_kinds(t, n - 1);
        assert(t[n - 1] == 0 || t[n - 1] == 2);
    }
}

pub proof fn lemma_orphans_all_held(t: Seq<u8>, q: int, n: int)
    requires
        0 <= n <= 34,
        t.len() == 34,
        is_thirteen_orphans(t, q),
    ensures
        orphans_with_at_least(t, 1, n) == orphan_slots(n),
        orphans_with_at_least(t, 2, n) == (if 0 <= q < n { 1int } else { 0int }),
    decreases n,
{
    if n > 0 {
        lemma_orphans_all_held(t, q, n - 1);
        assert(t[n - 1] == (if is_orphan(n - 1) {
            if n - 1 == q {
                2int
            } else {
                1int
            }
        } else {
            0int
        }));
    }
}

/// A hand of 14 - 3k tiles with k of at most four melds called scores -1
/// exactly when it has a winning shape.
pub proof fn lemma_minus_one_iff_winning(t: Seq<u8>, called: int)
    requires
        t.len() == 34,
        0 <= called <= 4,
        total(t) == 14 - 3 * called,
    ensures
        best_shanten(t, called).0 == -1 <==> winning_shape(t, called),
{
    lemma_shanten_range(t, called);
    lemma_best_is_least(t, called);
    lemma_standard_minus_one(t, called);
    if best_shanten(t, called).0 == -1 {
        if best_shanten(t, called).1 == ShantenType::Standard {
        } else if best_shanten(t, called).1 == ShantenType::Chiitoitsu {
            lemma_complete_is_seven_pairs(t);
        } else {
            lemma_complete_is_thirteen_orphans(t);
        }
    }
    if winning_shape(t, called) {
        if !standard_complete(t, called) {
            if is_seven_pairs(t) {
                lemma_pairs_are_kinds(t, 34);
            } else {
                let q = choose|q: int| is_thirteen_orphans(t, q);
                lemma_orphans_all_held(t, q, 34);
                reveal_with_fuel(orphan_slots, 35);
                assert(orphan_slots(34) == 13);
            }
        }
    }
}

} // verus!
