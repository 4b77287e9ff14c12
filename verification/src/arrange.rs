//! Arrangements of a hand into blocks.
//!
//! An arrangement lays every tile of the hand into one part: a meld (three
//! of a kind, or a run of three), a taatsu (a pair, two neighbours, or two
//! with a gap between them), the hand's pair, or a single tile that belongs
//! to nothing. An arrangement scores the shanten its melds, taatsu and pair
//! give, and the standard-hand shanten is the least score of any
//! arrangement. `least_arrangement_score` finds it: the lowest tile of the
//! hand begins one of the parts of every arrangement, so trying each part it
//! can begin, and then the rest of the hand, tries every arrangement.

use vstd::prelude::*;

use crate::blocks::{lemma_total_nonneg, lemma_total_update, lemma_total_zero, total};
use crate::shanten::{
    calculate_shanten_value_with_called, hand_deficit, lemma_shanten_value_range, min_int,
    shanten_value,
};

verus! {

/// The shape of one part of an arrangement, in the order the search tries
/// them.
#[derive(Clone, Copy)]
pub enum Shape {
    Triplet,
    Run,
    Pair,
    Side,
    Gap,
    Head,
    Single,
}

/// Where a shape comes in the search's order.
pub open spec fn rank(s: Shape) -> int {
    match s {
        Shape::Triplet => 0,
        Shape::Run => 1,
        Shape::Pair => 2,
        Shape::Side => 3,
        Shape::Gap => 4,
        Shape::Head => 5,
        Shape::Single => 6,
    }
}

/// Tiles a part of the shape holds.
pub open spec fn size(s: Shape) -> int {
    match s {
        Shape::Triplet | Shape::Run => 3,
        Shape::Single => 1,
        _ => 2,
    }
}

/// A part of an arrangement: a shape laid from `slot` upwards.
pub struct Part {
    pub slot: int,
    pub shape: Shape,
}

/// A part lies on the 34 slots, and one that spans several slots stays
/// within one suit.
pub open spec fn part_ok(p: Part) -> bool {
    &&& 0 <= p.slot < 34
    &&& (p.shape is Run || p.shape is Gap) ==> p.slot < 27 && p.slot % 9 <= 6
    &&& p.shape is Side ==> p.slot < 27 && p.slot % 9 <= 7
}

/// Tiles part `p` holds in slot `j`.
pub open spec fn part_at(p: Part, j: int) -> int {
    match p.shape {
        Shape::Triplet => if j == p.slot { 3 } else { 0 },
        Shape::Run => if p.slot <= j <= p.slot + 2 { 1 } else { 0 },
        Shape::Pair | Shape::Head => if j == p.slot { 2 } else { 0 },
        Shape::Side => if j == p.slot || j == p.slot + 1 { 1 } else { 0 },
        Shape::Gap => if j == p.slot || j == p.slot + 2 { 1 } else { 0 },
        Shape::Single => if j == p.slot { 1 } else { 0 },
    }
}

/// Tiles the parts `ps` hold together in slot `j`.
pub open spec fn parts_at(ps: Seq<Part>, j: int) -> int
    decreases ps.len(),
{
    if ps.len() == 0 {
        0
    } else {
        parts_at(ps.drop_last(), j) + part_at(ps.last(), j)
    }
}

pub open spec fn is_meld(s: Shape) -> bool {
    s is Triplet || s is Run
}

pub open spec fn is_taatsu(s: Shape) -> bool {
    s is Pair || s is Side || s is Gap
}

pub open spec fn melds_in(ps: Seq<Part>) -> int
    decreases ps.len(),
{
    if ps.len() == 0 {
        0
    } else {
        melds_in(ps.drop_last()) + (if is_meld(ps.last().shape) { 1int } else { 0int })
    }
}

pub open spec fn taatsu_in(ps: Seq<Part>) -> int
    decreases ps.len(),
{
    if ps.len() == 0 {
        0
    } else {
        taatsu_in(ps.drop_last()) + (if is_taatsu(ps.last().shape) { 1int } else { 0int })
    }
}

pub open spec fn heads_in(ps: Seq<Part>) -> int
    decreases ps.len(),
{
    if ps.len() == 0 {
        0
    } else {
        heads_in(ps.drop_last()) + (if ps.last().shape is Head { 1int } else { 0int })
    }
}

pub open spec fn singles_in(ps: Seq<Part>) -> int
    decreases ps.len(),
{
    if ps.len() == 0 {
        0
    } else {
        singles_in(ps.drop_last()) + (if ps.last().shape is Single { 1int } else { 0int })
    }
}

/// The parts `ps` lay out the hand `t` exactly, with at most one pair
/// taken as the hand's pair.
pub open spec fn arranges(t: Seq<u8>, ps: Seq<Part>) -> bool {
    &&& t.len() == 34
    &&& forall|k: int| 0 <= k < ps.len() ==> #[trigger] part_ok(ps[k])
    &&& heads_in(ps) <= 1
    &&& forall|j: int| 0 <= j < 34 ==> #[trigger] t[j] == parts_at(ps, j)
}

/// The shanten `melds`, `taatsu` and a pair give, never more than 8.
pub open spec fn score(melds: int, taatsu: int, head: bool, called: int, deficit: int) -> int {
    min_int(8, shanten_value(melds, taatsu, head, called, deficit))
}

/// The score of the parts `ps` added to `melds`, `taatsu` and `head`
/// already laid.
pub open spec fn acc_score(
    ps: Seq<Part>,
    melds: int,
    taatsu: int,
    head: bool,
    called: int,
    deficit: int,
) -> int {
    score(melds + melds_in(ps), taatsu + taatsu_in(ps), head || heads_in(ps) == 1, called, deficit)
}

/// The score of an arrangement of a hand with `called` melds called.
pub open spec fn arrangement_score(t: Seq<u8>, ps: Seq<Part>, called: int) -> int {
    acc_score(ps, 0, 0, false, called, hand_deficit(t, called))
}

/// Some arrangement of `t` scores at most `v`.
pub open spec fn scores_within(t: Seq<u8>, called: int, v: int) -> bool {
    exists|ps: Seq<Part>| #[trigger] arranges(t, ps) && arrangement_score(t, ps, called) <= v
}

/// The least score from `v` up that some arrangement of `t` reaches, and 8
/// when none reaches less.
pub open spec fn least_score_from(t: Seq<u8>, called: int, v: int) -> int
    decreases 8 - v,
{
    if v >= 8 || scores_within(t, called, v) {
        v
    } else {
        least_score_from(t, called, v + 1)
    }
}

/// The parts that start at slot `i` all have shapes of rank `low` or more.
pub open spec fn starts_from(ps: Seq<Part>, i: int, low: int) -> bool {
    forall|k: int| 0 <= k < ps.len() && ps[k].slot == i ==> low <= #[trigger] rank(ps[k].shape)
}

/// Every slot holds at least what part `p` needs.
pub open spec fn fits_at(t: Seq<u8>, p: Part) -> bool {
    forall|j: int| 0 <= j < 34 ==> #[trigger] t[j] >= part_at(p, j)
}

/// The hand `t` less the tiles of part `p`.
pub open spec fn take(t: Seq<u8>, p: Part) -> Seq<u8> {
    Seq::new(34, |j: int| (t[j] - part_at(p, j)) as u8)
}

// ---------------------------------------------------------------------------
// Lists of parts
// ---------------------------------------------------------------------------

pub proof fn lemma_part_at_slot(p: Part)
    ensures
        part_at(p, p.slot) > 0,
        forall|j: int| j < p.slot ==> #[trigger] part_at(p, j) == 0,
        forall|j: int| #[trigger] part_at(p, j) >= 0,
{
}

pub proof fn lemma_parts_concat_at(a: Seq<Part>, b: Seq<Part>, j: int)
    ensures
        parts_at(a + b, j) == parts_at(a, j) + parts_at(b, j),
    decreases b.len(),
{
    if b.len() > 0 {
        assert((a + b).drop_last() =~= a + b.drop_last());
        lemma_parts_concat_at(a, b.drop_last(), j);
    } else {
        assert(a + b =~= a);
    }
}

pub proof fn lemma_parts_concat(a: Seq<Part>, b: Seq<Part>)
    ensures
        melds_in(a + b) == melds_in(a) + melds_in(b),
        taatsu_in(a + b) == taatsu_in(a) + taatsu_in(b),
        heads_in(a + b) == heads_in(a) + heads_in(b),
        singles_in(a + b) == singles_in(a) + singles_in(b),
    decreases b.len(),
{
    if b.len() > 0 {
        assert((a + b).drop_last() =~= a + b.drop_last());
        lemma_parts_concat(a, b.drop_last());
    } else {
        assert(a + b =~= a);
    }
}

pub proof fn lemma_parts_remove(ps: Seq<Part>, k: int)
    requires
        0 <= k < ps.len(),
    ensures
        forall|j: int| #[trigger] parts_at(ps.remove(k), j) == parts_at(ps, j) - part_at(ps[k], j),
        melds_in(ps.remove(k)) == melds_in(ps) - (if is_meld(ps[k].shape) { 1int } else { 0int }),
        taatsu_in(ps.remove(k)) == taatsu_in(ps) - (if is_taatsu(ps[k].shape) { 1int } else { 0int }),
        heads_in(ps.remove(k)) == heads_in(ps) - (if ps[k].shape is Head { 1int } else { 0int }),
        singles_in(ps.remove(k)) == singles_in(ps) - (if ps[k].shape is Single { 1int } else { 0int }),
{
    let a = ps.take(k);
    let b = ps.skip(k + 1);
    let one = seq![ps[k]];
    assert(ps =~= a + one + b);
    assert(ps.remove(k) =~= a + b);
    lemma_parts_concat(a + one, b);
    lemma_parts_concat(a, one);
    lemma_parts_concat(a, b);
    let e = Seq::<Part>::empty();
    assert(one.drop_last() =~= e);
    assert(one.last() == ps[k]);
    assert(melds_in(e) == 0 && taatsu_in(e) == 0 && heads_in(e) == 0 && singles_in(e) == 0);
    assert(melds_in(one) == melds_in(e) + (if is_meld(ps[k].shape) { 1int } else { 0int }));
    assert(taatsu_in(one) == taatsu_in(e) + (if is_taatsu(ps[k].shape) { 1int } else { 0int }));
    assert(heads_in(one) == heads_in(e) + (if ps[k].shape is Head { 1int } else { 0int }));
    assert(singles_in(one) == singles_in(e) + (if ps[k].shape is Single { 1int } else { 0int }));
    assert forall|j: int| #[trigger] parts_at(ps.remove(k), j) == parts_at(ps, j) - part_at(ps[k], j) by {
        assert(parts_at(e, j) == 0);
        assert(parts_at(one, j) == parts_at(e, j) + part_at(ps[k], j));
        lemma_parts_concat_at(a + one, b, j);
        lemma_parts_concat_at(a, one, j);
        lemma_parts_concat_at(a, b, j);
    }
}

pub proof fn lemma_parts_push(ps: Seq<Part>, p: Part)
    ensures
        forall|j: int| #[trigger] parts_at(ps.push(p), j) == parts_at(ps, j) + part_at(p, j),
        melds_in(ps.push(p)) == melds_in(ps) + (if is_meld(p.shape) { 1int } else { 0int }),
        taatsu_in(ps.push(p)) == taatsu_in(ps) + (if is_taatsu(p.shape) { 1int } else { 0int }),
        heads_in(ps.push(p)) == heads_in(ps) + (if p.shape is Head { 1int } else { 0int }),
        singles_in(ps.push(p)) == singles_in(ps) + (if p.shape is Single { 1int } else { 0int }),
{
    assert(ps.push(p).drop_last() =~= ps);
}

/// Counts are never negative; a slot holds at least what each part holds
/// there; a slot that holds something is held by one of the parts.
pub proof fn lemma_parts_cover(ps: Seq<Part>)
    ensures
        melds_in(ps) >= 0,
        taatsu_in(ps) >= 0,
        heads_in(ps) >= 0,
        singles_in(ps) >= 0,
        forall|k: int| 0 <= k < ps.len() && ps[k].shape is Head ==> heads_in(ps) >= 1,
        forall|j: int| #![auto] parts_at(ps, j) >= 0,
        forall|k: int, j: int|
            0 <= k < ps.len() ==> parts_at(ps, j) >= #[trigger] part_at(ps[k], j),
        forall|j: int|
            #![auto]
            parts_at(ps, j) > 0 ==> exists|k: int| 0 <= k < ps.len() && #[trigger] part_at(ps[k], j) > 0,
    decreases ps.len(),
{
    if ps.len() > 0 {
        let d = ps.drop_last();
        lemma_parts_cover(d);
        lemma_part_at_slot(ps.last());
        assert forall|k: int, j: int| 0 <= k < ps.len() implies parts_at(ps, j) >= #[trigger] part_at(
            ps[k],
            j,
        ) by {
            assert(parts_at(ps, j) == parts_at(d, j) + part_at(ps[ps.len() - 1], j));
            assert(parts_at(d, j) >= 0);
            assert(part_at(ps[ps.len() - 1], j) >= 0);
            if k < d.len() {
                assert(ps[k] == d[k]);
                assert(parts_at(d, j) >= part_at(d[k], j));
            }
        }
        assert forall|k: int| 0 <= k < ps.len() && ps[k].shape is Head implies heads_in(ps) >= 1 by {
            if k < d.len() {
                assert(ps[k] == d[k]);
            }
        }
        assert forall|j: int| parts_at(ps, j) > 0 implies exists|k: int|
            0 <= k < ps.len() && #[trigger] part_at(ps[k], j) > 0 by {
            if parts_at(d, j) > 0 {
                let k = choose|k: int| 0 <= k < d.len() && #[trigger] part_at(d[k], j) > 0;
                assert(ps[k] == d[k]);
            } else {
                assert(part_at(ps[ps.len() - 1], j) > 0);
            }
        }
    }
}

/// Taking a part that fits out of a hand leaves the hand `size` tiles
/// smaller.
pub proof fn lemma_take_total(t: Seq<u8>, p: Part)
    requires
        t.len() == 34,
        part_ok(p),
        fits_at(t, p),
    ensures
        total(take(t, p)) == total(t) - size(p.shape),
        take(t, p).len() == 34,
{
    let i = p.slot;
    assert(t[i] >= part_at(p, i));
    match p.shape {
        Shape::Triplet | Shape::Pair | Shape::Head | Shape::Single => {
            let u = t.update(i, (t[i] - part_at(p, i)) as u8);
            lemma_total_update(t, i, (t[i] - part_at(p, i)) as u8);
            assert(take(t, p) =~= u);
        },
        Shape::Run => {
            assert(t[i + 1] >= part_at(p, i + 1));
            assert(t[i + 2] >= part_at(p, i + 2));
            let u1 = t.update(i, (t[i] - 1) as u8);
            let u2 = u1.update(i + 1, (t[i + 1] - 1) as u8);
            let u3 = u2.update(i + 2, (t[i + 2] - 1) as u8);
            lemma_total_update(t, i, (t[i] - 1) as u8);
            lemma_total_update(u1, i + 1, (t[i + 1] - 1) as u8);
            lemma_total_update(u2, i + 2, (t[i + 2] - 1) as u8);
            assert(take(t, p) =~= u3);
        },
        Shape::Side => {
            assert(t[i + 1] >= part_at(p, i + 1));
            let u1 = t.update(i, (t[i] - 1) as u8);
            let u2 = u1.update(i + 1, (t[i + 1] - 1) as u8);
            lemma_total_update(t, i, (t[i] - 1) as u8);
            lemma_total_update(u1, i + 1, (t[i + 1] - 1) as u8);
            assert(take(t, p) =~= u2);
        },
        Shape::Gap => {
            assert(t[i + 2] >= part_at(p, i + 2));
            let u1 = t.update(i, (t[i] - 1) as u8);
            let u2 = u1.update(i + 2, (t[i + 2] - 1) as u8);
            lemma_total_update(t, i, (t[i] - 1) as u8);
            lemma_total_update(u1, i + 2, (t[i + 2] - 1) as u8);
            assert(take(t, p) =~= u2);
        },
    }
}

/// Among the parts starting at slot `i`, one of least rank.
pub proof fn lemma_lead(ps: Seq<Part>, i: int) -> (k: int)
    requires
        exists|q: int| 0 <= q < ps.len() && #[trigger] ps[q].slot == i,
    ensures
        0 <= k < ps.len(),
        ps[k].slot == i,
        starts_from(ps, i, rank(ps[k].shape)),
    decreases ps.len(),
{
    let d = ps.drop_last();
    let n = ps.len() - 1;
    if exists|q: int| 0 <= q < d.len() && #[trigger] d[q].slot == i {
        let k0 = lemma_lead(d, i);
        assert(ps[k0] == d[k0]);
        if ps[n].slot == i && rank(ps[n].shape) < rank(d[k0].shape) {
            assert forall|k: int| 0 <= k < ps.len() && ps[k].slot == i implies rank(ps[n].shape)
                <= #[trigger] rank(ps[k].shape) by {
                if k < n {
                    assert(ps[k] == d[k]);
                }
            }
            n
        } else {
            assert forall|k: int| 0 <= k < ps.len() && ps[k].slot == i implies rank(d[k0].shape)
                <= #[trigger] rank(ps[k].shape) by {
                if k < n {
                    assert(ps[k] == d[k]);
                }
            }
            k0
        }
    } else {
        let q = choose|q: int| 0 <= q < ps.len() && #[trigger] ps[q].slot == i;
        if q < n {
            assert(d[q].slot == i);
        }
        assert forall|k: int| 0 <= k < ps.len() && ps[k].slot == i implies rank(ps[n].shape)
            <= #[trigger] rank(ps[k].shape) by {
            if k < n {
                assert(ps[k] == d[k]);
                assert(d[k].slot == i);
            }
        }
        n
    }
}

/// In an arrangement of a hand whose lowest tile is at slot `i`, a part of
/// least rank among those starting at `i` exists and fits the hand.
pub proof fn lemma_lowest_part(t: Seq<u8>, ps: Seq<Part>, i: int) -> (k: int)
    requires
        arranges(t, ps),
        0 <= i < 34,
        t[i] > 0,
        forall|j: int| 0 <= j < i ==> t[j] == 0,
    ensures
        0 <= k < ps.len(),
        ps[k].slot == i,
        starts_from(ps, i, rank(ps[k].shape)),
        fits_at(t, ps[k]),
        part_ok(ps[k]),
{
    lemma_parts_cover(ps);
    assert(parts_at(ps, i) > 0);
    let q = choose|q: int| 0 <= q < ps.len() && #[trigger] part_at(ps[q], i) > 0;
    let p = ps[q];
    assert(part_ok(p));
    lemma_part_at_slot(p);
    if p.slot < i {
        assert(parts_at(ps, p.slot) >= part_at(ps[q], p.slot));
        assert(t[p.slot] == parts_at(ps, p.slot));
    }
    assert(p.slot == i);
    let k = lemma_lead(ps, i);
    assert(part_ok(ps[k]));
    assert forall|j: int| 0 <= j < 34 implies #[trigger] t[j] >= part_at(ps[k], j) by {
        assert(parts_at(ps, j) >= part_at(ps[k], j));
    }
    k
}

pub open spec fn meld_count(s: Shape) -> int {
    if is_meld(s) {
        1
    } else {
        0
    }
}

pub open spec fn taatsu_count(s: Shape) -> int {
    if is_taatsu(s) {
        1
    } else {
        0
    }
}

/// An arrangement of the hand less part `p`, with `p` added, arranges the
/// hand, and scores what it scored with `p` counted as laid.
pub proof fn lemma_add_part(
    tv: Seq<u8>,
    p: Part,
    ps1: Seq<Part>,
    melds: int,
    taatsu: int,
    head: bool,
    called: int,
    deficit: int,
)
    requires
        tv.len() == 34,
        part_ok(p),
        fits_at(tv, p),
        arranges(take(tv, p), ps1),
        (head || p.shape is Head) ==> heads_in(ps1) == 0,
        p.shape is Head ==> !head,
    ensures
        arranges(tv, ps1.push(p)),
        head ==> heads_in(ps1.push(p)) == 0,
        acc_score(ps1.push(p), melds, taatsu, head, called, deficit) == acc_score(
            ps1,
            melds + meld_count(p.shape),
            taatsu + taatsu_count(p.shape),
            head || p.shape is Head,
            called,
            deficit,
        ),
{
    let ps = ps1.push(p);
    let uv = take(tv, p);
    lemma_parts_push(ps1, p);
    lemma_parts_cover(ps1);
    assert forall|k: int| 0 <= k < ps.len() implies #[trigger] part_ok(ps[k]) by {
        if k < ps1.len() {
            assert(ps[k] == ps1[k]);
        }
    }
    assert forall|j: int| 0 <= j < 34 implies #[trigger] tv[j] == parts_at(ps, j) by {
        assert(uv[j] == parts_at(ps1, j));
        assert(tv[j] >= part_at(p, j));
    }
}

/// An arrangement of the hand whose parts include `p = ps[k]`, less that
/// part, arranges the hand less `p`, and scores what it scored with `p`
/// counted as laid.
pub proof fn lemma_remove_part(
    tv: Seq<u8>,
    p: Part,
    ps: Seq<Part>,
    k: int,
    melds: int,
    taatsu: int,
    head: bool,
    called: int,
    deficit: int,
)
    requires
        arranges(tv, ps),
        0 <= k < ps.len(),
        ps[k] == p,
        head ==> heads_in(ps) == 0,
        starts_from(ps, p.slot, rank(p.shape)),
    ensures
        arranges(take(tv, p), ps.remove(k)),
        (head || p.shape is Head) ==> heads_in(ps.remove(k)) == 0,
        starts_from(ps.remove(k), p.slot, rank(p.shape)),
        acc_score(ps, melds, taatsu, head, called, deficit) == acc_score(
            ps.remove(k),
            melds + meld_count(p.shape),
            taatsu + taatsu_count(p.shape),
            head || p.shape is Head,
            called,
            deficit,
        ),
{
    let rest = ps.remove(k);
    let uv = take(tv, p);
    lemma_parts_remove(ps, k);
    lemma_parts_cover(ps);
    assert forall|q: int| 0 <= q < rest.len() implies #[trigger] part_ok(rest[q]) by {
        if q < k {
            assert(rest[q] == ps[q]);
        } else {
            assert(rest[q] == ps[q + 1]);
        }
    }
    assert forall|j: int| 0 <= j < 34 implies #[trigger] uv[j] == parts_at(rest, j) by {
        assert(tv[j] == parts_at(ps, j));
        assert(parts_at(ps, j) >= part_at(ps[k], j));
    }
    assert forall|q: int| 0 <= q < rest.len() && rest[q].slot == p.slot implies rank(p.shape)
        <= #[trigger] rank(rest[q].shape) by {
        if q < k {
            assert(rest[q] == ps[q]);
        } else {
            assert(rest[q] == ps[q + 1]);
        }
    }
    if p.shape is Head {
        assert(heads_in(ps) >= 1);
    }
}

/// An arrangement holds every tile of the hand once: three to a meld, two
/// to a taatsu or the pair, one to a single.
pub proof fn lemma_arrangement_size(t: Seq<u8>, ps: Seq<Part>)
    requires
        arranges(t, ps),
    ensures
        total(t) == 3 * melds_in(ps) + 2 * taatsu_in(ps) + 2 * heads_in(ps) + singles_in(ps),
    decreases ps.len(),
{
    if ps.len() == 0 {
        lemma_total_zero(t);
    } else {
        let d = ps.drop_last();
        let p = ps.last();
        let n = ps.len() - 1;
        lemma_parts_cover(ps);
        lemma_parts_cover(d);
        lemma_part_at_slot(p);
        assert(part_ok(ps[n]));
        assert forall|j: int| 0 <= j < 34 implies #[trigger] t[j] >= part_at(p, j) by {
            assert(parts_at(ps, j) >= part_at(ps[n], j));
        }
        let u = take(t, p);
        assert forall|k: int| 0 <= k < d.len() implies #[trigger] part_ok(d[k]) by {
            assert(d[k] == ps[k]);
        }
        assert forall|j: int| 0 <= j < 34 implies #[trigger] u[j] == parts_at(d, j) by {
            assert(parts_at(ps, j) == parts_at(d, j) + part_at(p, j));
        }
        assert(arranges(u, d));
        lemma_take_total(t, p);
        lemma_arrangement_size(u, d);
    }
}

/// An arrangement with no taatsu, no pair and no single tiles is all melds.
pub proof fn lemma_only_melds(ps: Seq<Part>)
    requires
        taatsu_in(ps) == 0,
        heads_in(ps) == 0,
        singles_in(ps) == 0,
    ensures
        forall|k: int| 0 <= k < ps.len() ==> #[trigger] is_meld(ps[k].shape),
    decreases ps.len(),
{
    if ps.len() > 0 {
        let d = ps.drop_last();
        lemma_parts_cover(d);
        lemma_only_melds(d);
        assert forall|k: int| 0 <= k < ps.len() implies #[trigger] is_meld(ps[k].shape) by {
            if k < d.len() {
                assert(ps[k] == d[k]);
            }
        }
    }
}

/// An arrangement with a pair has a part that is it.
pub proof fn lemma_head_index(ps: Seq<Part>) -> (h: int)
    requires
        heads_in(ps) >= 1,
    ensures
        0 <= h < ps.len(),
        ps[h].shape is Head,
    decreases ps.len(),
{
    if ps.len() == 0 {
        0
    } else if ps.last().shape is Head {
        ps.len() - 1
    } else {
        let k = lemma_head_index(ps.drop_last());
        assert(ps[k] == ps.drop_last()[k]);
        k
    }
}

/// A hand with no tiles is arranged only by no parts.
pub proof fn lemma_empty_arrangement(t: Seq<u8>, ps: Seq<Part>)
    requires
        arranges(t, ps),
        forall|j: int| 0 <= j < 34 ==> t[j] == 0,
    ensures
        ps.len() == 0,
{
    if ps.len() > 0 {
        lemma_parts_cover(ps);
        let p = ps[0];
        assert(part_ok(p));
        lemma_part_at_slot(p);
        assert(parts_at(ps, p.slot) >= part_at(ps[0], p.slot));
        assert(t[p.slot] == parts_at(ps, p.slot));
    }
}

/// Melds past four and calls past four change no shanten.
pub proof fn lemma_shanten_value_clamp(melds: int, taatsu: int, head: bool, called: int, deficit: int)
    requires
        melds >= 0,
        taatsu >= 0,
        called >= 0,
    ensures
        shanten_value(melds, taatsu, head, called, deficit) == shanten_value(
            min_int(melds, 4),
            taatsu,
            head,
            min_int(called, 4),
            deficit,
        ),
{
}

/// With some arrangement scoring at most `r` and none less, `r` is the
/// least score.
pub proof fn lemma_least_from(t: Seq<u8>, called: int, v: int, r: int)
    requires
        v <= r <= 8,
        scores_within(t, called, r),
        forall|ps: Seq<Part>| #[trigger] arranges(t, ps) ==> r <= arrangement_score(t, ps, called),
    ensures
        least_score_from(t, called, v) == r,
    decreases r - v,
{
    if v < r {
        if scores_within(t, called, v) {
            let ps = choose|ps: Seq<Part>| #[trigger] arranges(t, ps) && arrangement_score(t, ps, called) <= v;
            assert(r <= arrangement_score(t, ps, called));
        }
        lemma_least_from(t, called, v + 1, r);
    }
}

/// The least score lies between `v` and 8.
pub proof fn lemma_least_range(t: Seq<u8>, called: int, v: int)
    requires
        v <= 8,
    ensures
        v <= least_score_from(t, called, v) <= 8,
    decreases 8 - v,
{
    if v < 8 && !scores_within(t, called, v) {
        lemma_least_range(t, called, v + 1);
    }
}

/// When some arrangement scores at most `w`, the least score from `v` up is
/// at most `w`.
pub proof fn lemma_least_below(t: Seq<u8>, called: int, v: int, w: int)
    requires
        v <= w,
        scores_within(t, called, w),
    ensures
        least_score_from(t, called, v) <= w,
    decreases w - v,
{
    if v < 8 && !scores_within(t, called, v) {
        lemma_least_below(t, called, v + 1, w);
    }
}

/// A least score under 8 is reached by some arrangement.
pub proof fn lemma_least_reached(t: Seq<u8>, called: int, v: int)
    requires
        v <= 8,
    ensures
        least_score_from(t, called, v) < 8 ==> scores_within(t, called, least_score_from(t, called, v)),
    decreases 8 - v,
{
    if v < 8 && !scores_within(t, called, v) {
        lemma_least_reached(t, called, v + 1);
    }
}

// ---------------------------------------------------------------------------
// Executable
// ---------------------------------------------------------------------------

fn rank_of(s: Shape) -> (r: u8)
    ensures
        r == rank(s),
{
    match s {
        Shape::Triplet => 0,
        Shape::Run => 1,
        Shape::Pair => 2,
        Shape::Side => 3,
        Shape::Gap => 4,
        Shape::Head => 5,
        Shape::Single => 6,
    }
}

/// Whether a part of shape `shape` can start at slot `i` of the hand.
fn part_fits(t: &[u8; 34], i: usize, shape: Shape) -> (b: bool)
    requires
        i < 34,
    ensures
        b == (part_ok(Part { slot: i as int, shape }) && fits_at(t@, Part { slot: i as int, shape })),
{
    let ghost p = Part { slot: i as int, shape };
    let b = match shape {
        Shape::Triplet => t[i] >= 3,
        Shape::Run => i < 27 && i % 9 <= 6 && t[i] >= 1 && t[i + 1] >= 1 && t[i + 2] >= 1,
        Shape::Pair | Shape::Head => t[i] >= 2,
        Shape::Side => i < 27 && i % 9 <= 7 && t[i] >= 1 && t[i + 1] >= 1,
        Shape::Gap => i < 27 && i % 9 <= 6 && t[i] >= 1 && t[i + 2] >= 1,
        Shape::Single => t[i] >= 1,
    };
    proof {
        if !b && part_ok(p) {
            if t@[i as int] < part_at(p, i as int) {
            } else if i + 1 < 34 && t@[i + 1] < part_at(p, i + 1) {
                assert(t@[i + 1] < part_at(p, i + 1));
            } else {
                assert(t@[i + 2] < part_at(p, i + 2));
            }
        }
    }
    b
}

/// Least score, with `melds`, `taatsu` and `head` already laid, of the
/// arrangements that start with a part of shape `shape` at slot `i`, the
/// lowest slot the hand `t` holds.
fn branch(
    t: [u8; 34],
    i: usize,
    shape: Shape,
    melds: u8,
    taatsu: u8,
    head: bool,
    called: u8,
    deficit: u8,
) -> (r: i8)
    requires
        i < 34,
        called <= 4,
        deficit <= 13,
        forall|j: int| 0 <= j < i ==> t@[j] == 0,
        part_ok(Part { slot: i as int, shape }),
        fits_at(t@, Part { slot: i as int, shape }),
        shape is Head ==> !head,
        3 * melds + 2 * taatsu + total(t@) <= 255,
    ensures
        exists|ps: Seq<Part>|
            #[trigger] arranges(t@, ps) && (head ==> heads_in(ps) == 0) && acc_score(
                ps,
                melds as int,
                taatsu as int,
                head,
                called as int,
                deficit as int,
            ) <= r,
        forall|ps: Seq<Part>|
            #[trigger] arranges(t@, ps) && (head ==> heads_in(ps) == 0) && ps.contains(
                Part { slot: i as int, shape },
            ) && starts_from(ps, i as int, rank(shape)) ==> r <= acc_score(
                ps,
                melds as int,
                taatsu as int,
                head,
                called as int,
                deficit as int,
            ),
    decreases total(t@), 0int,
{
    let ghost p = Part { slot: i as int, shape };
    let ghost tv = t@;
    proof {
        assert(tv[i as int] >= part_at(p, i as int));
        if i + 1 < 34 {
            assert(tv[i + 1] >= part_at(p, i + 1));
        }
        if i + 2 < 34 {
            assert(tv[i + 2] >= part_at(p, i + 2));
        }
        lemma_take_total(tv, p);
        lemma_total_nonneg(tv);
        lemma_total_nonneg(take(tv, p));
    }
    let mut u = t;
    let mut m = melds;
    let mut ta = taatsu;
    let mut h = head;
    match shape {
        Shape::Triplet => {
            u[i] = u[i] - 3;
            m = m + 1;
        },
        Shape::Run => {
            u[i] = u[i] - 1;
            u[i + 1] = u[i + 1] - 1;
            u[i + 2] = u[i + 2] - 1;
            m = m + 1;
        },
        Shape::Pair => {
            u[i] = u[i] - 2;
            ta = ta + 1;
        },
        Shape::Side => {
            u[i] = u[i] - 1;
            u[i + 1] = u[i + 1] - 1;
            ta = ta + 1;
        },
        Shape::Gap => {
            u[i] = u[i] - 1;
            u[i + 2] = u[i + 2] - 1;
            ta = ta + 1;
        },
        Shape::Head => {
            u[i] = u[i] - 2;
            h = true;
        },
        Shape::Single => {
            u[i] = u[i] - 1;
        },
    }
    proof {
        assert(u@ =~= take(tv, p));
        assert(m == melds + meld_count(shape));
        assert(ta == taatsu + taatsu_count(shape));
        assert(h == (head || shape is Head));
    }
    let low = rank_of(shape);
    let r = least_arrangement_score(u, i, low, m, ta, h, called, deficit);
    proof {
        let ps1 = choose|ps: Seq<Part>|
            #[trigger] arranges(u@, ps) && (h ==> heads_in(ps) == 0) && acc_score(
                ps,
                m as int,
                ta as int,
                h,
                called as int,
                deficit as int,
            ) <= r;
        lemma_add_part(tv, p, ps1, melds as int, taatsu as int, head, called as int, deficit as int);
        assert(arranges(tv, ps1.push(p)));
        assert forall|ps: Seq<Part>|
            #[trigger] arranges(tv, ps) && (head ==> heads_in(ps) == 0) && ps.contains(p)
                && starts_from(ps, i as int, rank(shape)) implies r <= acc_score(
            ps,
            melds as int,
            taatsu as int,
            head,
            called as int,
            deficit as int,
        ) by {
            let k = choose|k: int| 0 <= k < ps.len() && ps[k] == p;
            lemma_remove_part(
                tv,
                p,
                ps,
                k,
                melds as int,
                taatsu as int,
                head,
                called as int,
                deficit as int,
            );
            assert(arranges(u@, ps.remove(k)));
        }
    }
    r
}

/// Least score, with `melds`, `taatsu` and `head` already laid, of the
/// arrangements of the rest `t` of the hand, whose slots below `from` are
/// empty; every arrangement counts whose parts starting at `from` have rank
/// `low` or more.
pub(crate) fn least_arrangement_score(
    t: [u8; 34],
    from: usize,
    low: u8,
    melds: u8,
    taatsu: u8,
    head: bool,
    called: u8,
    deficit: u8,
) -> (r: i8)
    requires
        from <= 34,
        low <= 6,
        called <= 4,
        deficit <= 13,
        forall|j: int| 0 <= j < from ==> t@[j] == 0,
        3 * melds + 2 * taatsu + total(t@) <= 255,
    ensures
        exists|ps: Seq<Part>|
            #[trigger] arranges(t@, ps) && (head ==> heads_in(ps) == 0) && acc_score(
                ps,
                melds as int,
                taatsu as int,
                head,
                called as int,
                deficit as int,
            ) <= r,
        forall|ps: Seq<Part>|
            #[trigger] arranges(t@, ps) && (head ==> heads_in(ps) == 0) && starts_from(
                ps,
                from as int,
                low as int,
            ) ==> r <= acc_score(
                ps,
                melds as int,
                taatsu as int,
                head,
                called as int,
                deficit as int,
            ),
    decreases total(t@), 1int,
{
    let ghost tv = t@;
    let mut i: usize = from;
    while i < 34 && t[i] == 0
        invariant
            from <= i <= 34,
            tv == t@,
            forall|j: int| 0 <= j < i ==> tv[j] == 0,
        decreases 34 - i,
    {
        i = i + 1;
    }
    if i == 34 {
        // Nothing left to lay: the score of what is laid
        let m4: u8 = if melds < 4 {
            melds
        } else {
            4
        };
        let v = calculate_shanten_value_with_called(m4, taatsu, head, called, deficit);
        let r: i8 = if v < 8 {
            v
        } else {
            8
        };
        proof {
            let e = Seq::<Part>::empty();
            assert(melds_in(e) == 0 && taatsu_in(e) == 0 && heads_in(e) == 0);
            assert forall|j: int| 0 <= j < 34 implies #[trigger] tv[j] == parts_at(e, j) by {}
            assert(arranges(tv, e));
            lemma_shanten_value_clamp(melds as int, taatsu as int, head, called as int, deficit as int);
            assert(acc_score(e, melds as int, taatsu as int, head, called as int, deficit as int) == r);
            assert forall|ps: Seq<Part>|
                #[trigger] arranges(tv, ps) && (head ==> heads_in(ps) == 0) && starts_from(
                    ps,
                    from as int,
                    low as int,
                ) implies r <= acc_score(
                ps,
                melds as int,
                taatsu as int,
                head,
                called as int,
                deficit as int,
            ) by {
                lemma_empty_arrangement(tv, ps);
                assert(ps =~= e);
            }
        }
        return r;
    }
    let low_here: u8 = if i == from {
        low
    } else {
        0
    };
    proof {
        assert forall|j: int| 0 <= j < 34 implies #[trigger] tv[j] >= part_at(
            Part { slot: i as int, shape: Shape::Single },
            j,
        ) by {}
    }
    // A single tile can always be left out; then each part the lowest tile
    // can begin, in order of rank
    let mut best = branch(t, i, Shape::Single, melds, taatsu, head, called, deficit);
    if low_here <= 0 && part_fits(&t, i, Shape::Triplet) {
        let r = branch(t, i, Shape::Triplet, melds, taatsu, head, called, deficit);
        if r < best {
            best = r;
        }
    }
    if low_here <= 1 && part_fits(&t, i, Shape::Run) {
        let r = branch(t, i, Shape::Run, melds, taatsu, head, called, deficit);
        if r < best {
            best = r;
        }
    }
    if low_here <= 2 && part_fits(&t, i, Shape::Pair) {
        let r = branch(t, i, Shape::Pair, melds, taatsu, head, called, deficit);
        if r < best {
            best = r;
        }
    }
    if low_here <= 3 && part_fits(&t, i, Shape::Side) {
        let r = branch(t, i, Shape::Side, melds, taatsu, head, called, deficit);
        if r < best {
            best = r;
        }
    }
    if low_here <= 4 && part_fits(&t, i, Shape::Gap) {
        let r = branch(t, i, Shape::Gap, melds, taatsu, head, called, deficit);
        if r < best {
            best = r;
        }
    }
    if low_here <= 5 && !head && part_fits(&t, i, Shape::Head) {
        let r = branch(t, i, Shape::Head, melds, taatsu, head, called, deficit);
        if r < best {
            best = r;
        }
    }
    proof {
        assert forall|ps: Seq<Part>|
            #[trigger] arranges(tv, ps) && (head ==> heads_in(ps) == 0) && starts_from(
                ps,
                from as int,
                low as int,
            ) implies best <= acc_score(
            ps,
            melds as int,
            taatsu as int,
            head,
            called as int,
            deficit as int,
        ) by {
            let k = lemma_lowest_part(tv, ps, i as int);
            let p = ps[k];
            assert(ps.contains(p));
            assert(p == Part { slot: i as int, shape: p.shape });
            if i == from {
                assert(low <= rank(p.shape));
            }
            lemma_parts_cover(ps);
            if p.shape is Head {
                assert(heads_in(ps) >= 1);
            }
        }
    }
    best
}

} // verus!
