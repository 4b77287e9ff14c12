//! Permanent furiten: a tenpai hand that has itself discarded one of the
//! tiles it waits on.

use vstd::prelude::*;

use crate::shanten::{array_to_tilecounts, best_shanten, calculate_shanten_with_melds, shanten_defined};

verus! {

/// Drawing slot `i` completes the hand (only tried when fewer than four are held).
pub open spec fn completes(t: Seq<u8>, melds: int, i: int) -> bool {
    t[i] < 4 && best_shanten(t.update(i, (t[i] + 1) as u8), melds).0 == -1
}

/// Slot `i` is a winning tile the player has discarded.
pub open spec fn discarded_wait(t: Seq<u8>, melds: int, discards: Seq<u8>, i: int) -> bool {
    completes(t, melds, i) && discards.contains(i as u8)
}

/// What `is_permanent_furiten` needs of its input: the shanten calculation
/// stays within byte arithmetic for the hand, and for the hand with a tile
/// added at each slot it tries (every slot held fewer than four times, up to
/// the first discarded wait).
pub open spec fn furiten_input_ok(t: Seq<u8>, melds: int, discards: Seq<u8>) -> bool {
    &&& shanten_defined(t, melds)
    &&& forall|i: int|
        0 <= i < 34 && t[i] < 4 && (forall|j: int|
            0 <= j < i ==> !#[trigger] discarded_wait(t, melds, discards, j)) ==> #[trigger] shanten_defined(
            t.update(i, (t[i] + 1) as u8),
            melds,
        )
}

/// The discarded waits are exactly the slots, held or not, that the hand
/// holds fewer than four of, whose draw completes the hand, and that are
/// among the discards.
pub proof fn lemma_furiten_waits(t: Seq<u8>, melds: int, discards: Seq<u8>)
    ensures
        (exists|i: int| 0 <= i < 34 && #[trigger] discarded_wait(t, melds, discards, i)) <==> (
        exists|i: int|
            0 <= i < 34 && t[i] < 4 && #[trigger] best_shanten(t.update(i, (t[i] + 1) as u8), melds).0
                == -1 && discards.contains(i as u8)),
{
    if exists|i: int| 0 <= i < 34 && #[trigger] discarded_wait(t, melds, discards, i) {
        let i = choose|i: int| 0 <= i < 34 && #[trigger] discarded_wait(t, melds, discards, i);
        assert(best_shanten(t.update(i, (t[i] + 1) as u8), melds).0 == -1);
    }
    if exists|i: int|
        0 <= i < 34 && t[i] < 4 && #[trigger] best_shanten(t.update(i, (t[i] + 1) as u8), melds).0
            == -1 && discards.contains(i as u8) {
        let i = choose|i: int|
            0 <= i < 34 && t[i] < 4 && #[trigger] best_shanten(t.update(i, (t[i] + 1) as u8), melds).0
                == -1 && discards.contains(i as u8);
        assert(discarded_wait(t, melds, discards, i));
    }
}

/// Whether `discards` holds `tile`.
fn holds(discards: &[u8], tile: u8) -> (b: bool)
    ensures
        b == discards@.contains(tile),
{
    let mut k: usize = 0;
    while k < discards.len()
        invariant
            k <= discards.len(),
            forall|j: int| 0 <= j < k ==> discards@[j] != tile,
        decreases discards.len() - k,
    {
        if discards[k] == tile {
            return true;
        }
        k = k + 1;
    }
    false
}

/// Is the hand tenpai with one of its winning tiles among the player's own
/// discards?
///
/// `hand` holds the counts of the 34 tile kinds, `own_discards` the indices
/// of the tiles the player has discarded, `num_melds` the called melds.
pub fn is_permanent_furiten(hand: &[u8; 34], own_discards: &[u8], num_melds: u8) -> (b: bool)
    requires
        furiten_input_ok(hand@, num_melds as int, own_discards@),
    ensures
        b == (best_shanten(hand@, num_melds as int).0 == 0 && exists|i: int|
            0 <= i < 34 && #[trigger] discarded_wait(hand@, num_melds as int, own_discards@, i)),
        b == (best_shanten(hand@, num_melds as int).0 == 0 && exists|i: int|
            0 <= i < 34 && hand@[i] < 4 && #[trigger] best_shanten(
                hand@.update(i, (hand@[i] + 1) as u8),
                num_melds as int,
            ).0 == -1 && own_discards@.contains(i as u8)),
{
    proof {
        lemma_furiten_waits(hand@, num_melds as int, own_discards@);
    }
    let ghost t = hand@;
    let counts = array_to_tilecounts(hand);
    let s = calculate_shanten_with_melds(&counts, num_melds).shanten;
    if s != 0 {
        return false;
    }
    // Find winning tiles: adding tile i makes shanten == -1
    let mut i: usize = 0;
    while i < 34
        invariant
            i <= 34,
            t == hand@,
            furiten_input_ok(t, num_melds as int, own_discards@),
            best_shanten(t, num_melds as int).0 == 0,
            forall|j: int| 0 <= j < i ==> !#[trigger] discarded_wait(t, num_melds as int, own_discards@, j),
        decreases 34 - i,
    {
        if hand[i] < 4 {
            let mut test_arr = *hand;
            test_arr[i] = test_arr[i] + 1;
            assert(test_arr@ =~= t.update(i as int, (t[i as int] + 1) as u8));
            let tc = array_to_tilecounts(&test_arr);
            let sh = calculate_shanten_with_melds(&tc, num_melds).shanten;
            if sh == -1 && holds(own_discards, i as u8) {
                assert(discarded_wait(t, num_melds as int, own_discards@, i as int));
                return true;
            }
        }
        i = i + 1;
    }
    false
}

} // verus!
