//! What the best hand of a pool is. The categories are tried from the
//! strongest to the weakest, and the first that the pool holds decides.
//!
//! The pool is read in its own order; where a kicker is "the first card" of
//! some kind, it is the highest such card in a pool ordered from high to low.

use vstd::prelude::*;
use crate::card::{Card, CardNumber};
use crate::hand::HandView;
use crate::pool::{
    avoids, count_of, drawn_from, filled_by, has_suit, has_value, highest_group, holds,
    lemma_highest_group, lemma_straight_high, run_cards, straight_high, suit_at, with_suit,
    with_value, without_values,
};

use crate::filtering::lemma_filter_keeps;

verus! {

/// The straight of the pool: the run with the highest high end.
pub open spec fn straight(pool: Seq<Card>) -> Option<Seq<Card>> {
    let high = straight_high(pool, 14);
    if high == 0 {
        None
    } else {
        Some(run_cards(pool, high))
    }
}

/// The straight within one suit, trying the suits from index `from` on.
pub open spec fn straight_flush_from(pool: Seq<Card>, from: nat) -> Option<Seq<Card>>
    decreases 4 - from,
{
    if from >= 4 {
        None
    } else if straight(with_suit(pool, suit_at(from))) is Some {
        straight(with_suit(pool, suit_at(from)))
    } else {
        straight_flush_from(pool, from + 1)
    }
}

/// The straight flush of the pool. A pool of up to nine cards has at most one
/// suit with five cards, so the order of the suits decides nothing there.
pub open spec fn straight_flush(pool: Seq<Card>) -> Option<Seq<Card>> {
    straight_flush_from(pool, 0)
}

/// Four of a kind: the four cards of the rank, then the first other card.
pub open spec fn quads(pool: Seq<Card>) -> Option<Seq<Card>> {
    let q = highest_group(pool, 4, true, 0, 14);
    if q != 0 && without_values(pool, q, 0).len() >= 1 {
        Some(with_value(pool, q) + without_values(pool, q, 0).take(1))
    } else {
        None
    }
}

/// Full house: the highest rank with three or more cards is the triple, the
/// highest other rank with two or more cards is the pair, and the hand exists
/// only when the triple's group has exactly three cards and the pair's group
/// exactly two. A pool with two groups of three therefore holds no full house
/// here: the lower group is not split.
pub open spec fn full_house(pool: Seq<Card>) -> Option<Seq<Card>> {
    let t = highest_group(pool, 3, false, 0, 14);
    let p = highest_group(pool, 2, false, t, 14);
    if t != 0 && p != 0 && count_of(pool, t) == 3 && count_of(pool, p) == 2 {
        Some(with_value(pool, t) + with_value(pool, p))
    } else {
        None
    }
}

/// The first five cards of the first suit, from index `from` on, that has
/// five or more cards.
pub open spec fn flush_from(pool: Seq<Card>, from: nat) -> Option<Seq<Card>>
    decreases 4 - from,
{
    if from >= 4 {
        None
    } else if with_suit(pool, suit_at(from)).len() >= 5 {
        Some(with_suit(pool, suit_at(from)).take(5))
    } else {
        flush_from(pool, from + 1)
    }
}

/// The flush of the pool.
pub open spec fn flush(pool: Seq<Card>) -> Option<Seq<Card>> {
    flush_from(pool, 0)
}

/// Three of a kind: the highest rank with exactly three cards, then the first
/// two other cards.
pub open spec fn trips(pool: Seq<Card>) -> Option<Seq<Card>> {
    let t = highest_group(pool, 3, true, 0, 14);
    if t != 0 && without_values(pool, t, 0).len() >= 2 {
        Some(with_value(pool, t) + without_values(pool, t, 0).take(2))
    } else {
        None
    }
}

/// Two pair: the two highest ranks with exactly two cards, the higher first,
/// then the first card of any other rank.
pub open spec fn two_pair(pool: Seq<Card>) -> Option<Seq<Card>> {
    let a = highest_group(pool, 2, true, 0, 14);
    let b = highest_group(pool, 2, true, a, 14);
    if a != 0 && b != 0 && without_values(pool, a, b).len() >= 1 {
        Some(with_value(pool, a) + with_value(pool, b) + without_values(pool, a, b).take(1))
    } else {
        None
    }
}

/// One pair: the highest rank with exactly two cards, then the first three
/// other cards.
pub open spec fn pair(pool: Seq<Card>) -> Option<Seq<Card>> {
    let a = highest_group(pool, 2, true, 0, 14);
    if a != 0 && without_values(pool, a, 0).len() >= 3 {
        Some(with_value(pool, a) + without_values(pool, a, 0).take(3))
    } else {
        None
    }
}

/// The best hand of the pool.
pub open spec fn best_hand(pool: Seq<Card>) -> HandView {
    if let Some(cards) = straight_flush(pool) {
        if cards[0].number == CardNumber::Ace {
            HandView { value: 10, cards }
        } else {
            HandView { value: 9, cards }
        }
    } else if let Some(cards) = quads(pool) {
        HandView { value: 8, cards }
    } else if let Some(cards) = full_house(pool) {
        HandView { value: 7, cards }
    } else if let Some(cards) = flush(pool) {
        HandView { value: 6, cards }
    } else if let Some(cards) = straight(pool) {
        HandView { value: 5, cards }
    } else if let Some(cards) = trips(pool) {
        HandView { value: 4, cards }
    } else if let Some(cards) = two_pair(pool) {
        HandView { value: 3, cards }
    } else if let Some(cards) = pair(pool) {
        HandView { value: 2, cards }
    } else {
        HandView { value: 1, cards: pool.take(5) }
    }
}

/// `cards` are five cards of the pool, and five different cards when the
/// pool holds no card twice.
pub open spec fn is_five_of(cards: Seq<Card>, pool: Seq<Card>) -> bool {
    &&& cards.len() == 5
    &&& drawn_from(cards, pool)
    &&& pool.no_duplicates() ==> cards.no_duplicates()
}

/// The cards of a straight are five cards of the pool with five different
/// ranks, which step down by one from the first card; the last card is an
/// ace when the first is a five.
pub proof fn lemma_straight_is_five(pool: Seq<Card>)
    ensures
        straight(pool) matches Some(cards) ==> {
            &&& is_five_of(cards, pool)
            &&& cards.no_duplicates()
            &&& cards[0].value() == straight_high(pool, 14)
            &&& forall|k: int|
                1 <= k < 5 ==> (#[trigger] cards[k]).value() == filled_by(
                    (cards[0].value() - k) as nat,
                )
        },
{
    lemma_straight_high(pool, 14);
    let high = straight_high(pool, 14);
    if high != 0 {
        let cards = run_cards(pool, high);
        assert forall|k: int| 0 <= k < 5 implies pool.contains(#[trigger] cards[k]) && cards[k].value()
            == filled_by((high - k) as nat) by {
            let v = filled_by((high - k) as nat);
            lemma_filter_keeps(pool, has_value(v));
            assert(holds(pool, v));
            assert(cards[k] == with_value(pool, v)[0]);
        }
    }
}

/// The cards of a straight flush are five cards of the pool.
pub proof fn lemma_straight_flush_is_five(pool: Seq<Card>, from: nat)
    ensures
        straight_flush_from(pool, from) matches Some(cards) ==> is_five_of(cards, pool),
    decreases 4 - from,
{
    if from < 4 {
        let suited = with_suit(pool, suit_at(from));
        if straight(suited) is Some {
            lemma_straight_is_five(suited);
            lemma_filter_keeps(pool, has_suit(suit_at(from)));
            let cards = straight(suited)->0;
            assert forall|k: int| 0 <= k < 5 implies pool.contains(#[trigger] cards[k]) by {
                assert(suited.contains(cards[k]));
                let j = choose|j: int| 0 <= j < suited.len() && suited[j] == cards[k];
                assert(pool.contains(suited[j]));
            }
        } else {
            lemma_straight_flush_is_five(pool, from + 1);
        }
    }
}

/// The cards of a flush are five cards of the pool.
pub proof fn lemma_flush_is_five(pool: Seq<Card>, from: nat)
    ensures
        flush_from(pool, from) matches Some(cards) ==> is_five_of(cards, pool),
    decreases 4 - from,
{
    if from < 4 {
        let suited = with_suit(pool, suit_at(from));
        if suited.len() >= 5 {
            lemma_filter_keeps(pool, has_suit(suit_at(from)));
            let cards = suited.take(5);
            assert forall|k: int| 0 <= k < 5 implies pool.contains(#[trigger] cards[k]) by {
                assert(cards[k] == suited[k]);
            }
        } else {
            lemma_flush_is_five(pool, from + 1);
        }
    }
}

/// A group of one rank followed by the first `wanted` cards of other ranks
/// are cards of the pool, all different when the pool holds no card twice.
proof fn lemma_group_and_kickers(pool: Seq<Card>, v: nat, wanted: int)
    requires
        0 <= wanted <= without_values(pool, v, 0).len(),
    ensures
        ({
            let cards = with_value(pool, v) + without_values(pool, v, 0).take(wanted);
            &&& cards.len() == count_of(pool, v) + wanted
            &&& drawn_from(cards, pool)
            &&& pool.no_duplicates() ==> cards.no_duplicates()
        }),
{
    let group = with_value(pool, v);
    let others = without_values(pool, v, 0);
    let cards = group + others.take(wanted);
    lemma_filter_keeps(pool, has_value(v));
    lemma_filter_keeps(pool, avoids(v, 0));
    assert forall|k: int| 0 <= k < cards.len() implies pool.contains(#[trigger] cards[k]) && (if k
        < group.len() {
        cards[k].value() == v
    } else {
        cards[k].value() != v
    }) by {
        if k < group.len() {
            assert(cards[k] == group[k]);
        } else {
            assert(cards[k] == others[k - group.len()]);
        }
    }
    if pool.no_duplicates() {
        assert forall|i: int, j: int| 0 <= i < cards.len() && 0 <= j < cards.len() && i
            != j implies cards[i] != cards[j] by {
            if i < group.len() && j < group.len() {
                assert(cards[i] == group[i] && cards[j] == group[j]);
            } else if i >= group.len() && j >= group.len() {
                assert(cards[i] == others[i - group.len()] && cards[j] == others[j - group.len()]);
            }
        }
    }
}

/// The cards of four of a kind are five cards of the pool.
pub proof fn lemma_quads_is_five(pool: Seq<Card>)
    ensures
        quads(pool) matches Some(cards) ==> is_five_of(cards, pool),
{
    let q = highest_group(pool, 4, true, 0, 14);
    lemma_highest_group(pool, 4, true, 0, 14);
    if q != 0 && without_values(pool, q, 0).len() >= 1 {
        lemma_group_and_kickers(pool, q, 1);
    }
}

/// The cards of three of a kind are five cards of the pool.
pub proof fn lemma_trips_is_five(pool: Seq<Card>)
    ensures
        trips(pool) matches Some(cards) ==> is_five_of(cards, pool),
{
    let t = highest_group(pool, 3, true, 0, 14);
    lemma_highest_group(pool, 3, true, 0, 14);
    if t != 0 && without_values(pool, t, 0).len() >= 2 {
        lemma_group_and_kickers(pool, t, 2);
    }
}

/// The cards of one pair are five cards of the pool.
pub proof fn lemma_pair_is_five(pool: Seq<Card>)
    ensures
        pair(pool) matches Some(cards) ==> is_five_of(cards, pool),
{
    let a = highest_group(pool, 2, true, 0, 14);
    lemma_highest_group(pool, 2, true, 0, 14);
    if a != 0 && without_values(pool, a, 0).len() >= 3 {
        lemma_group_and_kickers(pool, a, 3);
    }
}

/// Two groups of different ranks followed by the first `wanted` cards of
/// other ranks are cards of the pool, all different when the pool holds no
/// card twice.
proof fn lemma_two_groups_and_kickers(pool: Seq<Card>, a: nat, b: nat, wanted: int)
    requires
        a != b,
        0 <= wanted <= without_values(pool, a, b).len(),
    ensures
        ({
            let cards = with_value(pool, a) + with_value(pool, b) + without_values(pool, a, b).take(
                wanted,
            );
            &&& cards.len() == count_of(pool, a) + count_of(pool, b) + wanted
            &&& drawn_from(cards, pool)
            &&& pool.no_duplicates() ==> cards.no_duplicates()
        }),
{
    let first = with_value(pool, a);
    let second = with_value(pool, b);
    let others = without_values(pool, a, b);
    let cards = first + second + others.take(wanted);
    lemma_filter_keeps(pool, has_value(a));
    lemma_filter_keeps(pool, has_value(b));
    lemma_filter_keeps(pool, avoids(a, b));
    let n = first.len();
    let m = second.len();
    assert forall|k: int| 0 <= k < cards.len() implies pool.contains(#[trigger] cards[k]) && (if k
        < n {
        cards[k].value() == a
    } else if k < n + m {
        cards[k].value() == b
    } else {
        cards[k].value() != a && cards[k].value() != b
    }) by {
        if k < n {
            assert(cards[k] == first[k]);
        } else if k < n + m {
            assert(cards[k] == second[k - n]);
        } else {
            assert(cards[k] == others[k - n - m]);
        }
    }
    if pool.no_duplicates() {
        assert forall|i: int, j: int| 0 <= i < cards.len() && 0 <= j < cards.len() && i
            != j implies cards[i] != cards[j] by {
            if i < n && j < n {
                assert(cards[i] == first[i] && cards[j] == first[j]);
            } else if n <= i < n + m && n <= j < n + m {
                assert(cards[i] == second[i - n] && cards[j] == second[j - n]);
            } else if i >= n + m && j >= n + m {
                assert(cards[i] == others[i - n - m] && cards[j] == others[j - n - m]);
            }
        }
    }
}

/// The cards of a full house are five cards of the pool.
pub proof fn lemma_full_house_is_five(pool: Seq<Card>)
    ensures
        full_house(pool) matches Some(cards) ==> is_five_of(cards, pool),
{
    let t = highest_group(pool, 3, false, 0, 14);
    let p = highest_group(pool, 2, false, t, 14);
    lemma_highest_group(pool, 2, false, t, 14);
    if t != 0 && p != 0 && count_of(pool, t) == 3 && count_of(pool, p) == 2 {
        lemma_two_groups_and_kickers(pool, t, p, 0);
        assert(with_value(pool, t) + with_value(pool, p) + without_values(pool, t, p).take(0)
            =~= with_value(pool, t) + with_value(pool, p));
    }
}

/// The cards of two pair are five cards of the pool.
pub proof fn lemma_two_pair_is_five(pool: Seq<Card>)
    ensures
        two_pair(pool) matches Some(cards) ==> is_five_of(cards, pool),
{
    let a = highest_group(pool, 2, true, 0, 14);
    let b = highest_group(pool, 2, true, a, 14);
    lemma_highest_group(pool, 2, true, 0, 14);
    lemma_highest_group(pool, 2, true, a, 14);
    if a != 0 && b != 0 && without_values(pool, a, b).len() >= 1 {
        lemma_two_groups_and_kickers(pool, a, b, 1);
    }
}

/// The best hand of a pool of five or more cards is made of five cards of
/// the pool, five different cards when the pool holds no card twice, and its
/// category is one of the ten.
pub proof fn lemma_best_hand_is_five(pool: Seq<Card>)
    requires
        pool.len() >= 5,
    ensures
        is_five_of(best_hand(pool).cards, pool),
        1 <= best_hand(pool).value <= 10,
{
    lemma_straight_flush_is_five(pool, 0);
    lemma_quads_is_five(pool);
    lemma_full_house_is_five(pool);
    lemma_flush_is_five(pool, 0);
    lemma_straight_is_five(pool);
    lemma_trips_is_five(pool);
    lemma_two_pair_is_five(pool);
    lemma_pair_is_five(pool);
    let top = pool.take(5);
    assert forall|k: int| 0 <= k < 5 implies pool.contains(#[trigger] top[k]) by {
        assert(top[k] == pool[k]);
    }
}

} // verus!
