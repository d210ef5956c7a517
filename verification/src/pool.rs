//! What the evaluator reads from a pool of cards: the cards of one rank or of
//! one suit in pool order, how many cards a rank has, and the highest rank
//! whose group has a given size.

use vstd::prelude::*;
use crate::card::{Card, Suit};

verus! {

/// What a list of lists of cards is to the contracts.
pub open spec fn lists_view(lists: Seq<Vec<Card>>) -> Seq<Seq<Card>> {
    Seq::new(lists.len(), |i: int| lists[i]@)
}

/// The predicate "has rank value `v`".
pub open spec fn has_value(v: nat) -> spec_fn(Card) -> bool {
    |c: Card| c.value() == v
}

/// The predicate "has suit `s`".
pub open spec fn has_suit(s: Suit) -> spec_fn(Card) -> bool {
    |c: Card| c.suit == s
}

/// The predicate "has neither rank value `a` nor rank value `b`".
pub open spec fn avoids(a: nat, b: nat) -> spec_fn(Card) -> bool {
    |c: Card| c.value() != a && c.value() != b
}

/// The cards of rank value `v`, in pool order.
pub open spec fn with_value(pool: Seq<Card>, v: nat) -> Seq<Card> {
    pool.filter(has_value(v))
}

/// The cards of suit `s`, in pool order.
pub open spec fn with_suit(pool: Seq<Card>, s: Suit) -> Seq<Card> {
    pool.filter(has_suit(s))
}

/// The cards whose rank value is neither `a` nor `b`, in pool order.
pub open spec fn without_values(pool: Seq<Card>, a: nat, b: nat) -> Seq<Card> {
    pool.filter(avoids(a, b))
}

/// How many cards of the pool have rank value `v`.
pub open spec fn count_of(pool: Seq<Card>, v: nat) -> nat {
    with_value(pool, v).len()
}

/// The suit with the given index; indices past the last suit give `Clubs`.
pub open spec fn suit_at(index: nat) -> Suit {
    if index == 0 {
        Suit::Diamonds
    } else if index == 1 {
        Suit::Spades
    } else if index == 2 {
        Suit::Hearts
    } else {
        Suit::Clubs
    }
}

/// `groups` holds, for each rank value `0..15`, the cards of that value.
pub open spec fn is_grouping_by_number(groups: Seq<Vec<Card>>, pool: Seq<Card>) -> bool {
    &&& groups.len() == 15
    &&& forall|v: int| 0 <= v < 15 ==> (#[trigger] groups[v])@ == with_value(pool, v as nat)
}

/// `groups` holds, for each suit index `0..4`, the cards of that suit.
pub open spec fn is_grouping_by_suit(groups: Seq<Vec<Card>>, pool: Seq<Card>) -> bool {
    &&& groups.len() == 4
    &&& forall|s: int| 0 <= s < 4 ==> (#[trigger] groups[s])@ == with_suit(pool, suit_at(s as nat))
}

/// Whether the group of rank value `v` can serve: it is not the excluded
/// rank, and it has exactly `size` cards, or at least `size` when `exact` is
/// false. Pass 0 as `excluded` to exclude nothing.
pub open spec fn qualifies(pool: Seq<Card>, v: nat, size: nat, exact: bool, excluded: nat) -> bool {
    &&& v != excluded
    &&& if exact {
        count_of(pool, v) == size
    } else {
        count_of(pool, v) >= size
    }
}

/// The highest rank value in `2..=limit` whose group qualifies, or 0 when
/// there is none.
pub open spec fn highest_group(
    pool: Seq<Card>,
    size: nat,
    exact: bool,
    excluded: nat,
    limit: nat,
) -> nat
    decreases limit,
{
    if limit < 2 {
        0
    } else if qualifies(pool, limit, size, exact, excluded) {
        limit
    } else {
        highest_group(pool, size, exact, excluded, (limit - 1) as nat)
    }
}

/// `highest_group` returns a qualifying value that no qualifying value up to
/// `limit` exceeds, and 0 only when no value in `2..=limit` qualifies.
pub proof fn lemma_highest_group(pool: Seq<Card>, size: nat, exact: bool, excluded: nat, limit: nat)
    ensures
        ({
            let h = highest_group(pool, size, exact, excluded, limit);
            &&& h == 0 || (2 <= h <= limit && qualifies(pool, h, size, exact, excluded))
            &&& forall|v: nat|
                h < v <= limit && 2 <= v ==> !#[trigger] qualifies(pool, v, size, exact, excluded)
        }),
    decreases limit,
{
    if limit >= 2 && !qualifies(pool, limit, size, exact, excluded) {
        lemma_highest_group(pool, size, exact, excluded, (limit - 1) as nat);
    }
}

/// Whether the pool holds a card of rank value `v`.
pub open spec fn holds(pool: Seq<Card>, v: nat) -> bool {
    count_of(pool, v) > 0
}

/// The rank value that fills step `slot` of a run: the ace fills step 1,
/// below the two; every other step is filled by its own value.
pub open spec fn filled_by(slot: nat) -> nat {
    if slot == 1 {
        14
    } else {
        slot
    }
}

/// Whether the pool holds five ranks in a row, the highest of value `high`.
/// With `high == 5` the run is five, four, three, two, ace.
pub open spec fn has_run(pool: Seq<Card>, high: nat) -> bool {
    &&& 5 <= high <= 14
    &&& holds(pool, high)
    &&& holds(pool, (high - 1) as nat)
    &&& holds(pool, (high - 2) as nat)
    &&& holds(pool, (high - 3) as nat)
    &&& holds(pool, filled_by((high - 4) as nat))
}

/// The highest `high` in `5..=limit` with a run, or 0 when there is none.
pub open spec fn straight_high(pool: Seq<Card>, limit: nat) -> nat
    decreases limit,
{
    if limit < 5 {
        0
    } else if has_run(pool, limit) {
        limit
    } else {
        straight_high(pool, (limit - 1) as nat)
    }
}

/// `straight_high` returns the high end of a run that no run up to `limit`
/// exceeds, and 0 only when there is no run up to `limit`.
pub proof fn lemma_straight_high(pool: Seq<Card>, limit: nat)
    ensures
        ({
            let h = straight_high(pool, limit);
            &&& h == 0 || (5 <= h <= limit && has_run(pool, h))
            &&& forall|t: nat| h < t <= limit ==> !#[trigger] has_run(pool, t)
        }),
    decreases limit,
{
    if limit >= 5 && !has_run(pool, limit) {
        lemma_straight_high(pool, (limit - 1) as nat);
    }
}

/// The first card of rank value `v` in pool order.
pub open spec fn first_of(pool: Seq<Card>, v: nat) -> Card {
    with_value(pool, v)[0]
}

/// The cards of the run that ends at `high`, from the high end down: for each
/// rank, the first card of that rank in pool order.
pub open spec fn run_cards(pool: Seq<Card>, high: nat) -> Seq<Card> {
    seq![
        first_of(pool, high),
        first_of(pool, (high - 1) as nat),
        first_of(pool, (high - 2) as nat),
        first_of(pool, (high - 3) as nat),
        first_of(pool, filled_by((high - 4) as nat)),
    ]
}

/// The pool is ordered from the highest rank value to the lowest.
pub open spec fn sorted_descending(pool: Seq<Card>) -> bool {
    forall|i: int, j: int| 0 <= i <= j < pool.len() ==> pool[i].value() >= pool[j].value()
}

/// Every card of the pool is one of the fifty-two cards of the deck.
pub open spec fn all_standard(pool: Seq<Card>) -> bool {
    forall|i: int| 0 <= i < pool.len() ==> (#[trigger] pool[i]).is_standard()
}

/// Every card of `cards` occurs in `pool`.
pub open spec fn drawn_from(cards: Seq<Card>, pool: Seq<Card>) -> bool {
    forall|k: int| 0 <= k < cards.len() ==> pool.contains(#[trigger] cards[k])
}

} // verus!
