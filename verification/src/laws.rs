//! What holds of the evaluator, of the showdown and of the labels, for all
//! inputs.

use vstd::prelude::*;
use vstd::seq_lib::seq_to_set_is_finite;
use vstd::set_lib::lemma_len_subset;
use crate::dealer::Dealer;
use crate::card::{Card, CardNumber, short_label, Suit};
use crate::file_io::{
    all_digits, data_of, decimal, digit_char, digits_value, is_digit, joined_numbers,
    lemma_split_fields_len, line_of, number_of, numbers_in, split_fields, total_data_of, trim_end,
    trim_start, trimmed,
};
use crate::filtering::{lemma_filter_keeps, lemma_filter_same, lemma_filter_twice};
use crate::pool::{
    avoids,
    all_standard, count_of, drawn_from, filled_by, has_run, has_suit, has_value, highest_group,
    lemma_highest_group, lemma_straight_high, qualifies, sorted_descending, straight_high,
    suit_at, with_suit, with_value, without_values,
};
use crate::ranking::{
    best_hand, flush_from, full_house, lemma_straight_is_five, straight, straight_flush_from,
    trips,
};
use crate::hand::HandView;
use crate::showdown::{
    ahead, tied,
    at_slot, Entry, is_winner, kicker_slots, leads, lemma_ahead_or_tied, lemma_all_lead_at_start,
    lemma_round, lemma_winners_are_of_strongest_category, lemma_winners_within_category,
    of_category, outranks, slot_value, winners,
};
use crate::sorting::{lemma_sorted_by_value, sorted_by_value};

verus! {

/// The five cards have one suit.
pub open spec fn is_suited(five: Seq<Card>) -> bool {
    forall|k: int| 0 <= k < five.len() ==> (#[trigger] five[k]).suit == five[0].suit
}

/// The five cards have five ranks in a row; the ace may stand below the two.
pub open spec fn is_run(five: Seq<Card>) -> bool {
    exists|high: nat| has_run(five, high)
}

/// Some rank has exactly `size` of the cards.
pub open spec fn has_group_of(five: Seq<Card>, size: nat) -> bool {
    exists|v: nat| #[trigger] count_of(five, v) == size
}

/// Two different ranks have exactly two of the cards each.
pub open spec fn has_two_pairs(five: Seq<Card>) -> bool {
    exists|v: nat, w: nat|
        v != w && #[trigger] count_of(five, v) == 2 && #[trigger] count_of(five, w) == 2
}

/// The strength of the category of five cards taken as a hand, by the rules
/// of poker and whatever the order of the cards: 10 for a royal flush down
/// to 1 for a high card.
pub open spec fn category_of(five: Seq<Card>) -> nat {
    if is_suited(five) && has_run(five, 14) {
        10
    } else if is_suited(five) && is_run(five) {
        9
    } else if has_group_of(five, 4) {
        8
    } else if has_group_of(five, 3) && has_group_of(five, 2) {
        7
    } else if is_suited(five) {
        6
    } else if is_run(five) {
        5
    } else if has_group_of(five, 3) {
        4
    } else if has_two_pairs(five) {
        3
    } else if has_group_of(five, 2) {
        2
    } else {
        1
    }
}

/// Two different ranks have exactly three cards of the pool each.
pub open spec fn has_two_triples(pool: Seq<Card>) -> bool {
    exists|v: nat, w: nat|
        v != w && #[trigger] count_of(pool, v) == 3 && #[trigger] count_of(pool, w) == 3
}

/// Different items that all occur in a sequence are no more than the
/// sequence has items.
pub proof fn lemma_distinct_items_fit<A>(items: Seq<A>, within: Seq<A>)
    requires
        items.no_duplicates(),
        forall|k: int| 0 <= k < items.len() ==> within.contains(#[trigger] items[k]),
    ensures
        items.len() <= within.len(),
{
    items.unique_seq_to_set();
    within.lemma_cardinality_of_set();
    seq_to_set_is_finite(within);
    assert(items.to_set().subset_of(within.to_set())) by {
        assert forall|a: A| items.to_set().contains(a) implies within.to_set().contains(a) by {
            let k = choose|k: int| 0 <= k < items.len() && items[k] == a;
            assert(within.contains(items[k]));
        }
    }
    lemma_len_subset(items.to_set(), within.to_set());
}

/// Of different cards taken from a pool, no more meet a predicate than
/// cards of the pool do.
pub proof fn lemma_fewer_kept(cards: Seq<Card>, pool: Seq<Card>, keep: spec_fn(Card) -> bool)
    requires
        cards.no_duplicates(),
        drawn_from(cards, pool),
    ensures
        cards.filter(keep).len() <= pool.filter(keep).len(),
{
    lemma_filter_keeps(cards, keep);
    lemma_filter_keeps(pool, keep);
    let kept = cards.filter(keep);
    assert forall|k: int| 0 <= k < kept.len() implies pool.filter(keep).contains(#[trigger] kept[k]) by {
        assert(cards.contains(kept[k]));
        let j = choose|j: int| 0 <= j < cards.len() && cards[j] == kept[k];
        assert(pool.contains(cards[j]));
    }
    lemma_distinct_items_fit(kept, pool.filter(keep));
}

/// A rank that a pool of standard cards holds has a value from 2 to 14.
pub proof fn lemma_held_value_is_standard(pool: Seq<Card>, v: nat)
    requires
        all_standard(pool),
        count_of(pool, v) > 0,
    ensures
        2 <= v <= 14,
{
    lemma_filter_keeps(pool, has_value(v));
    let c = with_value(pool, v)[0];
    assert(pool.contains(c));
    let j = choose|j: int| 0 <= j < pool.len() && pool[j] == c;
    assert(pool[j].is_standard());
}

/// A pool without a card twice has at most four cards of one rank.
pub proof fn lemma_at_most_four(pool: Seq<Card>, v: nat)
    requires
        pool.no_duplicates(),
    ensures
        count_of(pool, v) <= 4,
{
    lemma_filter_keeps(pool, has_value(v));
    let group = with_value(pool, v);
    if group.len() > 0 {
        let number = group[0].number;
        let four = seq![
            Card { suit: Suit::Diamonds, number },
            Card { suit: Suit::Spades, number },
            Card { suit: Suit::Hearts, number },
            Card { suit: Suit::Clubs, number },
        ];
        assert forall|k: int| 0 <= k < group.len() implies four.contains(#[trigger] group[k]) by {
            let c = group[k];
            assert(c.value() == v && group[0].value() == v);
            assert(c.number == number);
            assert(c == four[c.suit.index() as int]);
        }
        lemma_distinct_items_fit(group, four);
    }
}

/// Every card of a pool has rank value `a`, or rank value `b`, or neither.
pub proof fn lemma_counts_add_up(pool: Seq<Card>, a: nat, b: nat)
    requires
        a != b,
    ensures
        count_of(pool, a) + count_of(pool, b) + without_values(pool, a, b).len() == pool.len(),
    decreases pool.len(),
{
    reveal(Seq::filter);
    if pool.len() > 0 {
        lemma_counts_add_up(pool.drop_last(), a, b);
    }
}

/// No card has rank value 0.
pub proof fn lemma_no_card_of_value_zero(pool: Seq<Card>)
    ensures
        count_of(pool, 0) == 0,
{
    lemma_filter_keeps(pool, has_value(0));
    if count_of(pool, 0) > 0 {
        assert(with_value(pool, 0)[0].value() == 0);
    }
}

/// A value in `2..=14` that qualifies is found by the scan for the highest
/// group.
pub proof fn lemma_group_found(pool: Seq<Card>, v: nat, size: nat, exact: bool, excluded: nat)
    requires
        2 <= v <= 14,
        qualifies(pool, v, size, exact, excluded),
    ensures
        highest_group(pool, size, exact, excluded, 14) >= v,
{
    lemma_highest_group(pool, size, exact, excluded, 14);
}

/// A suit with five cards gives a flush.
pub proof fn lemma_flush_found(pool: Seq<Card>, s: Suit, from: nat)
    requires
        with_suit(pool, s).len() >= 5,
        from <= s.index(),
    ensures
        flush_from(pool, from) is Some,
    decreases 4 - from,
{
    if suit_at(from) != s {
        lemma_flush_found(pool, s, from + 1);
    }
}

/// In a pool of up to nine cards without a card twice, a straight within a
/// suit is the straight flush of the pool.
pub proof fn lemma_straight_flush_found(pool: Seq<Card>, s: Suit, from: nat)
    requires
        pool.len() <= 9,
        pool.no_duplicates(),
        straight(with_suit(pool, s)) is Some,
        from <= s.index(),
    ensures
        straight_flush_from(pool, from) == straight(with_suit(pool, s)),
    decreases 4 - from,
{
    let other = suit_at(from);
    if other != s {
        if straight(with_suit(pool, other)) is Some {
            lemma_straight_needs_five(with_suit(pool, s));
            lemma_straight_needs_five(with_suit(pool, other));
            lemma_filter_keeps(pool, has_suit(s));
            lemma_filter_keeps(pool, has_suit(other));
            let both = with_suit(pool, s) + with_suit(pool, other);
            assert forall|i: int, j: int| 0 <= i < both.len() && 0 <= j < both.len() && i
                != j implies both[i] != both[j] by {
                let n = with_suit(pool, s).len();
                if i < n && j < n {
                    assert(both[i] == with_suit(pool, s)[i] && both[j] == with_suit(pool, s)[j]);
                } else if i >= n && j >= n {
                    assert(both[i] == with_suit(pool, other)[i - n] && both[j] == with_suit(
                        pool,
                        other,
                    )[j - n]);
                } else if i < n {
                    assert(both[i] == with_suit(pool, s)[i] && both[j] == with_suit(pool, other)[j
                        - n]);
                } else {
                    assert(both[j] == with_suit(pool, s)[j] && both[i] == with_suit(pool, other)[i
                        - n]);
                }
            }
            assert forall|k: int| 0 <= k < both.len() implies pool.contains(#[trigger] both[k]) by {
                let n = with_suit(pool, s).len();
                if k < n {
                    assert(both[k] == with_suit(pool, s)[k]);
                } else {
                    assert(both[k] == with_suit(pool, other)[k - n]);
                }
            }
            lemma_distinct_items_fit(both, pool);
        }
        lemma_straight_flush_found(pool, s, from + 1);
    }
}

/// A pool that holds a straight has five cards or more.
pub proof fn lemma_straight_needs_five(pool: Seq<Card>)
    requires
        straight(pool) is Some,
    ensures
        pool.len() >= 5,
{
    lemma_straight_is_five(pool);
    lemma_distinct_items_fit(straight(pool)->0, pool);
}

/// A run among different cards of the pool is a run of the pool.
pub proof fn lemma_run_in_pool(five: Seq<Card>, pool: Seq<Card>, high: nat)
    requires
        five.no_duplicates(),
        drawn_from(five, pool),
        has_run(five, high),
    ensures
        has_run(pool, high),
        straight(pool) is Some,
        straight_high(pool, 14) >= high,
{
    lemma_fewer_kept(five, pool, has_value(high));
    lemma_fewer_kept(five, pool, has_value((high - 1) as nat));
    lemma_fewer_kept(five, pool, has_value((high - 2) as nat));
    lemma_fewer_kept(five, pool, has_value((high - 3) as nat));
    lemma_fewer_kept(five, pool, has_value(filled_by((high - 4) as nat)));
    lemma_straight_high(pool, 14);
    assert(has_run(pool, high));
    assert(straight_high(pool, 14) >= high);
}

/// The best hand of a pool is at least as strong as any five cards of the
/// pool: no choice of five different cards from the pool makes a hand of a
/// stronger category than the one that the evaluator returns.
///
/// This holds of a pool of five to seven different standard cards, but for
/// the pools that hold three cards of one rank and three of another. There
/// the rules of poker see a full house and the evaluator three of a kind,
/// because it does not split a group of three to make a pair.
pub proof fn lemma_best_hand_is_strongest(pool: Seq<Card>, five: Seq<Card>)
    requires
        5 <= pool.len() <= 7,
        all_standard(pool),
        pool.no_duplicates(),
        !has_two_triples(pool),
        five.len() == 5,
        five.no_duplicates(),
        drawn_from(five, pool),
    ensures
        category_of(five) <= best_hand(pool).value,
{
    let category = category_of(five);
    let best = best_hand(pool).value;
    lemma_no_card_of_value_zero(pool);
    lemma_highest_group(pool, 4, true, 0, 14);
    lemma_highest_group(pool, 3, true, 0, 14);
    lemma_highest_group(pool, 3, false, 0, 14);
    lemma_highest_group(pool, 2, true, 0, 14);
    if category >= 9 {
        let s = five[0].suit;
        let suited = with_suit(pool, s);
        let high = choose|high: nat| has_run(five, high);
        lemma_filter_keeps(pool, has_suit(s));
        assert forall|k: int| 0 <= k < five.len() implies suited.contains(#[trigger] five[k]) by {
            assert(pool.contains(five[k]));
        }
        lemma_run_in_pool(five, suited, high);
        lemma_straight_flush_found(pool, s, 0);
        if category == 10 {
            lemma_run_in_pool(five, suited, 14);
            lemma_straight_is_five(suited);
        }
    } else if best >= 8 {
    } else if category == 8 {
        let v = choose|v: nat| #[trigger] count_of(five, v) == 4;
        lemma_fewer_kept(five, pool, has_value(v));
        lemma_at_most_four(pool, v);
        lemma_held_value_is_standard(pool, v);
        lemma_counts_add_up(pool, v, 0);
        lemma_group_found(pool, v, 4, true, 0);
        let q = highest_group(pool, 4, true, 0, 14);
        lemma_counts_add_up(pool, q, 0);
    } else {
        // No rank has four cards of the pool: the pool holds no four of a kind.
        assert forall|v: nat| 2 <= v <= 14 implies #[trigger] count_of(pool, v) <= 3 by {
            lemma_at_most_four(pool, v);
            if count_of(pool, v) == 4 {
                lemma_group_found(pool, v, 4, true, 0);
                let q = highest_group(pool, 4, true, 0, 14);
                lemma_counts_add_up(pool, q, 0);
            }
        }
        if best >= 7 {
        } else if category == 7 {
            let v = choose|v: nat| #[trigger] count_of(five, v) == 3;
            let w = choose|w: nat| #[trigger] count_of(five, w) == 2;
            lemma_fewer_kept(five, pool, has_value(v));
            lemma_fewer_kept(five, pool, has_value(w));
            lemma_held_value_is_standard(pool, v);
            lemma_held_value_is_standard(pool, w);
            lemma_group_found(pool, v, 3, false, 0);
            let t = highest_group(pool, 3, false, 0, 14);
            lemma_highest_group(pool, 2, false, t, 14);
            if w != t {
                lemma_group_found(pool, w, 2, false, t);
            } else {
                lemma_group_found(pool, v, 2, false, t);
            }
            let p = highest_group(pool, 2, false, t, 14);
            assert(count_of(pool, t) == 3);
            assert(count_of(pool, p) != 3);
        } else if best >= 6 {
        } else if category == 6 {
            let s = five[0].suit;
            lemma_fewer_kept(five, pool, has_suit(s));
            lemma_filter_keeps(five, has_suit(s));
            lemma_filter_same(five, has_suit(s), |c: Card| true);
            lemma_keep_all_cards(five);
            lemma_flush_found(pool, s, 0);
        } else if best >= 5 {
        } else if category == 5 {
            let high = choose|high: nat| has_run(five, high);
            lemma_run_in_pool(five, pool, high);
        } else if best >= 4 {
        } else if category == 4 {
            let v = choose|v: nat| #[trigger] count_of(five, v) == 3;
            lemma_fewer_kept(five, pool, has_value(v));
            lemma_held_value_is_standard(pool, v);
            lemma_group_found(pool, v, 3, true, 0);
            let t = highest_group(pool, 3, true, 0, 14);
            lemma_counts_add_up(pool, t, 0);
        } else {
            // No rank has three cards of the pool either.
            assert forall|v: nat| 2 <= v <= 14 implies #[trigger] count_of(pool, v) <= 2 by {
                if count_of(pool, v) == 3 {
                    lemma_group_found(pool, v, 3, true, 0);
                    let t = highest_group(pool, 3, true, 0, 14);
                    lemma_counts_add_up(pool, t, 0);
                }
            }
            if best >= 3 {
            } else if category == 3 {
                let (v, w) = choose|v: nat, w: nat|
                    v != w && #[trigger] count_of(five, v) == 2 && #[trigger] count_of(five, w)
                        == 2;
                lemma_fewer_kept(five, pool, has_value(v));
                lemma_fewer_kept(five, pool, has_value(w));
                lemma_held_value_is_standard(pool, v);
                lemma_held_value_is_standard(pool, w);
                lemma_group_found(pool, v, 2, true, 0);
                let a = highest_group(pool, 2, true, 0, 14);
                lemma_highest_group(pool, 2, true, a, 14);
                if v != a {
                    lemma_group_found(pool, v, 2, true, a);
                } else {
                    lemma_group_found(pool, w, 2, true, a);
                }
                let b = highest_group(pool, 2, true, a, 14);
                lemma_counts_add_up(pool, a, b);
            } else if best >= 2 {
            } else if category == 2 {
                let v = choose|v: nat| #[trigger] count_of(five, v) == 2;
                lemma_fewer_kept(five, pool, has_value(v));
                lemma_held_value_is_standard(pool, v);
                lemma_group_found(pool, v, 2, true, 0);
                let a = highest_group(pool, 2, true, 0, 14);
                lemma_counts_add_up(pool, a, 0);
            }
        }
    }
}

/// Keeping by a predicate that always holds keeps every card.
proof fn lemma_keep_all_cards(cards: Seq<Card>)
    ensures
        cards.filter(|c: Card| true) == cards,
    decreases cards.len(),
{
    reveal(Seq::filter);
    if cards.len() > 0 {
        lemma_keep_all_cards(cards.drop_last());
        assert(cards =~= cards.drop_last().push(cards.last()));
    }
}

/// A pool in which two ranks have three cards each holds cards of at most
/// one other rank, and at most one such card in a pool of seven.
proof fn lemma_two_triples_leave_one(pool: Seq<Card>, v: nat, w: nat)
    requires
        pool.len() <= 7,
        v != w,
        count_of(pool, v) == 3,
        count_of(pool, w) == 3,
    ensures
        without_values(pool, v, w).len() <= 1,
        forall|x: nat| x != v && x != w ==> #[trigger] count_of(pool, x) <= 1,
{
    lemma_counts_add_up(pool, v, w);
    let others = without_values(pool, v, w);
    lemma_filter_keeps(pool, avoids(v, w));
    assert forall|x: nat| x != v && x != w implies #[trigger] count_of(pool, x) <= 1 by {
        let group = with_value(pool, x);
        lemma_filter_keeps(pool, has_value(x));
        // every card of rank `x` is one of the other cards, and a card of the
        // pool stands among them as often as in the pool
        lemma_filter_twice(pool, avoids(v, w), has_value(x), has_value(x));
        lemma_filter_keeps(others, has_value(x));
    }
}

/// A pool of five to seven different standard cards in which two ranks have
/// three cards each is ranked as three of a kind: the evaluator finds no
/// full house there, because it does not split the lower group of three.
pub proof fn lemma_two_triples_rank_as_trips(pool: Seq<Card>)
    requires
        5 <= pool.len() <= 7,
        all_standard(pool),
        pool.no_duplicates(),
        has_two_triples(pool),
    ensures
        best_hand(pool).value == 4,
{
    let (v, w) = choose|v: nat, w: nat|
        v != w && #[trigger] count_of(pool, v) == 3 && #[trigger] count_of(pool, w) == 3;
    lemma_two_triples_leave_one(pool, v, w);
    lemma_held_value_is_standard(pool, v);
    lemma_held_value_is_standard(pool, w);
    lemma_no_card_of_value_zero(pool);
    let high = if v > w {
        v
    } else {
        w
    };
    let low = if v > w {
        w
    } else {
        v
    };
    // no run of five ranks: the pool holds three ranks at most
    assert forall|t: nat| !#[trigger] has_run(pool, t) by {
        if has_run(pool, t) {
            let a = t;
            let b = (t - 1) as nat;
            let c = (t - 2) as nat;
            assert(count_of(pool, a) >= 1 && count_of(pool, b) >= 1 && count_of(pool, c) >= 1);
            let d = (t - 3) as nat;
            assert(count_of(pool, d) >= 1);
            // of four different ranks, two are neither `v` nor `w`
            let x = if a != v && a != w {
                a
            } else if b != v && b != w {
                b
            } else {
                c
            };
            let y = if d != v && d != w && d != x {
                d
            } else if c != v && c != w && c != x {
                c
            } else {
                b
            };
            lemma_two_other_ranks(pool, v, w, x, y);
        }
    }
    lemma_straight_high(pool, 14);
    assert(straight(pool) is None);
    // no suit has five cards: five cards of one suit have five ranks
    assert forall|s: Suit| with_suit(pool, s).len() < 5 by {
        lemma_suit_has_as_many_ranks(pool, s, v, w);
    }
    lemma_no_flush(pool, 0);
    lemma_no_straight_flush(pool, 0);
    // no rank has four cards
    lemma_highest_group(pool, 4, true, 0, 14);
    assert(highest_group(pool, 4, true, 0, 14) == 0) by {
        let q = highest_group(pool, 4, true, 0, 14);
        if q != 0 {
            assert(count_of(pool, q) == 4);
        }
    }
    // the triple is the higher group, and the lower group has three cards
    lemma_group_found(pool, high, 3, false, 0);
    lemma_highest_group(pool, 3, false, 0, 14);
    let t = highest_group(pool, 3, false, 0, 14);
    assert(t == high) by {
        if t != v && t != w {
            assert(count_of(pool, t) <= 1);
        }
    }
    lemma_group_found(pool, low, 2, false, t);
    lemma_highest_group(pool, 2, false, t, 14);
    let p = highest_group(pool, 2, false, t, 14);
    assert(p == low) by {
        if p != v && p != w {
            assert(count_of(pool, p) <= 1);
        }
    }
    assert(full_house(pool) is None);
    // three of a kind: the higher group with two kickers
    lemma_group_found(pool, high, 3, true, 0);
    lemma_highest_group(pool, 3, true, 0, 14);
    let found = highest_group(pool, 3, true, 0, 14);
    lemma_counts_add_up(pool, found, 0);
    assert(trips(pool) is Some);
}

/// Two different ranks that a pool holds besides `v` and `w` are held by two
/// cards that have neither rank `v` nor rank `w`.
proof fn lemma_two_other_ranks(pool: Seq<Card>, v: nat, w: nat, x: nat, y: nat)
    requires
        x != y,
        x != v && x != w,
        y != v && y != w,
        count_of(pool, x) >= 1,
        count_of(pool, y) >= 1,
    ensures
        without_values(pool, v, w).len() >= 2,
{
    let others = without_values(pool, v, w);
    lemma_filter_keeps(pool, has_value(x));
    lemma_filter_keeps(pool, has_value(y));
    lemma_filter_keeps(pool, avoids(v, w));
    let first = with_value(pool, x)[0];
    let second = with_value(pool, y)[0];
    assert(pool.contains(first) && pool.contains(second));
    assert(others.contains(first));
    assert(others.contains(second));
    let i = choose|i: int| 0 <= i < others.len() && others[i] == first;
    let j = choose|j: int| 0 <= j < others.len() && others[j] == second;
    assert(first.value() == x && second.value() == y);
    assert(i != j);
}

/// In a pool without a card twice in which two ranks have three of up to
/// seven cards each, no suit has five cards.
proof fn lemma_suit_has_as_many_ranks(pool: Seq<Card>, s: Suit, v: nat, w: nat)
    requires
        pool.no_duplicates(),
        v != w,
        without_values(pool, v, w).len() <= 1,
    ensures
        with_suit(pool, s).len() < 5,
{
    let suited = with_suit(pool, s);
    lemma_filter_keeps(pool, has_suit(s));
    lemma_filter_keeps(pool, avoids(v, w));
    if suited.len() >= 5 {
        // of five cards of one suit, two at most have rank `v` or `w`
        let others = without_values(pool, v, w);
        assert forall|i: int, j: int| 0 <= i < 5 && 0 <= j < 5 && i != j implies suited[i].value()
            != suited[j].value() by {
            assert(suited[i] != suited[j]);
            assert(suited[i].suit == s && suited[j].suit == s);
        }
        let x = if suited[0].value() != v && suited[0].value() != w {
            0int
        } else if suited[1].value() != v && suited[1].value() != w {
            1int
        } else {
            2int
        };
        let y = if suited[4].value() != v && suited[4].value() != w && x != 4 {
            4int
        } else if suited[3].value() != v && suited[3].value() != w && x != 3 {
            3int
        } else {
            2int
        };
        assert(x != y);
        assert(suited[x].value() != v && suited[x].value() != w);
        assert(suited[y].value() != v && suited[y].value() != w);
        assert(pool.contains(suited[x]) && pool.contains(suited[y]));
        assert(others.contains(suited[x]));
        assert(others.contains(suited[y]));
        let i = choose|i: int| 0 <= i < others.len() && others[i] == suited[x];
        let j = choose|j: int| 0 <= j < others.len() && others[j] == suited[y];
        assert(suited[x] != suited[y]);
    }
}

/// A pool in which no suit has five cards holds no flush.
proof fn lemma_no_flush(pool: Seq<Card>, from: nat)
    requires
        forall|s: Suit| with_suit(pool, s).len() < 5,
    ensures
        flush_from(pool, from) is None,
    decreases 4 - from,
{
    if from < 4 {
        assert(with_suit(pool, suit_at(from)).len() < 5);
        lemma_no_flush(pool, from + 1);
    }
}

/// A pool in which no suit has five cards holds no straight flush.
proof fn lemma_no_straight_flush(pool: Seq<Card>, from: nat)
    requires
        forall|s: Suit| with_suit(pool, s).len() < 5,
    ensures
        straight_flush_from(pool, from) is None,
    decreases 4 - from,
{
    if from < 4 {
        let s = suit_at(from);
        assert(with_suit(pool, s).len() < 5);
        if straight(with_suit(pool, s)) is Some {
            lemma_straight_needs_five(with_suit(pool, s));
        }
        lemma_no_straight_flush(pool, from + 1);
    }
}

/// The hand that `evaluate_best_hand` returns for a pool given in any order
/// is at least as strong as any five cards of the pool, under the conditions
/// of `lemma_best_hand_is_strongest`.
pub proof fn lemma_evaluated_hand_is_strongest(cards: Seq<Card>, five: Seq<Card>)
    requires
        5 <= cards.len() <= 7,
        all_standard(cards),
        cards.no_duplicates(),
        !has_two_triples(cards),
        five.len() == 5,
        five.no_duplicates(),
        drawn_from(five, cards),
    ensures
        category_of(five) <= best_hand(sorted_by_value(cards)).value,
{
    let pool = sorted_by_value(cards);
    lemma_sorted_by_value(cards);
    assert forall|k: int| 0 <= k < five.len() implies pool.contains(#[trigger] five[k]) by {
        assert(cards.contains(five[k]));
    }
    if has_two_triples(pool) {
        let (v, w) = choose|v: nat, w: nat|
            v != w && #[trigger] count_of(pool, v) == 3 && #[trigger] count_of(pool, w) == 3;
        lemma_held_value_is_standard(pool, v);
        lemma_held_value_is_standard(pool, w);
        assert(with_value(pool, v) == with_value(cards, v));
        assert(with_value(pool, w) == with_value(cards, w));
        assert(count_of(cards, v) == 3 && count_of(cards, w) == 3);
    }
    lemma_best_hand_is_strongest(pool, five);
}

/// Of a sequence in which one item alone meets a predicate, the predicate
/// keeps that item alone.
proof fn lemma_filter_single<A>(items: Seq<A>, keep: spec_fn(A) -> bool, i: int)
    requires
        0 <= i < items.len(),
        forall|k: int| 0 <= k < items.len() ==> (keep(#[trigger] items[k]) <==> k == i),
    ensures
        items.filter(keep) == seq![items[i]],
    decreases items.len(),
{
    reveal(Seq::filter);
    let rest = items.drop_last();
    assert forall|k: int| 0 <= k < rest.len() implies (keep(#[trigger] rest[k]) <==> k == i) by {
        assert(rest[k] == items[k]);
    }
    if i == items.len() - 1 {
        lemma_filter_keeps(rest, keep);
        if rest.filter(keep).len() > 0 {
            let c = rest.filter(keep)[0];
            assert(rest.contains(c));
            let k = choose|k: int| 0 <= k < rest.len() && rest[k] == c;
            assert(keep(rest[k]));
        }
        assert(items.filter(keep) =~= seq![items[i]]);
    } else {
        lemma_filter_single(rest, keep, i);
        assert(!keep(items[items.len() - 1]));
        assert(rest[i] == items[i]);
    }
}

/// A player whose hand is of a stronger category than every other player's
/// hand wins alone, whatever the cards of the hands are.
pub proof fn lemma_strongest_category_wins_alone(entries: Seq<Entry>, i: int)
    requires
        0 <= i < entries.len(),
        forall|j: int|
            0 <= j < entries.len() && j != i ==> (#[trigger] entries[j]).1.value
                < entries[i].1.value,
    ensures
        winners(entries) == seq![entries[i]],
{
    let top = entries[i];
    assert forall|k: int| 0 <= k < entries.len() implies (is_winner(entries)(#[trigger] entries[k])
        <==> k == i) by {
        if k == i {
            assert forall|j: int| 0 <= j < entries.len() implies !outranks(
                (#[trigger] entries[j]).1,
                top.1,
            ) by {
                if j == i {
                    let slots = kicker_slots(top.1.value);
                    lemma_ahead_or_tied(top.1.cards, top.1.cards, slots, slots.len() as int);
                }
            }
        } else {
            assert(outranks(entries[i].1, entries[k].1));
        }
    }
    lemma_filter_single(entries, is_winner(entries), i);
}

/// The first character of a rank's shorthand.
pub open spec fn short_initial(number: CardNumber) -> char {
    match number {
        CardNumber::BottomAce => 'A',
        CardNumber::Two => '2',
        CardNumber::Three => '3',
        CardNumber::Four => '4',
        CardNumber::Five => '5',
        CardNumber::Six => '6',
        CardNumber::Seven => '7',
        CardNumber::Eight => '8',
        CardNumber::Nine => '9',
        CardNumber::Ten => '1',
        CardNumber::Jack => 'J',
        CardNumber::Queen => 'Q',
        CardNumber::King => 'K',
        CardNumber::Ace => 'A',
    }
}

/// A rank's shorthand is one character long, or two for the ten, and begins
/// with the rank's initial.
proof fn lemma_short_name(number: CardNumber)
    ensures
        number.short_name().len() == if number == CardNumber::Ten {
            2nat
        } else {
            1nat
        },
        number.short_name()[0] == short_initial(number),
{
    reveal_strlit("A");
    reveal_strlit("2");
    reveal_strlit("3");
    reveal_strlit("4");
    reveal_strlit("5");
    reveal_strlit("6");
    reveal_strlit("7");
    reveal_strlit("8");
    reveal_strlit("9");
    reveal_strlit("10");
    reveal_strlit("J");
    reveal_strlit("Q");
    reveal_strlit("K");
}

/// The shorthand label of two hole cards tells their ranks, in order, and
/// whether they are of one suit: two hands with the same label agree in all
/// three. So the ranks and the suitedness can be read back from the label.
pub proof fn lemma_short_label_tells_hand(
    first: Card,
    second: Card,
    other_first: Card,
    other_second: Card,
)
    requires
        first.is_standard(),
        second.is_standard(),
        other_first.is_standard(),
        other_second.is_standard(),
        short_label(first, second) == short_label(other_first, other_second),
    ensures
        first.number == other_first.number,
        second.number == other_second.number,
        (first.suit == second.suit) == (other_first.suit == other_second.suit),
{
    reveal_strlit(" | ");
    reveal_strlit(" ");
    reveal_strlit("Suited");
    reveal_strlit("Off Suit");
    lemma_short_name(first.number);
    lemma_short_name(second.number);
    lemma_short_name(other_first.number);
    lemma_short_name(other_second.number);
    let label = short_label(first, second);
    let other = short_label(other_first, other_second);
    let a = first.number.short_name();
    let b = second.number.short_name();
    let c = other_first.number.short_name();
    let d = other_second.number.short_name();
    let suited = if first.suit == second.suit {
        "Suited"@
    } else {
        "Off Suit"@
    };
    let other_suited = if other_first.suit == other_second.suit {
        "Suited"@
    } else {
        "Off Suit"@
    };
    assert(label == a + " | "@ + b + " "@ + suited);
    assert(other == c + " | "@ + d + " "@ + other_suited);
    assert(label[0] == a[0]);
    assert(other[0] == c[0]);
    assert(first.number == other_first.number);
    let n = a.len() as int;
    assert(label[n + 3] == b[0]);
    assert(other[n + 3] == d[0]);
    assert(second.number == other_second.number);
    let m = b.len() as int;
    assert(label[n + 3 + m + 1] == suited[0]);
    assert(other[n + 3 + m + 1] == other_suited[0]);
}

/// In a pool ordered from high to low, the cards kept by a predicate are
/// ordered from high to low. So the first cards of a suit are the highest of
/// that suit, and the first cards outside a rank are the highest kickers.
pub proof fn lemma_kept_cards_stay_sorted(pool: Seq<Card>, keep: spec_fn(Card) -> bool)
    requires
        sorted_descending(pool),
    ensures
        sorted_descending(pool.filter(keep)),
    decreases pool.len(),
{
    reveal(Seq::filter);
    if pool.len() > 0 {
        let rest = pool.drop_last();
        assert forall|i: int, j: int| 0 <= i <= j < rest.len() implies rest[i].value()
            >= rest[j].value() by {
            assert(rest[i] == pool[i] && rest[j] == pool[j]);
        }
        lemma_kept_cards_stay_sorted(rest, keep);
        lemma_filter_keeps(rest, keep);
        let kept = pool.filter(keep);
        assert forall|i: int, j: int| 0 <= i <= j < kept.len() implies kept[i].value()
            >= kept[j].value() by {
            if j == rest.filter(keep).len() && i < j {
                let c = rest.filter(keep)[i];
                assert(rest.contains(c));
                let k = choose|k: int| 0 <= k < rest.len() && rest[k] == c;
                assert(pool[k] == c);
                assert(pool[pool.len() - 1] == kept[j]);
            }
        }
    }
}

/// Among numbers, one or more, there is one that none exceeds.
proof fn lemma_highest_exists(numbers: Seq<nat>) -> (at: int)
    requires
        numbers.len() > 0,
    ensures
        0 <= at < numbers.len(),
        forall|k: int| 0 <= k < numbers.len() ==> numbers[k] <= numbers[at],
    decreases numbers.len(),
{
    if numbers.len() == 1 {
        0
    } else {
        let rest = numbers.drop_last();
        let before = lemma_highest_exists(rest);
        assert forall|k: int| 0 <= k < rest.len() implies numbers[k] <= rest[before] by {
            assert(rest[k] == numbers[k]);
        }
        if numbers.last() > rest[before] {
            numbers.len() - 1
        } else {
            before
        }
    }
}

/// However many positions are compared, somebody leads.
proof fn lemma_somebody_leads(entries: Seq<Entry>, slots: Seq<int>, upto: int)
    requires
        entries.len() > 0,
        0 <= upto,
    ensures
        entries.filter(leads(entries, slots, upto)).len() > 0,
    decreases upto,
{
    if upto == 0 {
        lemma_all_lead_at_start(entries, slots);
    } else {
        let r = upto - 1;
        lemma_somebody_leads(entries, slots, r);
        let leaders = entries.filter(leads(entries, slots, r));
        let values = Seq::new(leaders.len(), |k: int| slot_value(leaders[k].1.cards, slots, r));
        let at = lemma_highest_exists(values);
        let highest = values[at];
        assert forall|k: int| 0 <= k < leaders.len() implies slot_value(
            (#[trigger] leaders[k]).1.cards,
            slots,
            r,
        ) <= highest by {
            assert(values[k] <= values[at]);
        }
        assert(slot_value(leaders[at].1.cards, slots, r) == highest);
        lemma_round(entries, slots, r, highest);
        lemma_filter_keeps(leaders, at_slot(slots, r, highest));
        assert(leaders.contains(leaders[at]));
        assert(at_slot(slots, r, highest)(leaders[at]));
        assert(leaders.filter(at_slot(slots, r, highest)).contains(leaders[at]));
    }
}

/// A showdown between one player or more has a winner.
pub proof fn lemma_somebody_wins(entries: Seq<Entry>)
    requires
        entries.len() > 0,
    ensures
        winners(entries).len() > 0,
{
    let values = Seq::new(entries.len(), |k: int| entries[k].1.value);
    let at = lemma_highest_exists(values);
    let strongest = values[at];
    assert forall|k: int| 0 <= k < entries.len() implies (#[trigger] entries[k]).1.value
        <= strongest by {
        assert(values[k] <= values[at]);
    }
    assert(entries[at].1.value == strongest);
    lemma_winners_are_of_strongest_category(entries, strongest);
    let top = entries.filter(of_category(strongest));
    lemma_filter_keeps(entries, of_category(strongest));
    assert(entries.contains(entries[at]));
    assert(of_category(strongest)(entries[at]));
    assert(top.contains(entries[at]));
    lemma_winners_within_category(top, strongest);
    lemma_somebody_leads(top, kicker_slots(strongest), kicker_slots(strongest).len() as int);
}

/// A number written in base ten is a row of digits, one or more, that writes
/// the number.
pub proof fn lemma_decimal(number: nat)
    ensures
        decimal(number).len() >= 1,
        all_digits(decimal(number)),
        digits_value(decimal(number)) == number,
    decreases number,
{
    reveal_strlit("0123456789");
    if number < 10 {
        let text = decimal(number);
        assert(text.drop_last() =~= Seq::<char>::empty());
        assert(digits_value(text.drop_last()) == 0);
    } else {
        lemma_decimal(number / 10);
        let text = decimal(number);
        assert(text.drop_last() =~= decimal(number / 10));
        assert(text.last() == digit_char(number % 10));
        assert forall|i: int| 0 <= i < text.len() implies is_digit(#[trigger] text[i]) by {
            if i < text.len() - 1 {
                assert(text[i] == decimal(number / 10)[i]);
            }
        }
    }
}

/// A number that a `u32` can hold is read back from what is written of it.
pub proof fn lemma_number_reads_back(number: u32)
    ensures
        number_of(trimmed(decimal(number as nat))) == Some(number),
        forall|i: int|
            0 <= i < decimal(number as nat).len() ==> (#[trigger] decimal(number as nat)[i]) != ',',
{
    let text = decimal(number as nat);
    lemma_decimal(number as nat);
    assert(is_digit(text.first()) && is_digit(text.last()));
    assert(trim_start(text) == text);
    assert(trim_end(text) == text);
    assert forall|i: int| 0 <= i < text.len() implies (#[trigger] text[i]) != ',' by {
        assert(is_digit(text[i]));
    }
}

/// A text without a comma is one field, and after a line and a comma it is
/// one field more.
pub proof fn lemma_split_one_more(line: Seq<char>, field: Seq<char>)
    requires
        forall|i: int| 0 <= i < field.len() ==> field[i] != ',',
    ensures
        split_fields(field) == seq![field],
        split_fields(line + seq![','] + field) == split_fields(line).push(field),
    decreases field.len(),
{
    let whole = line + seq![','] + field;
    if field.len() == 0 {
        assert(whole.drop_last() =~= line);
        assert(field =~= Seq::<char>::empty());
    } else {
        let shorter = field.drop_last();
        lemma_split_one_more(line, shorter);
        assert(whole.drop_last() =~= line + seq![','] + shorter);
        assert(whole.last() == field.last());
        assert(shorter.push(field.last()) =~= field);
        lemma_split_fields_len(line);
        assert(split_fields(line).push(shorter).drop_last() =~= split_fields(line));
        assert(seq![shorter].drop_last().push(shorter.push(field.last())) =~= seq![field]);
    }
}

/// The line that is written of a starting hand is read back as that hand
/// with its counts, when the label holds no comma and neither begins nor
/// ends with white space.
pub proof fn lemma_line_reads_back(hand: Seq<char>, hands: u32, wins: u32)
    requires
        forall|i: int| 0 <= i < hand.len() ==> hand[i] != ',',
        trimmed(hand) == hand,
    ensures
        data_of(line_of(hand, seq![hands, wins])) == Some((hand, (hands, wins))),
{
    reveal_strlit(",");
    let first = decimal(hands as nat);
    let second = decimal(wins as nat);
    lemma_number_reads_back(hands);
    lemma_number_reads_back(wins);
    let counts = seq![hands, wins];
    assert(counts.drop_last() =~= seq![hands]);
    assert(joined_numbers(seq![hands]) == first);
    assert(joined_numbers(counts) == first + ","@ + second);
    assert(","@ =~= seq![',']);
    let line = line_of(hand, counts);
    assert(line =~= hand + seq![','] + first + seq![','] + second);
    lemma_split_one_more(Seq::empty(), hand);
    lemma_split_one_more(hand, first);
    lemma_split_one_more(hand + seq![','] + first, second);
    let fields = split_fields(line);
    assert(fields =~= seq![hand, first, second]);
    let numbers = fields.drop_first();
    assert(numbers =~= seq![first, second]);
    assert(numbers.drop_last() =~= seq![first]);
    assert(numbers.drop_last().drop_last() =~= Seq::<Seq<char>>::empty());
    assert(numbers_in(numbers.drop_last().drop_last()) =~= Seq::<u32>::empty());
    assert(numbers_in(numbers.drop_last()) =~= seq![hands]);
    assert(numbers_in(numbers) =~= seq![hands, wins]);
}

/// The line that is written of the counts of a run is read back as those
/// counts.
pub proof fn lemma_totals_read_back(iterations: u32, unique_hands: u32)
    ensures
        total_data_of(joined_numbers(seq![iterations, unique_hands])) == Some(
            (iterations, unique_hands),
        ),
{
    reveal_strlit(",");
    let first = decimal(iterations as nat);
    let second = decimal(unique_hands as nat);
    lemma_number_reads_back(iterations);
    lemma_number_reads_back(unique_hands);
    let counts = seq![iterations, unique_hands];
    assert(counts.drop_last() =~= seq![iterations]);
    assert(joined_numbers(seq![iterations]) == first);
    let line = joined_numbers(counts);
    assert(","@ =~= seq![',']);
    assert(line =~= first + seq![','] + second);
    lemma_split_one_more(Seq::empty(), first);
    lemma_split_one_more(first, second);
    let fields = split_fields(line);
    assert(fields =~= seq![first, second]);
    assert(fields.drop_last() =~= seq![first]);
    assert(fields.drop_last().drop_last() =~= Seq::<Seq<char>>::empty());
    assert(numbers_in(fields.drop_last().drop_last()) =~= Seq::<u32>::empty());
    assert(numbers_in(fields.drop_last()) =~= seq![iterations]);
    assert(numbers_in(fields) =~= seq![iterations, unique_hands]);
}

/// Every card of the deck that a dealer has not dealt can be the next card
/// that it deals: the card stands at some position among the cards that are
/// left, and `take_card` deals the card at any such position.
pub proof fn lemma_every_card_left_can_be_dealt(dealer: Dealer, card: Card)
    requires
        card.is_standard(),
        !dealer.dealt().contains(card),
    ensures
        exists|position: int|
            0 <= position < dealer.undealt().len() && dealer.undealt()[position] == card,
{
    assert(dealer.undealt().contains(card));
}

/// An entry is among the winners exactly when it is an entry of the showdown
/// that no entry beats.
pub proof fn lemma_winner_iff_unbeaten(entries: Seq<Entry>, entry: Entry)
    ensures
        winners(entries).contains(entry) <==> entries.contains(entry) && forall|j: int|
            0 <= j < entries.len() ==> !outranks((#[trigger] entries[j]).1, entry.1),
{
    lemma_filter_keeps(entries, is_winner(entries));
    if winners(entries).contains(entry) {
        let k = choose|k: int| 0 <= k < winners(entries).len() && winners(entries)[k] == entry;
        assert(entries.contains(winners(entries)[k]));
        assert(is_winner(entries)(winners(entries)[k]));
    }
    if entries.contains(entry) && is_winner(entries)(entry) {
        assert(winners(entries).contains(entry));
    }
}

/// Between two hands of one category, the first compared position at which
/// the ranks differ decides: the hand with the higher rank there beats the
/// other, and is not beaten by it.
pub proof fn lemma_first_difference_decides(a: HandView, b: HandView, position: int)
    requires
        a.value == b.value,
        0 <= position < kicker_slots(a.value).len(),
        tied(a.cards, b.cards, kicker_slots(a.value), position),
        slot_value(a.cards, kicker_slots(a.value), position) > slot_value(
            b.cards,
            kicker_slots(a.value),
            position,
        ),
    ensures
        outranks(a, b),
        !outranks(b, a),
{
    let slots = kicker_slots(a.value);
    lemma_ahead_grows(a.cards, b.cards, slots, position + 1, slots.len() as int);
    lemma_ahead_or_tied(a.cards, b.cards, slots, slots.len() as int);
}

/// A hand that is ahead within some positions is ahead within more.
proof fn lemma_ahead_grows(a: Seq<Card>, b: Seq<Card>, slots: Seq<int>, upto: int, more: int)
    requires
        upto <= more,
        ahead(a, b, slots, upto),
    ensures
        ahead(a, b, slots, more),
    decreases more - upto,
{
    if upto < more {
        lemma_ahead_grows(a, b, slots, upto + 1, more);
    }
}

/// Two hands of one category that have equal ranks at every compared
/// position do not beat each other: they split.
pub proof fn lemma_equal_ranks_split(a: HandView, b: HandView)
    requires
        a.value == b.value,
        tied(a.cards, b.cards, kicker_slots(a.value), kicker_slots(a.value).len() as int),
    ensures
        !outranks(a, b),
        !outranks(b, a),
{
    let slots = kicker_slots(a.value);
    lemma_ahead_or_tied(a.cards, b.cards, slots, slots.len() as int);
}

} // verus!
