//! Who wins a showdown. A hand of a stronger category beats one of a weaker
//! category. Between two hands of one category, the cards at the category's
//! kicker positions are compared in order, and the first position at which
//! the ranks differ decides. The winners are the hands that no hand beats.

use vstd::prelude::*;
use crate::card::Card;
use crate::filtering::{lemma_filter_keeps, lemma_filter_same, lemma_filter_twice};
use crate::hand::{Hand, HandView};

verus! {

/// A player's number and hand, as the contracts see them.
pub type Entry = (usize, HandView);

/// What a list of players' hands is to the contracts.
pub open spec fn entries_view(hands: Seq<(usize, Hand)>) -> Seq<Entry> {
    Seq::new(hands.len(), |i: int| (hands[i].0, hands[i].1@))
}

/// The positions in a hand's five cards that are compared, in order, between
/// two hands of the category of strength `value`.
///
/// A straight of any kind is decided by its highest card. Four of a kind
/// compares the four, then the kicker; a full house the triple, then the
/// pair; three of a kind the triple, then its two kickers; two pair the
/// higher pair, the lower pair, then the kicker; one pair the pair, then its
/// three kickers. A flush and a high card compare all five cards.
pub open spec fn kicker_slots(value: nat) -> Seq<int> {
    if value == 10 || value == 9 || value == 5 {
        seq![0]
    } else if value == 8 {
        seq![0, 4]
    } else if value == 7 {
        seq![0, 3]
    } else if value == 4 {
        seq![0, 3, 4]
    } else if value == 3 {
        seq![0, 2, 4]
    } else if value == 2 {
        seq![0, 2, 3, 4]
    } else {
        seq![0, 1, 2, 3, 4]
    }
}

/// The rank value of the card at the `k`-th compared position.
pub open spec fn slot_value(cards: Seq<Card>, slots: Seq<int>, k: int) -> nat {
    cards[slots[k]].value()
}

/// The two hands have equal ranks at the first `upto` compared positions.
pub open spec fn tied(a: Seq<Card>, b: Seq<Card>, slots: Seq<int>, upto: int) -> bool {
    forall|k: int| 0 <= k < upto ==> slot_value(a, slots, k) == slot_value(b, slots, k)
}

/// Within the first `upto` compared positions, the first position at which
/// the two hands differ has the higher rank in `a`.
pub open spec fn ahead(a: Seq<Card>, b: Seq<Card>, slots: Seq<int>, upto: int) -> bool
    decreases upto,
{
    if upto <= 0 {
        false
    } else {
        ahead(a, b, slots, upto - 1) || (tied(a, b, slots, upto - 1) && slot_value(
            a,
            slots,
            upto - 1,
        ) > slot_value(b, slots, upto - 1))
    }
}

/// Hand `a` beats hand `b`.
pub open spec fn outranks(a: HandView, b: HandView) -> bool {
    a.value > b.value || (a.value == b.value && ahead(
        a.cards,
        b.cards,
        kicker_slots(a.value),
        kicker_slots(a.value).len() as int,
    ))
}

/// The predicate "no hand among `entries` beats this hand".
pub open spec fn is_winner(entries: Seq<Entry>) -> spec_fn(Entry) -> bool {
    |e: Entry| forall|j: int| 0 <= j < entries.len() ==> !outranks((#[trigger] entries[j]).1, e.1)
}

/// The winners of a showdown: the entries that no entry beats, in the order
/// in which they were given. Several entries win together when they tie at
/// every compared position.
pub open spec fn winners(entries: Seq<Entry>) -> Seq<Entry> {
    entries.filter(is_winner(entries))
}

/// The predicate "has a hand of the category of strength `value`".
pub open spec fn of_category(value: nat) -> spec_fn(Entry) -> bool {
    |e: Entry| e.1.value == value
}

/// The predicate "has rank value `v` at the `k`-th compared position".
pub open spec fn at_slot(slots: Seq<int>, k: int, v: nat) -> spec_fn(Entry) -> bool {
    |e: Entry| slot_value(e.1.cards, slots, k) == v
}

/// The predicate "no hand among `entries` is ahead of this hand within the
/// first `upto` compared positions".
pub open spec fn leads(entries: Seq<Entry>, slots: Seq<int>, upto: int) -> spec_fn(Entry) -> bool {
    |e: Entry|
        forall|j: int|
            0 <= j < entries.len() ==> !ahead((#[trigger] entries[j]).1.cards, e.1.cards, slots, upto)
}

/// Of two hands, one is ahead of the other or they are tied.
pub proof fn lemma_ahead_or_tied(a: Seq<Card>, b: Seq<Card>, slots: Seq<int>, upto: int)
    ensures
        ahead(a, b, slots, upto) || ahead(b, a, slots, upto) || tied(a, b, slots, upto),
        !(ahead(a, b, slots, upto) && ahead(b, a, slots, upto)),
        tied(a, b, slots, upto) ==> !ahead(a, b, slots, upto) && !ahead(b, a, slots, upto),
    decreases upto,
{
    if upto > 0 {
        lemma_ahead_or_tied(a, b, slots, upto - 1);
    }
}

/// Two tied hands stand alike towards any third hand.
pub proof fn lemma_tied_hands_alike(
    other: Seq<Card>,
    a: Seq<Card>,
    b: Seq<Card>,
    slots: Seq<int>,
    upto: int,
)
    requires
        tied(a, b, slots, upto),
    ensures
        ahead(other, a, slots, upto) == ahead(other, b, slots, upto),
        tied(other, a, slots, upto) == tied(other, b, slots, upto),
    decreases upto,
{
    if upto > 0 {
        lemma_tied_hands_alike(other, a, b, slots, upto - 1);
        assert(slot_value(a, slots, upto - 1) == slot_value(b, slots, upto - 1));
    }
}

/// One round of elimination: of the entries that lead within the first `r`
/// positions, those with the highest rank at position `r` are the entries
/// that lead within the first `r + 1` positions.
pub proof fn lemma_round(entries: Seq<Entry>, slots: Seq<int>, r: int, highest: nat)
    requires
        0 <= r,
        forall|k: int|
            0 <= k < entries.filter(leads(entries, slots, r)).len() ==> slot_value(
                (#[trigger] entries.filter(leads(entries, slots, r))[k]).1.cards,
                slots,
                r,
            ) <= highest,
        entries.filter(leads(entries, slots, r)).len() > 0 ==> exists|k: int|
            0 <= k < entries.filter(leads(entries, slots, r)).len() && slot_value(
                (#[trigger] entries.filter(leads(entries, slots, r))[k]).1.cards,
                slots,
                r,
            ) == highest,
    ensures
        entries.filter(leads(entries, slots, r)).filter(at_slot(slots, r, highest))
            == entries.filter(leads(entries, slots, r + 1)),
{
    let now = leads(entries, slots, r);
    let next = leads(entries, slots, r + 1);
    let top = at_slot(slots, r, highest);
    let leaders = entries.filter(now);
    lemma_filter_keeps(entries, now);
    assert forall|i: int| 0 <= i < entries.len() implies next(#[trigger] entries[i]) == (now(
        entries[i],
    ) && top(entries[i])) by {
        let e = entries[i];
        if now(e) {
            assert(entries.contains(e));
            assert(leaders.contains(e));
            let ke = choose|k: int| 0 <= k < leaders.len() && leaders[k] == e;
            assert(slot_value(leaders[ke].1.cards, slots, r) <= highest);
            let km = choose|k: int|
                0 <= k < leaders.len() && slot_value((#[trigger] leaders[k]).1.cards, slots, r)
                    == highest;
            let m = leaders[km];
            assert(entries.contains(m) && now(m));
            let jm = choose|j: int| 0 <= j < entries.len() && entries[j] == m;
            if top(e) {
                assert forall|j: int| 0 <= j < entries.len() implies !ahead(
                    (#[trigger] entries[j]).1.cards,
                    e.1.cards,
                    slots,
                    r + 1,
                ) by {
                    let x = entries[j];
                    if tied(x.1.cards, e.1.cards, slots, r) && slot_value(x.1.cards, slots, r)
                        > highest {
                        assert forall|y: int| 0 <= y < entries.len() implies !ahead(
                            (#[trigger] entries[y]).1.cards,
                            x.1.cards,
                            slots,
                            r,
                        ) by {
                            lemma_tied_hands_alike(entries[y].1.cards, x.1.cards, e.1.cards, slots, r);
                        }
                        assert(now(x));
                        assert(entries.contains(x));
                        assert(leaders.contains(x));
                        let kx = choose|k: int| 0 <= k < leaders.len() && leaders[k] == x;
                        assert(slot_value(leaders[kx].1.cards, slots, r) <= highest);
                    }
                }
            } else {
                lemma_ahead_or_tied(m.1.cards, e.1.cards, slots, r);
                assert(!ahead(entries[jm].1.cards, e.1.cards, slots, r));
                assert(!ahead(entries[i].1.cards, m.1.cards, slots, r));
                assert(ahead(entries[jm].1.cards, e.1.cards, slots, r + 1));
            }
        } else {
            let j = choose|j: int|
                0 <= j < entries.len() && ahead(
                    (#[trigger] entries[j]).1.cards,
                    e.1.cards,
                    slots,
                    r,
                );
            assert(ahead(entries[j].1.cards, e.1.cards, slots, r + 1));
        }
    }
    lemma_filter_twice(entries, now, top, next);
}

/// Before any position is compared, every entry leads.
pub proof fn lemma_all_lead_at_start(entries: Seq<Entry>, slots: Seq<int>)
    ensures
        entries.filter(leads(entries, slots, 0)) == entries,
    decreases entries.len(),
{
    reveal(Seq::filter);
    let all = |e: Entry| true;
    lemma_filter_same(entries, leads(entries, slots, 0), all);
    lemma_keep_all(entries);
}

/// Keeping by a predicate that always holds keeps everything.
proof fn lemma_keep_all(entries: Seq<Entry>)
    ensures
        entries.filter(|e: Entry| true) == entries,
    decreases entries.len(),
{
    reveal(Seq::filter);
    if entries.len() > 0 {
        lemma_keep_all(entries.drop_last());
        assert(entries =~= entries.drop_last().push(entries.last()));
    }
}

/// Once a single entry leads, it goes on leading alone: the later positions
/// eliminate nobody.
pub proof fn lemma_single_leader(entries: Seq<Entry>, slots: Seq<int>, r: int, upto: int)
    requires
        0 <= r <= upto,
        entries.filter(leads(entries, slots, r)).len() == 1,
    ensures
        entries.filter(leads(entries, slots, upto)) == entries.filter(leads(entries, slots, r)),
    decreases upto - r,
{
    if r < upto {
        let leaders = entries.filter(leads(entries, slots, r));
        let highest = slot_value(leaders[0].1.cards, slots, r);
        lemma_round(entries, slots, r, highest);
        reveal(Seq::filter);
        assert(leaders =~= Seq::<Entry>::empty().push(leaders[0]));
        Seq::<Entry>::empty().lemma_filter_push(leaders[0], at_slot(slots, r, highest));
        assert(leaders.filter(at_slot(slots, r, highest)) == leaders);
        lemma_single_leader(entries, slots, r + 1, upto);
    }
}

/// Among hands of one category, the winners are the entries that lead when
/// all the category's positions have been compared.
pub proof fn lemma_winners_within_category(entries: Seq<Entry>, value: nat)
    requires
        forall|i: int| 0 <= i < entries.len() ==> (#[trigger] entries[i]).1.value == value,
    ensures
        winners(entries) == entries.filter(
            leads(entries, kicker_slots(value), kicker_slots(value).len() as int),
        ),
{
    let slots = kicker_slots(value);
    let last = leads(entries, slots, slots.len() as int);
    assert forall|i: int| 0 <= i < entries.len() implies is_winner(entries)(#[trigger] entries[i])
        == last(entries[i]) by {
        let e = entries[i];
        if last(e) {
            assert forall|j: int| 0 <= j < entries.len() implies !outranks(
                (#[trigger] entries[j]).1,
                e.1,
            ) by {
                assert(!ahead(entries[j].1.cards, e.1.cards, slots, slots.len() as int));
            }
        }
        if is_winner(entries)(e) {
            assert forall|j: int| 0 <= j < entries.len() implies !ahead(
                (#[trigger] entries[j]).1.cards,
                e.1.cards,
                slots,
                slots.len() as int,
            ) by {
                assert(!outranks(entries[j].1, e.1));
            }
        }
    }
    lemma_filter_same(entries, is_winner(entries), last);
}

/// The winners among all entries are the winners among the entries of the
/// strongest category present.
pub proof fn lemma_winners_are_of_strongest_category(entries: Seq<Entry>, strongest: nat)
    requires
        forall|i: int| 0 <= i < entries.len() ==> (#[trigger] entries[i]).1.value <= strongest,
        entries.len() > 0 ==> exists|i: int|
            0 <= i < entries.len() && (#[trigger] entries[i]).1.value == strongest,
    ensures
        winners(entries.filter(of_category(strongest))) == winners(entries),
{
    let top = entries.filter(of_category(strongest));
    lemma_filter_keeps(entries, of_category(strongest));
    assert forall|i: int| 0 <= i < entries.len() implies is_winner(entries)(#[trigger] entries[i])
        == (of_category(strongest)(entries[i]) && is_winner(top)(entries[i])) by {
        let e = entries[i];
        if is_winner(entries)(e) {
            let m = choose|m: int|
                0 <= m < entries.len() && (#[trigger] entries[m]).1.value == strongest;
            assert(!outranks(entries[m].1, e.1));
            assert forall|j: int| 0 <= j < top.len() implies !outranks((#[trigger] top[j]).1, e.1) by {
                assert(entries.contains(top[j]));
                let k = choose|k: int| 0 <= k < entries.len() && entries[k] == top[j];
                assert(!outranks(entries[k].1, e.1));
            }
        }
        if of_category(strongest)(e) && is_winner(top)(e) {
            assert forall|j: int| 0 <= j < entries.len() implies !outranks(
                (#[trigger] entries[j]).1,
                e.1,
            ) by {
                if entries[j].1.value == strongest {
                    assert(entries.contains(entries[j]));
                    assert(top.contains(entries[j]));
                    let k = choose|k: int| 0 <= k < top.len() && top[k] == entries[j];
                    assert(!outranks(top[k].1, e.1));
                }
            }
        }
    }
    lemma_filter_twice(entries, of_category(strongest), is_winner(top), is_winner(entries));
}

} // verus!
