//! The evaluator and the showdown.

use vstd::prelude::*;
use crate::card::{Card, CardNumber, hole_label, Suit};
use crate::filtering::lemma_filter_keeps;
use crate::hand::{Hand, NUM_CARDS_IN_HAND};
use crate::pool::{
    all_standard, avoids, count_of, drawn_from, filled_by, has_run, has_suit, has_value,
    highest_group, is_grouping_by_number, is_grouping_by_suit, lists_view, run_cards,
    sorted_descending, straight_high, suit_at, with_suit, with_value, without_values,
};
use crate::ranking::{
    best_hand, flush, flush_from, full_house, lemma_best_hand_is_five, pair, quads, straight,
    straight_flush, straight_flush_from, trips, two_pair,
};
use crate::showdown::{
    at_slot, entries_view, Entry, kicker_slots, leads, lemma_all_lead_at_start, lemma_round,
    lemma_single_leader, lemma_winners_are_of_strongest_category, lemma_winners_within_category,
    of_category, slot_value, winners,
};
use crate::sorting::{lemma_sorted_by_value, sort_cards, sorted_by_value};

verus! {

const NUM_CARDS_IN_TRIPLET: usize = 3;

const NUM_CARDS_IN_QUAD: usize = 4;

const NUM_CARDS_IN_PAIR: usize = 2;

/// What an optional list of cards is to the contracts.
pub open spec fn cards_view(cards: Option<Vec<Card>>) -> Option<Seq<Card>> {
    match cards {
        Some(cards) => Some(cards@),
        None => None,
    }
}

/// `n` empty groups.
fn empty_groups(n: usize) -> (groups: Vec<Vec<Card>>)
    ensures
        groups.len() == n,
        forall|k: int| 0 <= k < n ==> (#[trigger] groups[k])@ == Seq::<Card>::empty(),
{
    let mut groups: Vec<Vec<Card>> = Vec::new();
    let mut k: usize = 0;
    while k < n
        invariant
            k <= n,
            groups.len() == k,
            forall|j: int| 0 <= j < k ==> (#[trigger] groups[j])@ == Seq::<Card>::empty(),
        decreases n - k,
    {
        groups.push(Vec::new());
        k += 1;
    }
    groups
}

/// The index of a suit.
fn suit_index(suit: Suit) -> (index: usize)
    ensures
        index == suit.index(),
        index < 4,
        suit_at(index as nat) == suit,
{
    match suit {
        Suit::Diamonds => 0,
        Suit::Spades => 1,
        Suit::Hearts => 2,
        Suit::Clubs => 3,
    }
}

/// Pushes the cards of `source` onto `target`, in order.
fn extend_cards(target: &mut Vec<Card>, source: &Vec<Card>)
    ensures
        final(target)@ == old(target)@ + source@,
{
    let mut i: usize = 0;
    while i < source.len()
        invariant
            i <= source.len(),
            target@ == old(target)@ + source@.take(i as int),
        decreases source.len() - i,
    {
        target.push(source[i]);
        assert(source@.take(i + 1) =~= source@.take(i as int).push(source[i as int]));
        i += 1;
    }
    assert(source@.take(source.len() as int) =~= source@);
}

/// The first `wanted` cards of the pool whose rank value is neither `a` nor
/// `b`, or all such cards when there are fewer.
fn first_cards_without(cards: &Vec<Card>, a: u32, b: u32, wanted: usize) -> (found: Vec<Card>)
    ensures
        found@ == if without_values(cards@, a as nat, b as nat).len() >= wanted {
            without_values(cards@, a as nat, b as nat).take(wanted as int)
        } else {
            without_values(cards@, a as nat, b as nat)
        },
{
    let mut found: Vec<Card> = Vec::new();
    let mut i: usize = 0;
    proof {
        reveal(Seq::filter);
        assert(cards@.take(0) =~= Seq::<Card>::empty());
    }
    while i < cards.len() && found.len() < wanted
        invariant
            i <= cards.len(),
            found.len() <= wanted,
            found@ == without_values(cards@.take(i as int), a as nat, b as nat),
        decreases cards.len() - i,
    {
        let card = cards[i];
        let value = card.number.get_value();
        proof {
            assert(cards@.take(i + 1) =~= cards@.take(i as int).push(card));
            cards@.take(i as int).lemma_filter_push(card, avoids(a as nat, b as nat));
        }
        if value != a && value != b {
            found.push(card);
        }
        i += 1;
    }
    proof {
        let all = without_values(cards@, a as nat, b as nat);
        cards@.take(i as int).lemma_filter_monotone(cards@, avoids(a as nat, b as nat));
        if i == cards.len() {
            assert(cards@.take(i as int) =~= cards@);
            if all.len() >= wanted {
                assert(all.take(wanted as int) =~= all);
            }
        } else {
            assert(found@ =~= all.take(wanted as int));
        }
    }
    found
}

/// The highest rank value whose group qualifies, found by a scan over all the
/// groups that keeps the best value so far; 0 when no group qualifies.
fn find_highest_group(
    groups: &Vec<Vec<Card>>,
    Ghost(pool): Ghost<Seq<Card>>,
    size: usize,
    exact: bool,
    excluded: u32,
) -> (best: u32)
    requires
        is_grouping_by_number(groups@, pool),
    ensures
        best == highest_group(pool, size as nat, exact, excluded as nat, 14),
        best == 0 || 2 <= best <= 14,
{
    let mut best: u32 = 0;
    let mut v: u32 = 2;
    while v <= 14
        invariant
            2 <= v <= 15,
            is_grouping_by_number(groups@, pool),
            best == highest_group(pool, size as nat, exact, excluded as nat, (v - 1) as nat),
            best == 0 || 2 <= best <= 14,
        decreases 15 - v,
    {
        let group_len = groups[v as usize].len();
        assert(group_len == count_of(pool, v as nat));
        let fits = if exact {
            group_len == size
        } else {
            group_len >= size
        };
        if v != excluded && fits {
            best = v;
        }
        v += 1;
    }
    best
}

/// Every card of `cards` is a standard card of the pool.
proof fn lemma_drawn_cards_are_standard(cards: Seq<Card>, pool: Seq<Card>)
    requires
        drawn_from(cards, pool),
        all_standard(pool),
    ensures
        all_standard(cards),
{
    assert forall|k: int| 0 <= k < cards.len() implies (#[trigger] cards[k]).is_standard() by {
        assert(pool.contains(cards[k]));
        let j = choose|j: int| 0 <= j < pool.len() && pool[j] == cards[k];
        assert(pool[j].is_standard());
    }
}

/// Every hand of the list carries five cards.
pub open spec fn all_well_formed(hands: Seq<(usize, Hand)>) -> bool {
    forall|i: int| 0 <= i < hands.len() ==> (#[trigger] hands[i]).1.wf()
}

/// The positions that are compared between two hands of the category of
/// strength `value`, in order.
fn kicker_indices(value: u32) -> (indices: Vec<usize>)
    ensures
        indices@.len() == kicker_slots(value as nat).len(),
        forall|k: int|
            0 <= k < indices@.len() ==> (#[trigger] indices@[k]) == kicker_slots(value as nat)[k]
                && indices@[k] < NUM_CARDS_IN_HAND,
{
    match value {
        10 | 9 | 5 => vec![0],
        8 => vec![0, 4],
        7 => vec![0, 3],
        4 => vec![0, 3, 4],
        3 => vec![0, 2, 4],
        2 => vec![0, 2, 3, 4],
        _ => vec![0, 1, 2, 3, 4],
    }
}

/// The entries of `hands` that meet `keep`, where `keep` holds of an entry
/// exactly when the rank value at card position `index` is `wanted`.
fn keep_hands_with(
    hands: &Vec<(usize, Hand)>,
    index: usize,
    wanted: u32,
    Ghost(keep): Ghost<spec_fn(Entry) -> bool>,
) -> (kept: Vec<(usize, Hand)>)
    requires
        all_well_formed(hands@),
        index < NUM_CARDS_IN_HAND,
        forall|i: int|
            0 <= i < hands.len() ==> keep(#[trigger] entries_view(hands@)[i]) == (
            hands[i].1.cards()[index as int].value() == wanted),
    ensures
        all_well_formed(kept@),
        entries_view(kept@) == entries_view(hands@).filter(keep),
{
    let mut kept: Vec<(usize, Hand)> = Vec::new();
    let mut i: usize = 0;
    let ghost entries = entries_view(hands@);
    proof {
        reveal(Seq::filter);
        assert(entries.take(0) =~= Seq::<Entry>::empty());
        assert(entries_view(kept@) =~= Seq::<Entry>::empty());
    }
    while i < hands.len()
        invariant
            i <= hands.len(),
            entries == entries_view(hands@),
            all_well_formed(hands@),
            all_well_formed(kept@),
            index < NUM_CARDS_IN_HAND,
            forall|i: int|
                0 <= i < hands.len() ==> keep(#[trigger] entries_view(hands@)[i]) == (
                hands[i].1.cards()[index as int].value() == wanted),
            entries_view(kept@) == entries.take(i as int).filter(keep),
        decreases hands.len() - i,
    {
        let cards = hands[i].1.get_cards();
        assert(hands[i as int].1.wf());
        let ghost before = entries_view(kept@);
        proof {
            assert(entries.take(i + 1) =~= entries.take(i as int).push(entries[i as int]));
            entries.take(i as int).lemma_filter_push(entries[i as int], keep);
        }
        if cards[index].number.get_value() == wanted {
            kept.push((hands[i].0, hands[i].1.clone()));
            assert(entries_view(kept@) =~= before.push(entries[i as int]));
        }
        i += 1;
    }
    assert(entries.take(hands.len() as int) =~= entries);
    kept
}

/// The entries of a showdown between the players whose pools are given:
/// each player's number with the best hand of that player's pool.
pub open spec fn showdown_entries(pools: Seq<Seq<Card>>) -> Seq<Entry> {
    Seq::new(pools.len(), |i: int| (i as usize, best_hand(pools[i])))
}

/// The hands of one deal: for each player the pool of community and hole
/// cards, ordered from high to low, and the hole cards as they were given.
pub struct HandAnalyser {
    card_combinations: Vec<Vec<Card>>,
    player_cards: Vec<Vec<Card>>,
}

impl HandAnalyser {
    /// Each player's pool, ordered from high to low.
    pub closed spec fn pools(&self) -> Seq<Seq<Card>> {
        lists_view(self.card_combinations@)
    }

    /// Each player's hole cards.
    pub closed spec fn hole_cards(&self) -> Seq<Seq<Card>> {
        lists_view(self.player_cards@)
    }

    #[verifier::type_invariant]
    spec fn well_formed(&self) -> bool {
        &&& self.card_combinations.len() == self.player_cards.len()
        &&& forall|i: int|
            0 <= i < self.card_combinations.len() ==> {
                &&& (#[trigger] self.card_combinations[i]).len() >= NUM_CARDS_IN_HAND
                &&& sorted_descending(self.card_combinations[i]@)
                &&& all_standard(self.card_combinations[i]@)
            }
        &&& forall|i: int|
            0 <= i < self.player_cards.len() ==> (#[trigger] self.player_cards[i]).len() >= 2
    }

    /// Takes the five community cards and each player's two hole cards. A
    /// player's pool is the community cards followed by the hole cards,
    /// sorted from high to low with cards of equal rank in that order.
    pub fn new(community_cards: Vec<Card>, player_cards: Vec<Vec<Card>>) -> (analyser: Self)
        requires
            community_cards.len() == 5,
            all_standard(community_cards@),
            forall|i: int|
                0 <= i < player_cards.len() ==> (#[trigger] player_cards[i]).len() == 2
                    && all_standard(player_cards[i]@),
        ensures
            analyser.hole_cards() == lists_view(player_cards@),
            analyser.pools().len() == player_cards.len(),
            forall|i: int|
                0 <= i < player_cards.len() ==> (#[trigger] analyser.pools()[i]) == sorted_by_value(
                    community_cards@ + player_cards[i]@,
                ),
    {
        let combined_hands = HandAnalyser::get_card_combinations(&player_cards, &community_cards);
        let mut sorted_hands: Vec<Vec<Card>> = Vec::new();
        let mut i: usize = 0;
        while i < combined_hands.len()
            invariant
                i <= combined_hands.len(),
                combined_hands.len() == player_cards.len(),
                community_cards.len() == 5,
                all_standard(community_cards@),
                forall|k: int|
                    0 <= k < player_cards.len() ==> (#[trigger] player_cards[k]).len() == 2
                        && all_standard(player_cards[k]@),
                forall|k: int|
                    0 <= k < combined_hands.len() ==> (#[trigger] combined_hands[k])@
                        == community_cards@ + player_cards[k]@,
                sorted_hands.len() == i,
                forall|k: int|
                    0 <= k < i ==> {
                        &&& (#[trigger] sorted_hands[k])@ == sorted_by_value(
                            community_cards@ + player_cards[k]@,
                        )
                        &&& sorted_hands[k].len() >= NUM_CARDS_IN_HAND
                        &&& sorted_descending(sorted_hands[k]@)
                        &&& all_standard(sorted_hands[k]@)
                    },
            decreases combined_hands.len() - i,
        {
            let card_set = sort_cards(&combined_hands[i]);
            proof {
                let pool = community_cards@ + player_cards[i as int]@;
                assert(combined_hands[i as int]@ == pool);
                assert forall|k: int| 0 <= k < pool.len() implies (#[trigger] pool[k]).is_standard() by {
                    if k < 5 {
                        assert(pool[k] == community_cards@[k]);
                    } else {
                        assert(pool[k] == player_cards[i as int]@[k - 5]);
                    }
                }
                lemma_sorted_by_value(pool);
            }
            sorted_hands.push(card_set);
            i += 1;
        }
        let analyser = HandAnalyser { card_combinations: sorted_hands, player_cards };
        assert(analyser.hole_cards() == lists_view(player_cards@));
        analyser
    }

    /// For each player, the community cards followed by the player's hole
    /// cards.
    fn get_card_combinations(
        player_cards: &Vec<Vec<Card>>,
        community_cards: &Vec<Card>,
    ) -> (combinations: Vec<Vec<Card>>)
        ensures
            combinations.len() == player_cards.len(),
            forall|i: int|
                0 <= i < player_cards.len() ==> (#[trigger] combinations[i])@ == community_cards@
                    + player_cards[i]@,
    {
        let mut combinations: Vec<Vec<Card>> = Vec::new();
        let mut i: usize = 0;
        while i < player_cards.len()
            invariant
                i <= player_cards.len(),
                combinations.len() == i,
                forall|k: int|
                    0 <= k < i ==> (#[trigger] combinations[k])@ == community_cards@
                        + player_cards[k]@,
            decreases player_cards.len() - i,
        {
            let mut full_set_cards = community_cards.clone();
            extend_cards(&mut full_set_cards, &player_cards[i]);
            combinations.push(full_set_cards);
            i += 1;
        }
        combinations
    }

    /// The cards of each suit in pool order, one group for each suit index.
    pub fn group_cards_by_suit(cards: &Vec<Card>) -> (groups: Vec<Vec<Card>>)
        ensures
            is_grouping_by_suit(groups@, cards@),
    {
        let mut groups = empty_groups(4);
        let mut i: usize = 0;
        proof {
            reveal(Seq::filter);
            assert(cards@.take(0) =~= Seq::<Card>::empty());
        }
        while i < cards.len()
            invariant
                i <= cards.len(),
                is_grouping_by_suit(groups@, cards@.take(i as int)),
            decreases cards.len() - i,
        {
            let card = cards[i];
            let s = suit_index(card.suit);
            let ghost before = groups@;
            groups[s].push(card);
            proof {
                assert(cards@.take(i + 1) =~= cards@.take(i as int).push(card));
                assert forall|w: int| 0 <= w < 4 implies (#[trigger] groups@[w])@ == with_suit(
                    cards@.take(i + 1),
                    suit_at(w as nat),
                ) by {
                    cards@.take(i as int).lemma_filter_push(card, has_suit(suit_at(w as nat)));
                    assert(before[w]@ == with_suit(cards@.take(i as int), suit_at(w as nat)));
                }
            }
            i += 1;
        }
        assert(cards@.take(cards.len() as int) =~= cards@);
        groups
    }

    /// The cards of each rank in pool order, one group for each rank value
    /// from 0 to 14; the group of a value that no card has is empty.
    pub fn group_cards_by_number(cards: &Vec<Card>) -> (groups: Vec<Vec<Card>>)
        ensures
            is_grouping_by_number(groups@, cards@),
    {
        let mut groups = empty_groups(15);
        let mut i: usize = 0;
        proof {
            reveal(Seq::filter);
            assert(cards@.take(0) =~= Seq::<Card>::empty());
        }
        while i < cards.len()
            invariant
                i <= cards.len(),
                is_grouping_by_number(groups@, cards@.take(i as int)),
            decreases cards.len() - i,
        {
            let card = cards[i];
            let v = card.number.get_value() as usize;
            let ghost before = groups@;
            groups[v].push(card);
            proof {
                assert(cards@.take(i + 1) =~= cards@.take(i as int).push(card));
                assert forall|w: int| 0 <= w < 15 implies (#[trigger] groups@[w])@ == with_value(
                    cards@.take(i + 1),
                    w as nat,
                ) by {
                    cards@.take(i as int).lemma_filter_push(card, has_value(w as nat));
                    assert(before[w]@ == with_value(cards@.take(i as int), w as nat));
                }
            }
            i += 1;
        }
        assert(cards@.take(cards.len() as int) =~= cards@);
        groups
    }

    /// The straight within one suit, the suits tried in the order of their
    /// indices.
    fn contains_straight_flush(
        grouping_by_suit: &Vec<Vec<Card>>,
        Ghost(pool): Ghost<Seq<Card>>,
    ) -> (found: Option<Vec<Card>>)
        requires
            is_grouping_by_suit(grouping_by_suit@, pool),
        ensures
            cards_view(found) == straight_flush(pool),
    {
        let mut s: usize = 0;
        while s < 4
            invariant
                s <= 4,
                is_grouping_by_suit(grouping_by_suit@, pool),
                straight_flush(pool) == straight_flush_from(pool, s as nat),
            decreases 4 - s,
        {
            assert(grouping_by_suit[s as int]@ == with_suit(pool, suit_at(s as nat)));
            let straight_flush = HandAnalyser::contains_straight(&grouping_by_suit[s]);
            if straight_flush.is_some() {
                return straight_flush;
            }
            s += 1;
        }
        None
    }

    /// Four of a kind: the group of four, then the highest other card.
    fn contains_quads(
        grouping_by_card_number: &Vec<Vec<Card>>,
        cards: &Vec<Card>,
    ) -> (found: Option<Vec<Card>>)
        requires
            is_grouping_by_number(grouping_by_card_number@, cards@),
        ensures
            cards_view(found) == quads(cards@),
    {
        let card_number = find_highest_group(
            grouping_by_card_number,
            Ghost(cards@),
            NUM_CARDS_IN_QUAD,
            true,
            0,
        );
        if card_number == 0 {
            return None;
        }
        let kicker = first_cards_without(cards, card_number, 0, 1);
        if kicker.len() < 1 {
            return None;
        }
        assert(grouping_by_card_number[card_number as int]@ == with_value(cards@, card_number as nat));
        let mut quad_hand_cards = grouping_by_card_number[card_number as usize].clone();
        extend_cards(&mut quad_hand_cards, &kicker);
        Some(quad_hand_cards)
    }

    /// Full house: the highest group of three or more, then the highest other
    /// group of two or more; found only when the first holds exactly three
    /// cards and the second exactly two.
    fn contains_full_house(
        grouping_by_card_number: &Vec<Vec<Card>>,
        Ghost(pool): Ghost<Seq<Card>>,
    ) -> (found: Option<Vec<Card>>)
        requires
            is_grouping_by_number(grouping_by_card_number@, pool),
        ensures
            cards_view(found) == full_house(pool),
    {
        let threes_card_number = find_highest_group(
            grouping_by_card_number,
            Ghost(pool),
            NUM_CARDS_IN_TRIPLET,
            false,
            0,
        );
        if threes_card_number == 0 {
            return None;
        }
        let twos_card_number = find_highest_group(
            grouping_by_card_number,
            Ghost(pool),
            NUM_CARDS_IN_PAIR,
            false,
            threes_card_number,
        );
        if twos_card_number == 0 {
            return None;
        }
        assert(grouping_by_card_number[threes_card_number as int]@ == with_value(
            pool,
            threes_card_number as nat,
        ));
        assert(grouping_by_card_number[twos_card_number as int]@ == with_value(
            pool,
            twos_card_number as nat,
        ));
        let threes = &grouping_by_card_number[threes_card_number as usize];
        let twos = &grouping_by_card_number[twos_card_number as usize];
        if threes.len() != NUM_CARDS_IN_TRIPLET || twos.len() != NUM_CARDS_IN_PAIR {
            return None;
        }
        let mut full_house_cards = threes.clone();
        extend_cards(&mut full_house_cards, twos);
        Some(full_house_cards)
    }

    /// Flush: the five highest cards of a suit that has five cards or more.
    fn contains_flush(
        grouping_by_suit: &Vec<Vec<Card>>,
        Ghost(pool): Ghost<Seq<Card>>,
    ) -> (found: Option<Vec<Card>>)
        requires
            is_grouping_by_suit(grouping_by_suit@, pool),
        ensures
            cards_view(found) == flush(pool),
    {
        let mut s: usize = 0;
        while s < 4
            invariant
                s <= 4,
                is_grouping_by_suit(grouping_by_suit@, pool),
                flush(pool) == flush_from(pool, s as nat),
            decreases 4 - s,
        {
            assert(grouping_by_suit[s as int]@ == with_suit(pool, suit_at(s as nat)));
            let suited = &grouping_by_suit[s];
            if suited.len() >= NUM_CARDS_IN_HAND {
                let mut flush_cards: Vec<Card> = Vec::new();
                let mut i: usize = 0;
                while i < NUM_CARDS_IN_HAND
                    invariant
                        i <= NUM_CARDS_IN_HAND <= suited.len(),
                        flush_cards@ == suited@.take(i as int),
                    decreases NUM_CARDS_IN_HAND - i,
                {
                    flush_cards.push(suited[i]);
                    assert(suited@.take(i + 1) =~= suited@.take(i as int).push(suited[i as int]));
                    i += 1;
                }
                return Some(flush_cards);
            }
            s += 1;
        }
        None
    }

    /// The straight of the cards: for each high end from the ace down, whether
    /// the five ranks that end there are all present; the first that are give the
    /// hand, each rank by its first card. The ace also fills the step below the
    /// two, so that five, four, three, two, ace is the lowest straight; the ace
    /// that closes it is the card as it stands in the pool.
    pub fn contains_straight(cards: &Vec<Card>) -> (found: Option<Vec<Card>>)
        ensures
            cards_view(found) == straight(cards@),
    {
        let groups = HandAnalyser::group_cards_by_number(cards);
        let mut high: usize = 14;
        while high >= 5
            invariant
                4 <= high <= 14,
                is_grouping_by_number(groups@, cards@),
                straight_high(cards@, 14) == straight_high(cards@, high as nat),
            decreases high,
        {
            let low = if high == 5 {
                14
            } else {
                high - 4
            };
            assert(low == filled_by((high - 4) as nat));
            assert(groups[high as int]@ == with_value(cards@, high as nat));
            assert(groups[high - 1]@ == with_value(cards@, (high - 1) as nat));
            assert(groups[high - 2]@ == with_value(cards@, (high - 2) as nat));
            assert(groups[high - 3]@ == with_value(cards@, (high - 3) as nat));
            assert(groups[low as int]@ == with_value(cards@, low as nat));
            if groups[high].len() > 0 && groups[high - 1].len() > 0 && groups[high - 2].len() > 0
                && groups[high - 3].len() > 0 && groups[low].len() > 0 {
                let mut run: Vec<Card> = Vec::new();
                run.push(groups[high][0]);
                run.push(groups[high - 1][0]);
                run.push(groups[high - 2][0]);
                run.push(groups[high - 3][0]);
                run.push(groups[low][0]);
                assert(has_run(cards@, high as nat));
                assert(run@ =~= run_cards(cards@, high as nat));
                return Some(run);
            }
            assert(!has_run(cards@, high as nat));
            high -= 1;
        }
        None
    }

    /// Three of a kind: the highest group of exactly three, then the two
    /// highest other cards.
    fn contains_trips(
        grouping_by_card_number: &Vec<Vec<Card>>,
        cards: &Vec<Card>,
    ) -> (found: Option<Vec<Card>>)
        requires
            is_grouping_by_number(grouping_by_card_number@, cards@),
        ensures
            cards_view(found) == trips(cards@),
    {
        let trips_card_number = find_highest_group(
            grouping_by_card_number,
            Ghost(cards@),
            NUM_CARDS_IN_TRIPLET,
            true,
            0,
        );
        if trips_card_number == 0 {
            return None;
        }
        let kickers = first_cards_without(cards, trips_card_number, 0, 2);
        if kickers.len() < 2 {
            return None;
        }
        assert(grouping_by_card_number[trips_card_number as int]@ == with_value(
            cards@,
            trips_card_number as nat,
        ));
        let mut trips_cards = grouping_by_card_number[trips_card_number as usize].clone();
        extend_cards(&mut trips_cards, &kickers);
        Some(trips_cards)
    }

    /// Two pair: the two highest groups of exactly two, the higher first, then
    /// the highest card of any other rank.
    fn contains_two_pair(
        grouping_by_card_number: &Vec<Vec<Card>>,
        cards: &Vec<Card>,
    ) -> (found: Option<Vec<Card>>)
        requires
            is_grouping_by_number(grouping_by_card_number@, cards@),
        ensures
            cards_view(found) == two_pair(cards@),
    {
        let first_pair_card_number = find_highest_group(
            grouping_by_card_number,
            Ghost(cards@),
            NUM_CARDS_IN_PAIR,
            true,
            0,
        );
        if first_pair_card_number == 0 {
            return None;
        }
        let second_pair_card_number = find_highest_group(
            grouping_by_card_number,
            Ghost(cards@),
            NUM_CARDS_IN_PAIR,
            true,
            first_pair_card_number,
        );
        if second_pair_card_number == 0 {
            return None;
        }
        let kicker = first_cards_without(cards, first_pair_card_number, second_pair_card_number, 1);
        if kicker.len() < 1 {
            return None;
        }
        assert(grouping_by_card_number[first_pair_card_number as int]@ == with_value(
            cards@,
            first_pair_card_number as nat,
        ));
        assert(grouping_by_card_number[second_pair_card_number as int]@ == with_value(
            cards@,
            second_pair_card_number as nat,
        ));
        let mut two_pair_cards = grouping_by_card_number[first_pair_card_number as usize].clone();
        extend_cards(&mut two_pair_cards, &grouping_by_card_number[second_pair_card_number as usize]);
        extend_cards(&mut two_pair_cards, &kicker);
        Some(two_pair_cards)
    }

    /// One pair: the highest group of exactly two, then the three highest
    /// other cards.
    fn contains_pair(
        grouping_by_card_number: &Vec<Vec<Card>>,
        cards: &Vec<Card>,
    ) -> (found: Option<Vec<Card>>)
        requires
            is_grouping_by_number(grouping_by_card_number@, cards@),
        ensures
            cards_view(found) == pair(cards@),
    {
        let pair_card_number = find_highest_group(
            grouping_by_card_number,
            Ghost(cards@),
            NUM_CARDS_IN_PAIR,
            true,
            0,
        );
        if pair_card_number == 0 {
            return None;
        }
        let kickers = first_cards_without(cards, pair_card_number, 0, 3);
        if kickers.len() < 3 {
            return None;
        }
        assert(grouping_by_card_number[pair_card_number as int]@ == with_value(
            cards@,
            pair_card_number as nat,
        ));
        let mut pair_cards = grouping_by_card_number[pair_card_number as usize].clone();
        extend_cards(&mut pair_cards, &kickers);
        Some(pair_cards)
    }

    /// The best five-card hand of a pool that is ordered from high to low. The
    /// categories are tried from the royal flush down, and the first that the
    /// pool holds is returned with its five cards.
    ///
    /// A pool with two groups of three cards of one rank each is ranked as three
    /// of a kind: the lower group is never split to make the pair of a full
    /// house.
    pub fn get_best_hand(cards: &Vec<Card>) -> (hand: Hand)
        requires
            cards.len() >= NUM_CARDS_IN_HAND,
            sorted_descending(cards@),
            all_standard(cards@),
        ensures
            hand@ == best_hand(cards@),
            hand.wf(),
            drawn_from(hand.cards(), cards@),
            all_standard(hand.cards()),
            cards@.no_duplicates() ==> hand.cards().no_duplicates(),
    {
        proof {
            lemma_best_hand_is_five(cards@);
            lemma_drawn_cards_are_standard(best_hand(cards@).cards, cards@);
        }
        let grouping_by_suit = HandAnalyser::group_cards_by_suit(cards);

        let straight_flush = HandAnalyser::contains_straight_flush(&grouping_by_suit, Ghost(cards@));
        if let Some(straight_flush_cards) = straight_flush {
            let high_card = &straight_flush_cards[0];
            if high_card.number == CardNumber::Ace {
                return Hand::RoyalFlush(straight_flush_cards);
            }
            return Hand::StraightFlush(straight_flush_cards);
        }
        let grouping_by_card_number = HandAnalyser::group_cards_by_number(cards);

        let quads = HandAnalyser::contains_quads(&grouping_by_card_number, cards);
        if let Some(quad_cards) = quads {
            return Hand::Quads(quad_cards);
        }
        let full_house = HandAnalyser::contains_full_house(&grouping_by_card_number, Ghost(cards@));
        if let Some(full_house_cards) = full_house {
            return Hand::FullHouse(full_house_cards);
        }
        let flush = HandAnalyser::contains_flush(&grouping_by_suit, Ghost(cards@));
        if let Some(flush_cards) = flush {
            return Hand::Flush(flush_cards);
        }
        let straight = HandAnalyser::contains_straight(cards);
        if let Some(straight_cards) = straight {
            return Hand::Straight(straight_cards);
        }
        let trips = HandAnalyser::contains_trips(&grouping_by_card_number, cards);
        if let Some(trips_cards) = trips {
            return Hand::Trips(trips_cards);
        }
        let two_pair = HandAnalyser::contains_two_pair(&grouping_by_card_number, cards);
        if let Some(two_pair_cards) = two_pair {
            return Hand::TwoPair(two_pair_cards);
        }
        let pair = HandAnalyser::contains_pair(&grouping_by_card_number, cards);
        if let Some(pair_cards) = pair {
            return Hand::Pair(pair_cards);
        }
        let mut high_cards: Vec<Card> = Vec::new();
        let mut i: usize = 0;
        while i < NUM_CARDS_IN_HAND
            invariant
                i <= NUM_CARDS_IN_HAND <= cards.len(),
                high_cards@ == cards@.take(i as int),
            decreases NUM_CARDS_IN_HAND - i,
        {
            high_cards.push(cards[i]);
            assert(cards@.take(i + 1) =~= cards@.take(i as int).push(cards[i as int]));
            i += 1;
        }
        Hand::HighCard(high_cards)
    }

    /// The best five-card hand of a pool given in any order: the pool is sorted
    /// from high to low, cards of equal rank in the order given, and then
    /// evaluated.
    pub fn evaluate_best_hand(cards: &Vec<Card>) -> (hand: Hand)
        requires
            cards.len() >= NUM_CARDS_IN_HAND,
            all_standard(cards@),
        ensures
            hand@ == best_hand(sorted_by_value(cards@)),
            hand.wf(),
            drawn_from(hand.cards(), cards@),
            all_standard(hand.cards()),
            cards@.no_duplicates() ==> hand.cards().no_duplicates(),
    {
        let sorted = sort_cards(cards);
        proof {
            lemma_sorted_by_value(cards@);
        }
        let hand = HandAnalyser::get_best_hand(&sorted);
        proof {
            assert forall|k: int| 0 <= k < hand.cards().len() implies cards@.contains(
                #[trigger] hand.cards()[k],
            ) by {
                assert(sorted@.contains(hand.cards()[k]));
            }
        }
        hand
    }

    /// The tie-break among hands: for each position of `indices` in turn, the
    /// highest rank value at that position among the hands still in is found,
    /// and the hands with a lower rank there are out. When one hand is left the
    /// later positions are not looked at.
    fn get_winning_hand_in_hand_type_helper(
        hands: &Vec<(usize, Hand)>,
        indices: &Vec<usize>,
    ) -> (best_hands: Vec<(usize, Hand)>)
        requires
            all_well_formed(hands@),
            forall|k: int| 0 <= k < indices.len() ==> (#[trigger] indices[k]) < NUM_CARDS_IN_HAND,
        ensures
            all_well_formed(best_hands@),
            entries_view(best_hands@) == entries_view(hands@).filter(
                leads(
                    entries_view(hands@),
                    indices@.map_values(|index: usize| index as int),
                    indices.len() as int,
                ),
            ),
    {
        let ghost entries = entries_view(hands@);
        let ghost slots = indices@.map_values(|index: usize| index as int);
        let mut best_hands: Vec<(usize, Hand)> = Vec::new();
        let mut i: usize = 0;
        while i < hands.len()
            invariant
                i <= hands.len(),
                all_well_formed(hands@),
                all_well_formed(best_hands@),
                entries_view(best_hands@) == entries_view(hands@).take(i as int),
            decreases hands.len() - i,
        {
            let ghost before = entries_view(best_hands@);
            best_hands.push((hands[i].0, hands[i].1.clone()));
            assert(entries_view(best_hands@) =~= before.push(entries_view(hands@)[i as int]));
            assert(entries_view(hands@).take(i + 1) =~= entries_view(hands@).take(i as int).push(
                entries_view(hands@)[i as int],
            ));
            i += 1;
        }
        proof {
            assert(entries.take(hands.len() as int) =~= entries);
            lemma_all_lead_at_start(entries, slots);
        }
        let mut round: usize = 0;
        while round < indices.len()
            invariant
                round <= indices.len(),
                entries == entries_view(hands@),
                slots == indices@.map_values(|index: usize| index as int),
                all_well_formed(best_hands@),
                forall|k: int| 0 <= k < indices.len() ==> (#[trigger] indices[k]) < NUM_CARDS_IN_HAND,
                entries_view(best_hands@) == entries.filter(leads(entries, slots, round as int)),
            decreases indices.len() - round,
        {
            if best_hands.len() == 1 {
                proof {
                    lemma_single_leader(entries, slots, round as int, indices.len() as int);
                }
                return best_hands;
            }
            let index = indices[round];
            assert(slots[round as int] == index);
            let ghost leaders = entries_view(best_hands@);
            let mut highest_card_number: u32 = 0;
            let mut i: usize = 0;
            while i < best_hands.len()
                invariant
                    i <= best_hands.len(),
                    all_well_formed(best_hands@),
                    index < NUM_CARDS_IN_HAND,
                    slots[round as int] == index,
                    leaders == entries_view(best_hands@),
                    forall|k: int|
                        0 <= k < i ==> slot_value((#[trigger] leaders[k]).1.cards, slots, round as int)
                            <= highest_card_number,
                    i > 0 ==> exists|k: int|
                        0 <= k < i && slot_value((#[trigger] leaders[k]).1.cards, slots, round as int)
                            == highest_card_number,
                decreases best_hands.len() - i,
            {
                assert(best_hands[i as int].1.wf());
                let cards = best_hands[i].1.get_cards();
                let card_number = cards[index].number.get_value();
                assert(card_number == slot_value(leaders[i as int].1.cards, slots, round as int));
                if card_number > highest_card_number || i == 0 {
                    highest_card_number = card_number;
                }
                i += 1;
            }
            proof {
                lemma_round(entries, slots, round as int, highest_card_number as nat);
            }
            best_hands = keep_hands_with(
                &best_hands,
                index,
                highest_card_number,
                Ghost(at_slot(slots, round as int, highest_card_number as nat)),
            );
            round += 1;
        }
        best_hands
    }

    /// The winners among hands that all have one category.
    fn get_winning_hand_in_hand_type(hands: &Vec<(usize, Hand)>) -> (winning: Vec<(usize, Hand)>)
        requires
            all_well_formed(hands@),
            forall|i: int, j: int|
                0 <= i < hands.len() && 0 <= j < hands.len() ==> (#[trigger] hands[i]).1.value() == (
                #[trigger] hands[j]).1.value(),
        ensures
            all_well_formed(winning@),
            entries_view(winning@) == winners(entries_view(hands@)),
    {
        if hands.len() == 0 {
            proof {
                reveal(Seq::filter);
                assert(entries_view(hands@) =~= Seq::<Entry>::empty());
            }
            return Vec::new();
        }
        let hand_type = hands[0].1.get_value();
        let indices = kicker_indices(hand_type);
        proof {
            let entries = entries_view(hands@);
            assert(indices@.map_values(|index: usize| index as int) =~= kicker_slots(hand_type as nat));
            assert forall|i: int| 0 <= i < entries.len() implies (#[trigger] entries[i]).1.value
                == hand_type by {
                assert(hands[i].1.value() == hands[0].1.value());
            }
            lemma_winners_within_category(entries, hand_type as nat);
        }
        HandAnalyser::get_winning_hand_in_hand_type_helper(hands, &indices)
    }

    /// The winners of a showdown. The hands of the strongest category present
    /// stay in, and the tie-break of that category is held among them. What is
    /// returned are the entries that no entry beats, in the order given; more
    /// than one when the best hands tie at every compared position.
    pub fn resolve_showdown(hands: &Vec<(usize, Hand)>) -> (winning: Vec<(usize, Hand)>)
        requires
            all_well_formed(hands@),
        ensures
            all_well_formed(winning@),
            entries_view(winning@) == winners(entries_view(hands@)),
    {
        let ghost entries = entries_view(hands@);
        let mut strongest_hands_value: u32 = 0;
        let mut i: usize = 0;
        while i < hands.len()
            invariant
                i <= hands.len(),
                entries == entries_view(hands@),
                i == 0 ==> strongest_hands_value == 0,
                forall|k: int| 0 <= k < i ==> (#[trigger] entries[k]).1.value <= strongest_hands_value,
                i > 0 ==> exists|k: int|
                    0 <= k < i && (#[trigger] entries[k]).1.value == strongest_hands_value,
            decreases hands.len() - i,
        {
            let value = hands[i].1.get_value();
            assert(entries[i as int].1.value == value);
            if value > strongest_hands_value {
                strongest_hands_value = value;
            }
            i += 1;
        }
        let mut strongest_hands: Vec<(usize, Hand)> = Vec::new();
        let mut i: usize = 0;
        proof {
            reveal(Seq::filter);
            assert(entries.take(0) =~= Seq::<Entry>::empty());
            assert(entries_view(strongest_hands@) =~= Seq::<Entry>::empty());
        }
        while i < hands.len()
            invariant
                i <= hands.len(),
                entries == entries_view(hands@),
                all_well_formed(hands@),
                all_well_formed(strongest_hands@),
                forall|k: int|
                    0 <= k < strongest_hands.len() ==> (#[trigger] strongest_hands[k]).1.value()
                        == strongest_hands_value,
                entries_view(strongest_hands@) == entries.take(i as int).filter(
                    of_category(strongest_hands_value as nat),
                ),
            decreases hands.len() - i,
        {
            let ghost before = entries_view(strongest_hands@);
            proof {
                assert(entries.take(i + 1) =~= entries.take(i as int).push(entries[i as int]));
                entries.take(i as int).lemma_filter_push(
                    entries[i as int],
                    of_category(strongest_hands_value as nat),
                );
            }
            if hands[i].1.get_value() == strongest_hands_value {
                strongest_hands.push((hands[i].0, hands[i].1.clone()));
                assert(entries_view(strongest_hands@) =~= before.push(entries[i as int]));
            }
            i += 1;
        }
        proof {
            assert(entries.take(hands.len() as int) =~= entries);
            lemma_winners_are_of_strongest_category(entries, strongest_hands_value as nat);
        }
        HandAnalyser::get_winning_hand_in_hand_type(&strongest_hands)
    }

    /// The winners of the deal: the best hand of each player's pool is found,
    /// the showdown is held between them, and each winner is returned as the
    /// label of the player's hole cards with the winning hand, in the order
    /// of the players.
    pub fn get_winning_hands(&self, verbose: bool) -> (winning: Vec<(String, Hand)>)
        ensures
            winning.len() == winners(showdown_entries(self.pools())).len(),
            forall|k: int|
                0 <= k < winning.len() ==> {
                    let winner = winners(showdown_entries(self.pools()))[k];
                    &&& 0 <= winner.0 < self.hole_cards().len()
                    &&& (#[trigger] winning[k]).0@ == hole_label(
                        self.hole_cards()[winner.0 as int],
                        verbose,
                    )
                    &&& winning[k].1@ == winner.1
                    &&& winning[k].1.wf()
                },
    {
        proof {
            use_type_invariant(self);
        }
        let ghost entries = showdown_entries(self.pools());
        let mut hands: Vec<(usize, Hand)> = Vec::new();
        let mut index: usize = 0;
        while index < self.card_combinations.len()
            invariant
                index <= self.card_combinations.len(),
                forall|i: int|
                    0 <= i < self.card_combinations.len() ==> {
                        &&& (#[trigger] self.card_combinations[i]).len() >= NUM_CARDS_IN_HAND
                        &&& sorted_descending(self.card_combinations[i]@)
                        &&& all_standard(self.card_combinations[i]@)
                    },
                all_well_formed(hands@),
                hands.len() == index,
                entries == showdown_entries(self.pools()),
                entries_view(hands@) == entries.take(index as int),
            decreases self.card_combinations.len() - index,
        {
            let ghost before = entries_view(hands@);
            let hand = HandAnalyser::get_best_hand(&self.card_combinations[index]);
            hands.push((index, hand));
            proof {
                assert(entries[index as int] == (index, best_hand(self.pools()[index as int])));
                assert(entries_view(hands@) =~= before.push(entries[index as int]));
                assert(entries.take(index + 1) =~= entries.take(index as int).push(
                    entries[index as int],
                ));
            }
            index += 1;
        }
        assert(entries.take(self.card_combinations.len() as int) =~= entries);
        let winning_hands = HandAnalyser::resolve_showdown(&hands);
        proof {
            lemma_filter_keeps(entries, crate::showdown::is_winner(entries));
        }
        let mut winning_player_hands: Vec<(String, Hand)> = Vec::new();
        let mut k: usize = 0;
        while k < winning_hands.len()
            invariant
                k <= winning_hands.len(),
                self.card_combinations.len() == self.player_cards.len(),
                forall|i: int|
                    0 <= i < self.player_cards.len() ==> (#[trigger] self.player_cards[i]).len()
                        >= 2,
                all_well_formed(winning_hands@),
                entries == showdown_entries(self.pools()),
                entries_view(winning_hands@) == winners(entries),
                forall|j: int|
                    0 <= j < winners(entries).len() ==> entries.contains(
                        #[trigger] winners(entries)[j],
                    ),
                winning_player_hands.len() == k,
                forall|j: int|
                    0 <= j < k ==> {
                        let winner = winners(entries)[j];
                        &&& 0 <= winner.0 < self.hole_cards().len()
                        &&& (#[trigger] winning_player_hands[j]).0@ == hole_label(
                            self.hole_cards()[winner.0 as int],
                            verbose,
                        )
                        &&& winning_player_hands[j].1@ == winner.1
                        &&& winning_player_hands[j].1.wf()
                    },
            decreases winning_hands.len() - k,
        {
            let player_num = winning_hands[k].0;
            proof {
                let winner = winners(entries)[k as int];
                assert(entries_view(winning_hands@)[k as int] == winner);
                assert(entries.contains(winner));
                let i = choose|i: int| 0 <= i < entries.len() && entries[i] == winner;
                assert(winner.0 == i);
                assert(winning_hands[k as int].1.wf());
            }
            let cards_string = Card::get_hand_string(&self.player_cards[player_num], verbose);
            winning_player_hands.push((cards_string, winning_hands[k].1.clone()));
            k += 1;
        }
        winning_player_hands
    }
}

} // verus!
