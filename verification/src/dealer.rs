//! The dealer: hands out the fifty-two cards in random order, none twice.

use rand::rngs::ThreadRng;
use rand::Rng;
use vstd::prelude::*;
use crate::card::Card;
use crate::pool::{all_standard, lists_view};

verus! {

/// Number of community cards in a deal.
pub const NUM_COMMUNITY_CARDS: usize = 5;

/// Number of hole cards that each player gets.
pub const NUM_HOLE_CARDS: usize = 2;

/// Number of cards in the deck.
pub const NUM_CARDS_IN_DECK: usize = 52;

/// Why a deal could not be made.
#[derive(Clone, Copy, Debug, PartialEq, Eq, Structural)]
pub enum DealError {
    /// More cards were asked for than the dealer has left.
    DeckExhausted,
}

/// The random number generator of the current thread, `rand::rngs::ThreadRng`.
/// Nothing is known of its state.
#[verifier::external_type_specification]
#[verifier::external_body]
pub struct ExThreadRng(ThreadRng);

/// `rand::thread_rng` hands out the generator of the current thread. Nothing
/// is claimed of the generator.
pub assume_specification[ rand::thread_rng ]() -> (rng: ThreadRng);

/// `Rng::gen_range` on the inclusive range `low..=high`: the sample lies in
/// the range. Which value of the range comes is left open, so that what is
/// proved with this holds of every outcome. The range must not be empty:
/// `gen_range` panics on an empty range.
#[verifier::external_body]
fn gen_range_inclusive(rng: &mut ThreadRng, low: usize, high: usize) -> (sample: usize)
    requires
        low <= high,
    ensures
        low <= sample <= high,
{
    rng.gen_range(low..=high)
}

/// The cards of a deal in one sequence: the community cards, then each
/// player's hole cards in player order.
pub open spec fn cards_of_deal(community: Seq<Card>, hands: Seq<Seq<Card>>) -> Seq<Card> {
    community + hands.flatten()
}

/// The card at a position of the full deck: the suits in the order of their
/// indices, and within a suit the ranks from the two up to the ace.
pub open spec fn deck_card_is(card: Card, position: int) -> bool {
    &&& card.suit.index() == position / 13
    &&& card.value() == position % 13 + 2
}

/// A card is fixed by its suit index and its rank value.
proof fn lemma_card_by_indices(a: Card, b: Card)
    requires
        a.suit.index() == b.suit.index(),
        a.value() == b.value(),
    ensures
        a == b,
{
}

/// A dealer holds the cards that it has not handed out yet. It starts with
/// the whole deck, and each card that it deals leaves its stock for good.
pub struct Dealer {
    remaining: Vec<Card>,
}

impl Dealer {
    /// The cards that have not been dealt, in the order in which the dealer
    /// holds them.
    pub closed spec fn undealt(&self) -> Seq<Card> {
        self.remaining@
    }

    /// The cards that have been dealt.
    pub open spec fn dealt(&self) -> Set<Card> {
        Set::new(|card: Card| card.is_standard() && !self.undealt().contains(card))
    }

    /// A dealer is well formed when the cards that are left are cards of the
    /// deck, none of them twice.
    pub open spec fn wf(&self) -> bool {
        &&& self.undealt().no_duplicates()
        &&& all_standard(self.undealt())
    }

    /// A dealer with the full deck in its first order: no card has been
    /// dealt.
    pub fn new() -> (dealer: Self)
        ensures
            dealer.wf(),
            dealer.undealt().len() == NUM_CARDS_IN_DECK,
            forall|k: int|
                0 <= k < NUM_CARDS_IN_DECK ==> deck_card_is(#[trigger] dealer.undealt()[k], k),
            dealer.dealt() == Set::<Card>::empty(),
    {
        let mut deck: Vec<Card> = Vec::new();
        let mut position: u32 = 0;
        while position < 52
            invariant
                position <= 52,
                deck.len() == position,
                forall|k: int| 0 <= k < position ==> deck_card_is(#[trigger] deck[k], k),
            decreases 52 - position,
        {
            let card = Card::from_indices(position / 13, position % 13 + 2);
            deck.push(card.unwrap());
            position += 1;
        }
        proof {
            assert forall|card: Card| card.is_standard() implies deck@.contains(card) by {
                let k = card.suit.index() * 13 + card.value() - 2;
                assert(deck_card_is(deck[k], k));
                lemma_card_by_indices(card, deck[k]);
            }
            assert forall|i: int, j: int| 0 <= i < deck.len() && 0 <= j < deck.len() && i
                != j implies deck[i] != deck[j] by {
                assert(deck_card_is(deck[i], i) && deck_card_is(deck[j], j));
            }
            assert forall|k: int| 0 <= k < deck.len() implies (#[trigger] deck[k]).is_standard() by {
                assert(deck_card_is(deck[k], k));
            }
        }
        let dealer = Dealer { remaining: deck };
        assert(dealer.dealt() =~= Set::<Card>::empty());
        dealer
    }

    /// How many cards are left to deal.
    pub fn cards_left(&self) -> (left: usize)
        ensures
            left == self.undealt().len(),
    {
        self.remaining.len()
    }

    /// Deals the card at `position` among the cards that are left.
    pub fn take_card(&mut self, position: usize) -> (card: Card)
        requires
            old(self).wf(),
            position < old(self).undealt().len(),
        ensures
            final(self).wf(),
            card == old(self).undealt()[position as int],
            card.is_standard(),
            !old(self).dealt().contains(card),
            final(self).undealt() == old(self).undealt().remove(position as int),
            final(self).dealt() == old(self).dealt().insert(card),
    {
        let ghost before = self.remaining@;
        let card = self.remaining.remove(position);
        proof {
            let after = self.remaining@;
            assert(before[position as int].is_standard());
            assert(before.contains(card));
            assert forall|c: Card| after.contains(c) implies before.contains(c) && c != card by {
                let k = choose|k: int| 0 <= k < after.len() && after[k] == c;
                if k < position {
                    assert(before[k] == c);
                } else {
                    assert(before[k + 1] == c);
                }
            }
            assert forall|c: Card| before.contains(c) && c != card implies after.contains(c) by {
                let k = choose|k: int| 0 <= k < before.len() && before[k] == c;
                if k < position {
                    assert(after[k] == c);
                } else {
                    assert(after[k - 1] == c);
                }
            }
            assert(self.dealt() =~= old(self).dealt().insert(card));
        }
        card
    }

    /// Deals one card, drawn at random among the cards that are left: a
    /// position among them is sampled, and the card at that position is
    /// dealt. Fails when no card is left.
    pub fn generate_new_card(&mut self) -> (drawn: Result<Card, DealError>)
        requires
            old(self).wf(),
        ensures
            final(self).wf(),
            drawn is Err <==> old(self).undealt().len() == 0,
            drawn is Err ==> drawn == Err::<Card, DealError>(DealError::DeckExhausted)
                && final(self).undealt() == old(self).undealt(),
            drawn matches Ok(card) ==> {
                &&& card.is_standard()
                &&& old(self).undealt().contains(card)
                &&& !old(self).dealt().contains(card)
                &&& final(self).dealt() == old(self).dealt().insert(card)
                &&& final(self).undealt().len() == old(self).undealt().len() - 1
            },
    {
        let left = self.remaining.len();
        if left == 0 {
            return Err(DealError::DeckExhausted);
        }
        let mut rng = rand::thread_rng();
        let position = gen_range_inclusive(&mut rng, 0, left - 1);
        let card = self.take_card(position);
        Ok(card)
    }

    /// Deals five community cards, then two hole cards to each player in
    /// turn. A player's two cards are given with the higher rank first, and in
    /// the order drawn when the ranks are equal.
    ///
    /// Fails, and deals nothing, when the dealer has fewer cards left than
    /// the deal needs; a full deck serves up to twenty-three players.
    pub fn deal(
        &mut self,
        num_players: u32,
    ) -> (dealt: Result<(Vec<Card>, Vec<Vec<Card>>), DealError>)
        requires
            old(self).wf(),
        ensures
            final(self).wf(),
            dealt is Ok <==> NUM_COMMUNITY_CARDS + NUM_HOLE_CARDS * num_players <= old(
                self,
            ).undealt().len(),
            dealt is Err ==> dealt == Err::<(Vec<Card>, Vec<Vec<Card>>), DealError>(
                DealError::DeckExhausted,
            ) && final(self).undealt() == old(self).undealt(),
            dealt matches Ok((community_cards, player_cards)) ==> {
                let cards = cards_of_deal(community_cards@, lists_view(player_cards@));
                &&& community_cards.len() == NUM_COMMUNITY_CARDS
                &&& player_cards.len() == num_players
                &&& forall|p: int|
                    0 <= p < player_cards.len() ==> (#[trigger] player_cards[p]).len()
                        == NUM_HOLE_CARDS && player_cards[p][0].value()
                        >= player_cards[p][1].value()
                &&& all_standard(community_cards@)
                &&& forall|p: int|
                    0 <= p < player_cards.len() ==> all_standard((#[trigger] player_cards[p])@)
                &&& cards.len() == NUM_COMMUNITY_CARDS + NUM_HOLE_CARDS * num_players
                &&& cards.no_duplicates()
                &&& all_standard(cards)
                &&& forall|k: int|
                    0 <= k < cards.len() ==> !old(self).dealt().contains(#[trigger] cards[k])
                &&& final(self).dealt() == old(self).dealt().union(cards.to_set())
                &&& final(self).undealt().len() == old(self).undealt().len() - cards.len()
            },
    {
        let needed: u64 = 5 + 2 * (num_players as u64);
        if (self.remaining.len() as u64) < needed {
            return Err(DealError::DeckExhausted);
        }
        let mut community_cards: Vec<Card> = Vec::new();
        let mut player_cards: Vec<Vec<Card>> = Vec::new();
        let ghost start = old(self).undealt().len();
        proof {
            assert(lists_view(player_cards@) =~= Seq::<Seq<Card>>::empty());
            assert(cards_of_deal(community_cards@, lists_view(player_cards@)) =~= Seq::<Card>::empty());
            assert(self.dealt() =~= old(self).dealt().union(Seq::<Card>::empty().to_set()));
        }
        let mut count: usize = 0;
        while count < NUM_COMMUNITY_CARDS
            invariant
                count <= NUM_COMMUNITY_CARDS,
                self.wf(),
                needed == 5 + 2 * num_players,
                needed <= start == old(self).undealt().len(),
                player_cards@.len() == 0,
                community_cards.len() == count,
                all_standard(community_cards@),
                Dealer::dealing(
                    *old(self),
                    *self,
                    cards_of_deal(community_cards@, lists_view(player_cards@)),
                ),
            decreases NUM_COMMUNITY_CARDS - count,
        {
            let ghost before = cards_of_deal(community_cards@, lists_view(player_cards@));
            let ghost dealer_before = *self;
            match self.generate_new_card() {
                Ok(new_card) => {
                    community_cards.push(new_card);
                    proof {
                        assert(lists_view(player_cards@) =~= Seq::<Seq<Card>>::empty());
                        assert(cards_of_deal(community_cards@, lists_view(player_cards@)) =~= before.push(
                            new_card,
                        ));
                        Dealer::lemma_dealing_one(*old(self), dealer_before, *self, before, new_card);
                    }
                },
                Err(e) => {
                    return Err(e);
                },
            }
            count += 1;
        }
        let mut player: u32 = 0;
        while player < num_players
            invariant
                player <= num_players,
                self.wf(),
                needed == 5 + 2 * num_players,
                needed <= start == old(self).undealt().len(),
                community_cards.len() == NUM_COMMUNITY_CARDS,
                all_standard(community_cards@),
                player_cards.len() == player,
                forall|p: int|
                    0 <= p < player_cards.len() ==> (#[trigger] player_cards[p]).len()
                        == NUM_HOLE_CARDS && player_cards[p][0].value()
                        >= player_cards[p][1].value(),
                forall|p: int|
                    0 <= p < player_cards.len() ==> all_standard((#[trigger] player_cards[p])@),
                cards_of_deal(community_cards@, lists_view(player_cards@)).len() == 5 + 2 * player,
                Dealer::dealing(
                    *old(self),
                    *self,
                    cards_of_deal(community_cards@, lists_view(player_cards@)),
                ),
            decreases num_players - player,
        {
            let ghost before = cards_of_deal(community_cards@, lists_view(player_cards@));
            let ghost dealer_before = *self;
            let first = match self.generate_new_card() {
                Ok(new_card) => new_card,
                Err(e) => {
                    return Err(e);
                },
            };
            let ghost dealer_between = *self;
            proof {
                Dealer::lemma_dealing_one(*old(self), dealer_before, *self, before, first);
            }
            let second = match self.generate_new_card() {
                Ok(new_card) => new_card,
                Err(e) => {
                    return Err(e);
                },
            };
            proof {
                Dealer::lemma_dealing_one(
                    *old(self),
                    dealer_between,
                    *self,
                    before.push(first),
                    second,
                );
            }
            let mut two_card_hand: Vec<Card> = Vec::new();
            if first.number.get_value() >= second.number.get_value() {
                two_card_hand.push(first);
                two_card_hand.push(second);
            } else {
                two_card_hand.push(second);
                two_card_hand.push(first);
                proof {
                    Dealer::lemma_dealing_swapped(*old(self), *self, before, first, second);
                }
            }
            let ghost hands_before = lists_view(player_cards@);
            player_cards.push(two_card_hand);
            proof {
                assert(lists_view(player_cards@) =~= hands_before.push(two_card_hand@));
                hands_before.lemma_flatten_push(two_card_hand@);
                assert(cards_of_deal(community_cards@, lists_view(player_cards@)) =~= before.push(
                    two_card_hand@[0],
                ).push(two_card_hand@[1]));
            }
            player += 1;
        }
        Ok((community_cards, player_cards))
    }

    /// While a deal is made: `cards` are the cards dealt since `start`, all
    /// different and none dealt before.
    pub open spec fn dealing(start: Dealer, now: Dealer, cards: Seq<Card>) -> bool {
        &&& cards.no_duplicates()
        &&& all_standard(cards)
        &&& forall|k: int| 0 <= k < cards.len() ==> !start.dealt().contains(#[trigger] cards[k])
        &&& now.dealt() == start.dealt().union(cards.to_set())
        &&& now.undealt().len() == start.undealt().len() - cards.len()
    }

    /// Dealing one more card keeps a deal in order.
    proof fn lemma_dealing_one(
        start: Dealer,
        before: Dealer,
        after: Dealer,
        cards: Seq<Card>,
        card: Card,
    )
        requires
            Dealer::dealing(start, before, cards),
            card.is_standard(),
            !before.dealt().contains(card),
            after.dealt() == before.dealt().insert(card),
            after.undealt().len() == before.undealt().len() - 1,
        ensures
            Dealer::dealing(start, after, cards.push(card)),
    {
        let more = cards.push(card);
        assert forall|k: int| 0 <= k < cards.len() implies cards[k] != card by {
            assert(cards.to_set().contains(cards[k]));
            assert(before.dealt().contains(cards[k]));
        }
        assert(!start.dealt().contains(card)) by {
            assert(start.dealt().subset_of(before.dealt()));
        }
        assert(more.to_set() =~= cards.to_set().insert(card)) by {
            assert forall|c: Card| more.to_set().contains(c) == cards.to_set().insert(card).contains(
                c,
            ) by {
                if cards.to_set().contains(c) {
                    let k = choose|k: int| 0 <= k < cards.len() && cards[k] == c;
                    assert(more[k] == c);
                }
                if c == card {
                    assert(more[cards.len() as int] == c);
                }
                if more.to_set().contains(c) {
                    let k = choose|k: int| 0 <= k < more.len() && more[k] == c;
                    if k < cards.len() {
                        assert(cards[k] == c);
                    }
                }
            }
        }
        assert(after.dealt() =~= start.dealt().union(more.to_set()));
    }

    /// The last two cards of a deal may change places.
    proof fn lemma_dealing_swapped(
        start: Dealer,
        now: Dealer,
        cards: Seq<Card>,
        first: Card,
        second: Card,
    )
        requires
            Dealer::dealing(start, now, cards.push(first).push(second)),
        ensures
            Dealer::dealing(start, now, cards.push(second).push(first)),
    {
        let drawn = cards.push(first).push(second);
        let given = cards.push(second).push(first);
        let n = cards.len() as int;
        assert(drawn[n] == first && drawn[n + 1] == second);
        assert forall|k: int| 0 <= k < given.len() implies #[trigger] given[k] == drawn[if k == n {
            n + 1
        } else if k == n + 1 {
            n
        } else {
            k
        }] by {}
        assert forall|i: int, j: int| 0 <= i < given.len() && 0 <= j < given.len() && i
            != j implies given[i] != given[j] by {
            let a = if i == n {
                n + 1
            } else if i == n + 1 {
                n
            } else {
                i
            };
            let b = if j == n {
                n + 1
            } else if j == n + 1 {
                n
            } else {
                j
            };
            assert(given[i] == drawn[a] && given[j] == drawn[b]);
        }
        assert forall|k: int| 0 <= k < given.len() implies (#[trigger] given[k]).is_standard()
            && !start.dealt().contains(given[k]) by {
            let a = if k == n {
                n + 1
            } else if k == n + 1 {
                n
            } else {
                k
            };
            assert(given[k] == drawn[a]);
        }
        assert(given.to_set() =~= drawn.to_set()) by {
            assert forall|c: Card| given.to_set().contains(c) == drawn.to_set().contains(c) by {
                if given.to_set().contains(c) {
                    let k = choose|k: int| 0 <= k < given.len() && given[k] == c;
                    let a = if k == n {
                        n + 1
                    } else if k == n + 1 {
                        n
                    } else {
                        k
                    };
                    assert(drawn[a] == c);
                }
                if drawn.to_set().contains(c) {
                    let k = choose|k: int| 0 <= k < drawn.len() && drawn[k] == c;
                    let a = if k == n {
                        n + 1
                    } else if k == n + 1 {
                        n
                    } else {
                        k
                    };
                    assert(given[a] == c);
                }
            }
        }
    }
}

} // verus!
