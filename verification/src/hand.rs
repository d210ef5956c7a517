//! The ten hand categories, each with the five cards that make the hand.

use vstd::prelude::*;
use vstd::string::*;
use crate::card::Card;

verus! {

/// Number of cards in a hand.
pub const NUM_CARDS_IN_HAND: usize = 5;

/// A classified hand. Every variant carries the five cards of the hand, in
/// the order in which the category compares them: the cards of the pattern
/// first, then the kickers from high to low.
#[derive(Debug)]
pub enum Hand {
    RoyalFlush(Vec<Card>),
    StraightFlush(Vec<Card>),
    Quads(Vec<Card>),
    FullHouse(Vec<Card>),
    Flush(Vec<Card>),
    Straight(Vec<Card>),
    Trips(Vec<Card>),
    TwoPair(Vec<Card>),
    Pair(Vec<Card>),
    HighCard(Vec<Card>),
}

/// What a hand is to the contracts: the strength of its category, from 1 for
/// a high card to 10 for a royal flush, and its cards in order.
pub struct HandView {
    pub value: nat,
    pub cards: Seq<Card>,
}

/// The name of the category of strength `value`.
pub open spec fn category_name(value: nat) -> Seq<char> {
    if value == 10 {
        "Royal Flush"@
    } else if value == 9 {
        "Straight Flush"@
    } else if value == 8 {
        "Quads"@
    } else if value == 7 {
        "Full House"@
    } else if value == 6 {
        "Flush"@
    } else if value == 5 {
        "Straight"@
    } else if value == 4 {
        "Trips"@
    } else if value == 3 {
        "Two Pair"@
    } else if value == 2 {
        "Pair"@
    } else {
        "High Card"@
    }
}

/// The labels of `cards`, each between double quotes, with `", "` between
/// neighbours.
pub open spec fn quoted_labels(cards: Seq<Card>) -> Seq<char>
    decreases cards.len(),
{
    if cards.len() == 0 {
        Seq::empty()
    } else if cards.len() == 1 {
        "\""@ + cards[0].label() + "\""@
    } else {
        quoted_labels(cards.drop_last()) + ", "@ + "\""@ + cards.last().label() + "\""@
    }
}

impl View for Hand {
    type V = HandView;

    open spec fn view(&self) -> HandView {
        HandView { value: self.value(), cards: self.cards() }
    }
}

impl Hand {
    /// The strength of the hand's category.
    pub open spec fn value(&self) -> nat {
        match self {
            Hand::RoyalFlush(_) => 10,
            Hand::StraightFlush(_) => 9,
            Hand::Quads(_) => 8,
            Hand::FullHouse(_) => 7,
            Hand::Flush(_) => 6,
            Hand::Straight(_) => 5,
            Hand::Trips(_) => 4,
            Hand::TwoPair(_) => 3,
            Hand::Pair(_) => 2,
            Hand::HighCard(_) => 1,
        }
    }

    /// The cards of the hand, in order.
    pub open spec fn cards(&self) -> Seq<Card> {
        match self {
            Hand::RoyalFlush(cards) => cards@,
            Hand::StraightFlush(cards) => cards@,
            Hand::Quads(cards) => cards@,
            Hand::FullHouse(cards) => cards@,
            Hand::Flush(cards) => cards@,
            Hand::Straight(cards) => cards@,
            Hand::Trips(cards) => cards@,
            Hand::TwoPair(cards) => cards@,
            Hand::Pair(cards) => cards@,
            Hand::HighCard(cards) => cards@,
        }
    }

    /// A hand is well formed when it carries exactly five cards.
    pub open spec fn wf(&self) -> bool {
        self.cards().len() == NUM_CARDS_IN_HAND
    }

    /// The text that `_to_string` writes: the category's name, a colon, and
    /// the quoted labels of the cards between square brackets.
    pub open spec fn description(&self) -> Seq<char> {
        category_name(self.value()) + ": ["@ + quoted_labels(self.cards()) + "]"@
    }

    /// The hand of the category of strength `value` with the given cards;
    /// a strength outside `2..=10` gives a high card.
    pub fn from_value(value: u32, cards: Vec<Card>) -> (hand: Hand)
        ensures
            hand.cards() == cards@,
            hand.value() == if 2 <= value <= 10 {
                value as nat
            } else {
                1
            },
    {
        match value {
            10 => Hand::RoyalFlush(cards),
            9 => Hand::StraightFlush(cards),
            8 => Hand::Quads(cards),
            7 => Hand::FullHouse(cards),
            6 => Hand::Flush(cards),
            5 => Hand::Straight(cards),
            4 => Hand::Trips(cards),
            3 => Hand::TwoPair(cards),
            2 => Hand::Pair(cards),
            _ => Hand::HighCard(cards),
        }
    }

    pub fn _to_string(&self) -> (s: String)
        ensures
            s@ == self.description(),
    {
        let mut s = match self {
            Hand::RoyalFlush(_) => "Royal Flush".to_string(),
            Hand::StraightFlush(_) => "Straight Flush".to_string(),
            Hand::Quads(_) => "Quads".to_string(),
            Hand::FullHouse(_) => "Full House".to_string(),
            Hand::Flush(_) => "Flush".to_string(),
            Hand::Straight(_) => "Straight".to_string(),
            Hand::Trips(_) => "Trips".to_string(),
            Hand::TwoPair(_) => "Two Pair".to_string(),
            Hand::Pair(_) => "Pair".to_string(),
            Hand::HighCard(_) => "High Card".to_string(),
        };
        s.append(": [");
        let cards = self.get_cards();
        let labels = Card::cards_to_string(&cards);
        let mut quoted = String::new();
        let mut i: usize = 0;
        while i < labels.len()
            invariant
                i <= labels.len(),
                labels.len() == cards.len(),
                forall|j: int| 0 <= j < cards.len() ==> (#[trigger] labels[j])@ == cards[j].label(),
                quoted@ == quoted_labels(cards@.take(i as int)),
            decreases labels.len() - i,
        {
            proof {
                assert(cards@.take(i + 1).drop_last() =~= cards@.take(i as int));
                assert(cards@.take(i + 1).last() == cards[i as int]);
            }
            if i > 0 {
                quoted.append(", ");
            }
            quoted.append("\"");
            quoted.append(labels[i].as_str());
            quoted.append("\"");
            i += 1;
        }
        assert(cards@.take(cards.len() as int) =~= cards@);
        s.append(quoted.as_str());
        s.append("]");
        s
    }

    pub fn get_value(&self) -> (value: u32)
        ensures
            value == self.value(),
            1 <= value <= 10,
    {
        match self {
            Hand::RoyalFlush(_) => 10,
            Hand::StraightFlush(_) => 9,
            Hand::Quads(_) => 8,
            Hand::FullHouse(_) => 7,
            Hand::Flush(_) => 6,
            Hand::Straight(_) => 5,
            Hand::Trips(_) => 4,
            Hand::TwoPair(_) => 3,
            Hand::Pair(_) => 2,
            Hand::HighCard(_) => 1,
        }
    }

    pub fn get_cards(&self) -> (cards: Vec<Card>)
        ensures
            cards@ == self.cards(),
    {
        match self {
            Hand::RoyalFlush(cards) => cards.clone(),
            Hand::StraightFlush(cards) => cards.clone(),
            Hand::Quads(cards) => cards.clone(),
            Hand::FullHouse(cards) => cards.clone(),
            Hand::Flush(cards) => cards.clone(),
            Hand::Straight(cards) => cards.clone(),
            Hand::Trips(cards) => cards.clone(),
            Hand::TwoPair(cards) => cards.clone(),
            Hand::Pair(cards) => cards.clone(),
            Hand::HighCard(cards) => cards.clone(),
        }
    }

}

impl Clone for Hand {
    /// A copy of the hand: same category, same cards.
    fn clone(&self) -> (hand: Self)
        ensures
            hand@ == self@,
    {
        Hand::from_value(self.get_value(), self.get_cards())
    }
}

} // verus!
