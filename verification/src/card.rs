//! Suits, ranks and cards, with their numeric values and their labels.

use vstd::prelude::*;
use vstd::string::*;

verus! {

/// Number of suits; the suit indices are `0..NUM_SUITS`.
pub const NUM_SUITS: u32 = 4;

/// Highest rank index; the rank indices are `1..=NUM_CARD_NUMBERS`.
pub const NUM_CARD_NUMBERS: u32 = 14;

/// Rank index of the lowest rank that is ever dealt.
pub const TWO: u32 = 2;

/// One of the four suits. Suits are not ordered; `index` only numbers them.
#[derive(Clone, Copy, Debug, PartialEq, Eq, Hash, Structural)]
pub enum Suit {
    Diamonds,
    Spades,
    Hearts,
    Clubs,
}

impl Suit {
    /// Position of the suit in the declaration order, `0..4`.
    pub open spec fn index(self) -> nat {
        match self {
            Suit::Diamonds => 0,
            Suit::Spades => 1,
            Suit::Hearts => 2,
            Suit::Clubs => 3,
        }
    }

    /// The English name of the suit.
    pub open spec fn name(self) -> Seq<char> {
        match self {
            Suit::Diamonds => "Diamonds"@,
            Suit::Spades => "Spades"@,
            Suit::Hearts => "Hearts"@,
            Suit::Clubs => "Clubs"@,
        }
    }

    /// The suit numbered `number`, or `None` when `number` names no suit.
    pub fn match_int_with_suit(number: u32) -> (suit: Option<Suit>)
        ensures
            suit.is_some() <==> number < NUM_SUITS,
            suit matches Some(s) ==> s.index() == number,
    {
        match number {
            0 => Some(Suit::Diamonds),
            1 => Some(Suit::Spades),
            2 => Some(Suit::Hearts),
            3 => Some(Suit::Clubs),
            _ => None,
        }
    }

    pub fn to_string(&self) -> (s: String)
        ensures
            s@ == self.name(),
    {
        match self {
            Suit::Diamonds => "Diamonds".to_string(),
            Suit::Spades => "Spades".to_string(),
            Suit::Hearts => "Hearts".to_string(),
            Suit::Clubs => "Clubs".to_string(),
        }
    }
}

/// A rank. `Two` to `Ace` are the ranks of the fifty-two cards. `BottomAce`
/// is the ace counted below the two: it stands for the low end of the straight
/// five-four-three-two-ace and is never the rank of a dealt card.
#[derive(Clone, Copy, Debug, PartialEq, Eq, Hash, Structural)]
pub enum CardNumber {
    BottomAce,
    Two,
    Three,
    Four,
    Five,
    Six,
    Seven,
    Eight,
    Nine,
    Ten,
    Jack,
    Queen,
    King,
    Ace,
}

impl CardNumber {
    /// The number by which ranks are compared: 2 to 14 for `Two` to `Ace`,
    /// and 1 for `BottomAce`.
    pub open spec fn value(self) -> nat {
        match self {
            CardNumber::BottomAce => 1,
            CardNumber::Two => 2,
            CardNumber::Three => 3,
            CardNumber::Four => 4,
            CardNumber::Five => 5,
            CardNumber::Six => 6,
            CardNumber::Seven => 7,
            CardNumber::Eight => 8,
            CardNumber::Nine => 9,
            CardNumber::Ten => 10,
            CardNumber::Jack => 11,
            CardNumber::Queen => 12,
            CardNumber::King => 13,
            CardNumber::Ace => 14,
        }
    }

    /// Whether this is one of the thirteen ranks that a card can have.
    pub open spec fn is_standard(self) -> bool {
        self != CardNumber::BottomAce
    }

    /// The English name of the rank. Both aces are called "Ace".
    pub open spec fn name(self) -> Seq<char> {
        match self {
            CardNumber::BottomAce => "Ace"@,
            CardNumber::Two => "Two"@,
            CardNumber::Three => "Three"@,
            CardNumber::Four => "Four"@,
            CardNumber::Five => "Five"@,
            CardNumber::Six => "Six"@,
            CardNumber::Seven => "Seven"@,
            CardNumber::Eight => "Eight"@,
            CardNumber::Nine => "Nine"@,
            CardNumber::Ten => "Ten"@,
            CardNumber::Jack => "Jack"@,
            CardNumber::Queen => "Queen"@,
            CardNumber::King => "King"@,
            CardNumber::Ace => "Ace"@,
        }
    }

    /// The rank as it is written in a shorthand label.
    pub open spec fn short_name(self) -> Seq<char> {
        match self {
            CardNumber::BottomAce => "A"@,
            CardNumber::Two => "2"@,
            CardNumber::Three => "3"@,
            CardNumber::Four => "4"@,
            CardNumber::Five => "5"@,
            CardNumber::Six => "6"@,
            CardNumber::Seven => "7"@,
            CardNumber::Eight => "8"@,
            CardNumber::Nine => "9"@,
            CardNumber::Ten => "10"@,
            CardNumber::Jack => "J"@,
            CardNumber::Queen => "Q"@,
            CardNumber::King => "K"@,
            CardNumber::Ace => "A"@,
        }
    }

    /// The rank whose value is `number`, or `None` when no rank has that value.
    pub fn match_int_with_card_num(number: u32) -> (rank: Option<CardNumber>)
        ensures
            rank.is_some() <==> 1 <= number <= NUM_CARD_NUMBERS,
            rank matches Some(r) ==> r.value() == number,
    {
        match number {
            1 => Some(CardNumber::BottomAce),
            2 => Some(CardNumber::Two),
            3 => Some(CardNumber::Three),
            4 => Some(CardNumber::Four),
            5 => Some(CardNumber::Five),
            6 => Some(CardNumber::Six),
            7 => Some(CardNumber::Seven),
            8 => Some(CardNumber::Eight),
            9 => Some(CardNumber::Nine),
            10 => Some(CardNumber::Ten),
            11 => Some(CardNumber::Jack),
            12 => Some(CardNumber::Queen),
            13 => Some(CardNumber::King),
            14 => Some(CardNumber::Ace),
            _ => None,
        }
    }

    pub fn get_value(&self) -> (value: u32)
        ensures
            value == self.value(),
    {
        match self {
            CardNumber::BottomAce => 1,
            CardNumber::Two => 2,
            CardNumber::Three => 3,
            CardNumber::Four => 4,
            CardNumber::Five => 5,
            CardNumber::Six => 6,
            CardNumber::Seven => 7,
            CardNumber::Eight => 8,
            CardNumber::Nine => 9,
            CardNumber::Ten => 10,
            CardNumber::Jack => 11,
            CardNumber::Queen => 12,
            CardNumber::King => 13,
            CardNumber::Ace => 14,
        }
    }

    pub fn to_string(&self) -> (s: String)
        ensures
            s@ == self.name(),
    {
        match self {
            CardNumber::BottomAce => "Ace".to_string(),
            CardNumber::Two => "Two".to_string(),
            CardNumber::Three => "Three".to_string(),
            CardNumber::Four => "Four".to_string(),
            CardNumber::Five => "Five".to_string(),
            CardNumber::Six => "Six".to_string(),
            CardNumber::Seven => "Seven".to_string(),
            CardNumber::Eight => "Eight".to_string(),
            CardNumber::Nine => "Nine".to_string(),
            CardNumber::Ten => "Ten".to_string(),
            CardNumber::Jack => "Jack".to_string(),
            CardNumber::Queen => "Queen".to_string(),
            CardNumber::King => "King".to_string(),
            CardNumber::Ace => "Ace".to_string(),
        }
    }

    pub fn to_short_string(&self) -> (s: String)
        ensures
            s@ == self.short_name(),
    {
        match self {
            CardNumber::BottomAce => "A".to_string(),
            CardNumber::Two => "2".to_string(),
            CardNumber::Three => "3".to_string(),
            CardNumber::Four => "4".to_string(),
            CardNumber::Five => "5".to_string(),
            CardNumber::Six => "6".to_string(),
            CardNumber::Seven => "7".to_string(),
            CardNumber::Eight => "8".to_string(),
            CardNumber::Nine => "9".to_string(),
            CardNumber::Ten => "10".to_string(),
            CardNumber::Jack => "J".to_string(),
            CardNumber::Queen => "Q".to_string(),
            CardNumber::King => "K".to_string(),
            CardNumber::Ace => "A".to_string(),
        }
    }
}

/// A playing card. Two cards are equal when suit and rank are equal.
#[derive(Clone, Copy, Debug, PartialEq, Eq, Hash, Structural)]
pub struct Card {
    pub suit: Suit,
    pub number: CardNumber,
}

/// The labels of `cards`, in order, with `" | "` between neighbours.
pub open spec fn joined_labels(cards: Seq<Card>) -> Seq<char>
    decreases cards.len(),
{
    if cards.len() == 0 {
        Seq::empty()
    } else if cards.len() == 1 {
        cards[0].label()
    } else {
        joined_labels(cards.drop_last()) + " | "@ + cards.last().label()
    }
}

/// The shorthand label of a two-card hand: the two ranks, and whether the two
/// suits agree. Which suits they are does not enter the label.
pub open spec fn short_label(first: Card, second: Card) -> Seq<char> {
    first.number.short_name() + " | "@ + second.number.short_name() + " "@ + (if first.suit
        == second.suit {
        "Suited"@
    } else {
        "Off Suit"@
    })
}

/// The label under which a player's hole cards are counted: all the cards
/// in full when `verbose`, else the shorthand of the first two.
pub open spec fn hole_label(cards: Seq<Card>, verbose: bool) -> Seq<char> {
    if verbose {
        joined_labels(cards)
    } else {
        short_label(cards[0], cards[1])
    }
}

impl Card {
    /// The value of the card's rank.
    pub open spec fn value(self) -> nat {
        self.number.value()
    }

    /// Whether the card is one of the fifty-two cards of the deck.
    pub open spec fn is_standard(self) -> bool {
        self.number.is_standard()
    }

    /// The full label, such as "Queen of Hearts".
    pub open spec fn label(self) -> Seq<char> {
        self.number.name() + " of "@ + self.suit.name()
    }

    /// The card with the given suit index and rank index, or `None` when
    /// either index is out of range. No index is mapped to a neighbouring
    /// suit or rank.
    pub fn from_indices(suit_index: u32, rank_index: u32) -> (card: Option<Card>)
        ensures
            card.is_some() <==> suit_index < NUM_SUITS && 1 <= rank_index <= NUM_CARD_NUMBERS,
            card matches Some(c) ==> c.suit.index() == suit_index && c.value() == rank_index,
    {
        match Suit::match_int_with_suit(suit_index) {
            Some(suit) => match CardNumber::match_int_with_card_num(rank_index) {
                Some(number) => Some(Card { suit, number }),
                None => None,
            },
            None => None,
        }
    }

    pub fn to_string(&self) -> (s: String)
        ensures
            s@ == self.label(),
    {
        let mut s = self.number.to_string();
        s.append(" of ");
        let suit = self.suit.to_string();
        s.append(suit.as_str());
        s
    }

    pub fn cards_to_string(cards: &Vec<Card>) -> (labels: Vec<String>)
        ensures
            labels.len() == cards.len(),
            forall|i: int| 0 <= i < cards.len() ==> (#[trigger] labels[i])@ == cards[i].label(),
    {
        let mut labels: Vec<String> = Vec::new();
        let mut i: usize = 0;
        while i < cards.len()
            invariant
                i <= cards.len(),
                labels.len() == i,
                forall|j: int| 0 <= j < i ==> (#[trigger] labels[j])@ == cards[j].label(),
            decreases cards.len() - i,
        {
            labels.push(cards[i].to_string());
            i += 1;
        }
        labels
    }

    pub fn cards_to_single_string(cards: &Vec<Card>) -> (s: String)
        ensures
            s@ == joined_labels(cards@),
    {
        let labels = Card::cards_to_string(cards);
        let mut s = String::new();
        let mut i: usize = 0;
        while i < labels.len()
            invariant
                i <= labels.len(),
                labels.len() == cards.len(),
                forall|j: int| 0 <= j < cards.len() ==> (#[trigger] labels[j])@ == cards[j].label(),
                s@ == joined_labels(cards@.take(i as int)),
            decreases labels.len() - i,
        {
            proof {
                assert(cards@.take(i + 1).drop_last() =~= cards@.take(i as int));
                assert(cards@.take(i + 1).last() == cards[i as int]);
            }
            if i > 0 {
                s.append(" | ");
            }
            s.append(labels[i].as_str());
            i += 1;
        }
        assert(cards@.take(cards.len() as int) =~= cards@);
        s
    }

    pub fn get_shorten_hand_string(cards: &Vec<Card>) -> (s: String)
        requires
            cards.len() >= 2,
        ensures
            s@ == short_label(cards[0], cards[1]),
    {
        let card_1 = &cards[0];
        let card_2 = &cards[1];
        let mut s = card_1.number.to_short_string();
        s.append(" | ");
        let second = card_2.number.to_short_string();
        s.append(second.as_str());
        s.append(" ");
        if card_1.suit == card_2.suit {
            s.append("Suited");
        } else {
            s.append("Off Suit");
        }
        s
    }

    /// The label of a player's hole cards: the full label of every card when
    /// `verbose`, else the shorthand of the two cards.
    pub fn get_hand_string(cards: &Vec<Card>, verbose: bool) -> (s: String)
        requires
            !verbose ==> cards.len() >= 2,
        ensures
            s@ == hole_label(cards@, verbose),
    {
        if verbose {
            Card::cards_to_single_string(cards)
        } else {
            Card::get_shorten_hand_string(cards)
        }
    }
}

} // verus!
