use holdem_sim::card::{Card, CardNumber};
use holdem_sim::dealer::{DealError, Dealer, NUM_CARDS_IN_DECK, NUM_HOLE_CARDS, NUM_COMMUNITY_CARDS};

fn assert_all_different(cards: &[Card]) {
    for (i, first) in cards.iter().enumerate() {
        for second in cards.iter().skip(i + 1) {
            assert_ne!(first, second);
        }
    }
}

fn all_cards(community: &[Card], hands: &[Vec<Card>]) -> Vec<Card> {
    let mut cards = community.to_vec();
    for hand in hands {
        cards.extend(hand.iter().copied());
    }
    cards
}

#[test]
fn deal_sizes_are_fixed() {
    assert_eq!(NUM_COMMUNITY_CARDS, 5);
    assert_eq!(NUM_HOLE_CARDS, 2);
    assert_eq!(NUM_CARDS_IN_DECK, 52);
}

#[test]
fn new_dealer_has_the_full_deck() {
    let dealer = Dealer::new();
    assert_eq!(dealer.cards_left(), 52);
}

#[test]
fn deck_is_taken_in_suit_then_rank_order() {
    let mut dealer = Dealer::new();
    assert_eq!(dealer.take_card(0), Card::from_indices(0, 2).unwrap());
    assert_eq!(dealer.take_card(0), Card::from_indices(0, 3).unwrap());
    assert_eq!(dealer.take_card(49), Card::from_indices(3, 14).unwrap());
    assert_eq!(dealer.take_card(11), Card::from_indices(1, 2).unwrap());
    assert_eq!(dealer.cards_left(), 48);
}

#[test]
fn taking_every_card_gives_the_fifty_two_cards() {
    let mut dealer = Dealer::new();
    let mut taken: Vec<Card> = Vec::new();
    while dealer.cards_left() > 0 {
        let last = dealer.cards_left() - 1;
        taken.push(dealer.take_card(last));
    }
    assert_eq!(taken.len(), 52);
    assert_all_different(&taken);
    for suit in 0..4u32 {
        for rank in 2..=14u32 {
            assert!(taken.contains(&Card::from_indices(suit, rank).unwrap()));
        }
    }
}

#[test]
fn draws_never_repeat_and_end_with_the_deck() {
    let mut dealer = Dealer::new();
    let mut drawn: Vec<Card> = Vec::new();
    for left in (1..=52usize).rev() {
        assert_eq!(dealer.cards_left(), left);
        drawn.push(dealer.generate_new_card().unwrap());
    }
    assert_all_different(&drawn);
    for card in drawn.iter() {
        assert_ne!(card.number, CardNumber::BottomAce);
    }
    assert_eq!(dealer.cards_left(), 0);
    assert_eq!(dealer.generate_new_card(), Err(DealError::DeckExhausted));
    assert_eq!(dealer.generate_new_card(), Err(DealError::DeckExhausted));
    assert_eq!(dealer.cards_left(), 0);
}

#[test]
fn draws_differ_from_deck_to_deck() {
    let mut first_cards: Vec<Card> = Vec::new();
    for _ in 0..40 {
        let mut dealer = Dealer::new();
        first_cards.push(dealer.generate_new_card().unwrap());
    }
    assert!(first_cards.iter().any(|card| *card != first_cards[0]));
}

#[test]
fn draws_reach_every_suit_and_every_rank() {
    let mut seen: Vec<Card> = Vec::new();
    for _ in 0..4000 {
        let mut dealer = Dealer::new();
        let card = dealer.generate_new_card().unwrap();
        if !seen.contains(&card) {
            seen.push(card);
        }
    }
    for suit in 0..4u32 {
        let of_suit = Card::from_indices(suit, 2).unwrap().suit;
        assert!(seen.iter().any(|card| card.suit == of_suit));
    }
    for rank in 2..=14u32 {
        assert!(seen.iter().any(|card| card.number.get_value() == rank));
    }
}

#[test]
fn deal_gives_five_community_cards_and_two_to_each_player() {
    for num_players in 0..=23u32 {
        let mut dealer = Dealer::new();
        let (community, hands) = dealer.deal(num_players).unwrap();
        assert_eq!(community.len(), 5);
        assert_eq!(hands.len(), num_players as usize);
        for hand in hands.iter() {
            assert_eq!(hand.len(), 2);
        }
        assert_eq!(dealer.cards_left(), 52 - 5 - 2 * num_players as usize);
    }
}

#[test]
fn dealt_cards_are_pairwise_distinct() {
    for round in 0..200u32 {
        let num_players = round % 24;
        let mut dealer = Dealer::new();
        let (community, hands) = dealer.deal(num_players).unwrap();
        let cards = all_cards(&community, &hands);
        assert_eq!(cards.len(), 5 + 2 * num_players as usize);
        assert_all_different(&cards);
    }
}

#[test]
fn dealt_cards_are_standard() {
    let mut dealer = Dealer::new();
    let (community, hands) = dealer.deal(23).unwrap();
    for card in all_cards(&community, &hands) {
        assert!(card.number.get_value() >= 2 && card.number.get_value() <= 14);
        assert_ne!(card.number, CardNumber::BottomAce);
    }
}

#[test]
fn hole_cards_come_with_the_higher_rank_first() {
    for _ in 0..100 {
        let mut dealer = Dealer::new();
        let (_, hands) = dealer.deal(23).unwrap();
        for hand in hands.iter() {
            assert!(hand[0].number.get_value() >= hand[1].number.get_value());
        }
    }
}

#[test]
fn deal_for_too_many_players_reports_the_exhausted_deck() {
    let mut dealer = Dealer::new();
    assert_eq!(dealer.deal(24), Err(DealError::DeckExhausted));
    assert_eq!(dealer.cards_left(), 52);
    assert_eq!(dealer.deal(u32::MAX), Err(DealError::DeckExhausted));
    assert_eq!(dealer.cards_left(), 52);
}

#[test]
fn second_deal_uses_what_the_first_left() {
    let mut dealer = Dealer::new();
    let (first_community, first_hands) = dealer.deal(8).unwrap();
    assert_eq!(dealer.cards_left(), 31);
    let (second_community, second_hands) = dealer.deal(8).unwrap();
    assert_eq!(dealer.cards_left(), 10);
    let mut cards = all_cards(&first_community, &first_hands);
    cards.extend(all_cards(&second_community, &second_hands));
    assert_eq!(cards.len(), 42);
    assert_all_different(&cards);
    assert_eq!(dealer.deal(3), Err(DealError::DeckExhausted));
    assert_eq!(dealer.cards_left(), 10);
    assert!(dealer.deal(2).is_ok());
    assert_eq!(dealer.cards_left(), 1);
}
