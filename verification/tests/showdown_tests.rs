use holdem_sim::card::Card;
use holdem_sim::hand::Hand;
use holdem_sim::hand_analyser::HandAnalyser;

const D: u32 = 0;
const S: u32 = 1;
const H: u32 = 2;
const C: u32 = 3;

fn card(rank: u32, suit: u32) -> Card {
    Card::from_indices(suit, rank).unwrap()
}

fn cards(list: &[(u32, u32)]) -> Vec<Card> {
    list.iter().map(|(rank, suit)| card(*rank, *suit)).collect()
}

fn winner_numbers(hands: Vec<Hand>) -> Vec<usize> {
    let entries: Vec<(usize, Hand)> = hands.into_iter().enumerate().collect();
    HandAnalyser::resolve_showdown(&entries).iter().map(|(player, _)| *player).collect()
}

#[test]
fn showdown_without_players_has_no_winner() {
    assert_eq!(winner_numbers(Vec::new()), Vec::<usize>::new());
}

#[test]
fn single_player_wins() {
    let hands = vec![Hand::HighCard(cards(&[(9, D), (7, S), (5, H), (3, C), (2, D)]))];
    assert_eq!(winner_numbers(hands), vec![0]);
}

#[test]
fn winner_keeps_number_and_hand() {
    let entries = vec![
        (4usize, Hand::Pair(cards(&[(9, D), (9, S), (5, H), (3, C), (2, D)]))),
        (9usize, Hand::Trips(cards(&[(4, D), (4, S), (4, H), (13, C), (2, S)]))),
        (2usize, Hand::HighCard(cards(&[(14, D), (12, S), (6, H), (3, D), (2, C)]))),
    ];
    let winning = HandAnalyser::resolve_showdown(&entries);
    assert_eq!(winning.len(), 1);
    assert_eq!(winning[0].0, 9);
    assert!(matches!(winning[0].1, Hand::Trips(_)));
    assert_eq!(winning[0].1.get_cards(), cards(&[(4, D), (4, S), (4, H), (13, C), (2, S)]));
}

#[test]
fn stronger_category_wins_whatever_the_kickers() {
    let hands = vec![
        Hand::HighCard(cards(&[(14, D), (13, S), (12, H), (11, C), (9, D)])),
        Hand::Pair(cards(&[(2, D), (2, S), (5, H), (4, C), (3, D)])),
        Hand::HighCard(cards(&[(14, S), (13, D), (12, C), (11, H), (9, S)])),
    ];
    assert_eq!(winner_numbers(hands), vec![1]);
}

#[test]
fn every_category_beats_the_one_below() {
    let five = cards(&[(2, D), (2, S), (5, H), (4, C), (3, D)]);
    let strong = cards(&[(14, D), (14, S), (14, H), (14, C), (13, D)]);
    for value in 2..=10u32 {
        let hands = vec![Hand::from_value(value - 1, strong.clone()), Hand::from_value(value, five.clone())];
        assert_eq!(winner_numbers(hands), vec![1]);
        let turned = vec![Hand::from_value(value, five.clone()), Hand::from_value(value - 1, strong.clone())];
        assert_eq!(winner_numbers(turned), vec![0]);
    }
}

#[test]
fn full_house_is_decided_by_the_triple_before_the_pair() {
    let hands = vec![
        Hand::FullHouse(cards(&[(13, D), (13, S), (13, H), (4, C), (4, D)])),
        Hand::FullHouse(cards(&[(12, D), (12, S), (12, H), (14, C), (14, D)])),
    ];
    assert_eq!(winner_numbers(hands), vec![0]);
}

#[test]
fn full_house_with_equal_triples_is_decided_by_the_pair() {
    let hands = vec![
        Hand::FullHouse(cards(&[(13, D), (13, S), (13, H), (4, C), (4, D)])),
        Hand::FullHouse(cards(&[(13, D), (13, S), (13, H), (9, C), (9, D)])),
    ];
    assert_eq!(winner_numbers(hands), vec![1]);
}

#[test]
fn flush_is_decided_by_the_fifth_card() {
    let hands = vec![
        Hand::Flush(cards(&[(14, H), (11, H), (9, H), (6, H), (3, H)])),
        Hand::Flush(cards(&[(14, C), (11, C), (9, C), (6, C), (4, C)])),
    ];
    assert_eq!(winner_numbers(hands), vec![1]);
}

#[test]
fn flushes_of_equal_ranks_in_two_suits_win_together() {
    let hands = vec![
        Hand::Flush(cards(&[(14, H), (11, H), (9, H), (6, H), (3, H)])),
        Hand::Flush(cards(&[(14, C), (11, C), (9, C), (6, C), (3, C)])),
    ];
    assert_eq!(winner_numbers(hands), vec![0, 1]);
}

#[test]
fn flush_is_decided_by_the_first_card_that_differs() {
    let hands = vec![
        Hand::Flush(cards(&[(14, H), (11, H), (9, H), (6, H), (3, H)])),
        Hand::Flush(cards(&[(14, C), (10, C), (9, C), (8, C), (7, C)])),
    ];
    assert_eq!(winner_numbers(hands), vec![0]);
}

#[test]
fn straights_are_decided_by_the_high_card_alone() {
    let hands = vec![
        Hand::Straight(cards(&[(9, D), (8, S), (7, H), (6, C), (5, D)])),
        Hand::Straight(cards(&[(10, D), (9, S), (8, H), (7, C), (6, D)])),
        Hand::Straight(cards(&[(10, H), (9, C), (8, D), (7, S), (6, H)])),
    ];
    assert_eq!(winner_numbers(hands), vec![1, 2]);
}

#[test]
fn wheel_loses_to_the_six_high_straight() {
    let hands = vec![
        Hand::Straight(cards(&[(5, D), (4, S), (3, H), (2, C), (14, D)])),
        Hand::Straight(cards(&[(6, D), (5, S), (4, H), (3, C), (2, D)])),
    ];
    assert_eq!(winner_numbers(hands), vec![1]);
}

#[test]
fn straight_flushes_are_decided_by_the_high_card() {
    let hands = vec![
        Hand::StraightFlush(cards(&[(9, D), (8, D), (7, D), (6, D), (5, D)])),
        Hand::StraightFlush(cards(&[(8, S), (7, S), (6, S), (5, S), (4, S)])),
    ];
    assert_eq!(winner_numbers(hands), vec![0]);
}

#[test]
fn royal_flushes_win_together() {
    let hands = vec![
        Hand::RoyalFlush(cards(&[(14, D), (13, D), (12, D), (11, D), (10, D)])),
        Hand::RoyalFlush(cards(&[(14, S), (13, S), (12, S), (11, S), (10, S)])),
    ];
    assert_eq!(winner_numbers(hands), vec![0, 1]);
}

#[test]
fn quads_are_decided_by_the_four_then_the_kicker() {
    let by_rank = vec![
        Hand::Quads(cards(&[(9, D), (9, S), (9, H), (9, C), (14, D)])),
        Hand::Quads(cards(&[(10, D), (10, S), (10, H), (10, C), (2, D)])),
    ];
    assert_eq!(winner_numbers(by_rank), vec![1]);
    let by_kicker = vec![
        Hand::Quads(cards(&[(9, D), (9, S), (9, H), (9, C), (14, D)])),
        Hand::Quads(cards(&[(9, D), (9, S), (9, H), (9, C), (13, D)])),
    ];
    assert_eq!(winner_numbers(by_kicker), vec![0]);
}

#[test]
fn trips_are_decided_by_the_triple_then_both_kickers() {
    let by_rank = vec![
        Hand::Trips(cards(&[(9, D), (9, S), (9, H), (14, C), (13, D)])),
        Hand::Trips(cards(&[(10, D), (10, S), (10, H), (3, C), (2, D)])),
    ];
    assert_eq!(winner_numbers(by_rank), vec![1]);
    let by_first_kicker = vec![
        Hand::Trips(cards(&[(9, D), (9, S), (9, H), (14, C), (2, D)])),
        Hand::Trips(cards(&[(9, D), (9, S), (9, H), (13, C), (12, D)])),
    ];
    assert_eq!(winner_numbers(by_first_kicker), vec![0]);
    let by_second_kicker = vec![
        Hand::Trips(cards(&[(9, D), (9, S), (9, H), (14, C), (2, D)])),
        Hand::Trips(cards(&[(9, D), (9, S), (9, H), (14, S), (3, D)])),
    ];
    assert_eq!(winner_numbers(by_second_kicker), vec![1]);
}

#[test]
fn two_pair_is_decided_by_high_pair_low_pair_kicker() {
    let by_high_pair = vec![
        Hand::TwoPair(cards(&[(12, D), (12, S), (3, H), (3, C), (2, D)])),
        Hand::TwoPair(cards(&[(11, D), (11, S), (10, H), (10, C), (14, D)])),
    ];
    assert_eq!(winner_numbers(by_high_pair), vec![0]);
    let by_low_pair = vec![
        Hand::TwoPair(cards(&[(12, D), (12, S), (3, H), (3, C), (14, D)])),
        Hand::TwoPair(cards(&[(12, H), (12, C), (4, H), (4, C), (2, D)])),
    ];
    assert_eq!(winner_numbers(by_low_pair), vec![1]);
    let by_kicker = vec![
        Hand::TwoPair(cards(&[(12, D), (12, S), (3, H), (3, C), (14, D)])),
        Hand::TwoPair(cards(&[(12, H), (12, C), (3, D), (3, S), (13, D)])),
    ];
    assert_eq!(winner_numbers(by_kicker), vec![0]);
}

#[test]
fn pair_is_decided_by_the_pair_then_three_kickers() {
    let by_pair = vec![
        Hand::Pair(cards(&[(12, D), (12, S), (4, H), (3, C), (2, D)])),
        Hand::Pair(cards(&[(11, D), (11, S), (14, H), (13, C), (10, D)])),
    ];
    assert_eq!(winner_numbers(by_pair), vec![0]);
    let by_third_kicker = vec![
        Hand::Pair(cards(&[(12, D), (12, S), (14, H), (9, C), (3, D)])),
        Hand::Pair(cards(&[(12, H), (12, C), (14, D), (9, D), (4, D)])),
    ];
    assert_eq!(winner_numbers(by_third_kicker), vec![1]);
}

#[test]
fn pair_does_not_look_at_the_second_card_of_the_pair() {
    // position 1 is not compared: only the rank at position 0 stands for the pair
    let hands = vec![
        Hand::Pair(cards(&[(12, D), (2, S), (14, H), (9, C), (3, D)])),
        Hand::Pair(cards(&[(12, H), (12, C), (14, D), (9, D), (3, S)])),
    ];
    assert_eq!(winner_numbers(hands), vec![0, 1]);
}

#[test]
fn high_card_is_decided_card_by_card() {
    let hands = vec![
        Hand::HighCard(cards(&[(14, D), (12, S), (9, H), (6, C), (3, D)])),
        Hand::HighCard(cards(&[(14, S), (12, D), (9, C), (6, H), (4, D)])),
        Hand::HighCard(cards(&[(14, H), (12, C), (9, D), (5, H), (4, S)])),
    ];
    assert_eq!(winner_numbers(hands), vec![1]);
}

#[test]
fn three_way_tie_is_a_split_between_all() {
    let hands = vec![
        Hand::HighCard(cards(&[(14, D), (12, S), (9, H), (6, C), (3, D)])),
        Hand::Pair(cards(&[(2, D), (2, S), (9, H), (6, C), (3, D)])),
        Hand::Pair(cards(&[(2, H), (2, C), (9, S), (6, D), (3, S)])),
        Hand::Pair(cards(&[(2, D), (2, S), (9, D), (6, S), (3, H)])),
    ];
    assert_eq!(winner_numbers(hands), vec![1, 2, 3]);
}

#[test]
fn later_round_eliminates_among_those_left() {
    // player 2 has the best last kicker but is out after the first kicker
    let hands = vec![
        Hand::Pair(cards(&[(8, D), (8, S), (14, H), (9, C), (3, D)])),
        Hand::Pair(cards(&[(8, H), (8, C), (14, D), (9, D), (4, D)])),
        Hand::Pair(cards(&[(8, D), (8, S), (13, H), (12, C), (11, D)])),
    ];
    assert_eq!(winner_numbers(hands), vec![1]);
}

fn analyser(community: &[(u32, u32)], holes: &[[(u32, u32); 2]]) -> HandAnalyser {
    HandAnalyser::new(cards(community), holes.iter().map(|pair| cards(pair)).collect())
}

#[test]
fn winning_hands_carry_the_shorthand_of_the_hole_cards() {
    let deal = analyser(
        &[(2, D), (7, S), (9, H), (11, C), (13, D)],
        &[[(14, S), (14, H)], [(13, S), (12, S)], [(4, C), (3, C)]],
    );
    let winning = deal.get_winning_hands(false);
    assert_eq!(winning.len(), 1);
    assert_eq!(winning[0].0, "A | A Off Suit");
    assert!(matches!(winning[0].1, Hand::Pair(_)));
    assert_eq!(winning[0].1.get_cards(), cards(&[(14, S), (14, H), (13, D), (11, C), (9, H)]));
}

#[test]
fn winning_hands_carry_the_full_label_when_verbose() {
    let deal = analyser(
        &[(2, D), (7, S), (9, H), (11, C), (13, D)],
        &[[(14, S), (14, H)], [(13, S), (12, S)], [(4, C), (3, C)]],
    );
    let winning = deal.get_winning_hands(true);
    assert_eq!(winning.len(), 1);
    assert_eq!(winning[0].0, "Ace of Spades | Ace of Hearts");
}

#[test]
fn board_that_plays_for_everyone_splits_between_all() {
    let deal = analyser(
        &[(14, D), (13, D), (12, D), (11, D), (10, D)],
        &[[(2, S), (3, H)], [(9, S), (9, H)], [(5, C), (4, C)]],
    );
    let winning = deal.get_winning_hands(false);
    assert_eq!(winning.len(), 3);
    assert_eq!(winning[0].0, "2 | 3 Off Suit");
    assert_eq!(winning[1].0, "9 | 9 Off Suit");
    assert_eq!(winning[2].0, "5 | 4 Suited");
    for (_, hand) in winning.iter() {
        assert!(matches!(hand, Hand::RoyalFlush(_)));
    }
}

#[test]
fn better_kicker_in_the_hole_wins() {
    let deal = analyser(
        &[(14, D), (14, S), (9, H), (6, C), (2, D)],
        &[[(13, S), (4, H)], [(12, S), (11, S)], [(13, C), (10, C)]],
    );
    let winning = deal.get_winning_hands(false);
    assert_eq!(winning.len(), 1);
    assert_eq!(winning[0].0, "K | 10 Suited");
    assert_eq!(winning[0].1.get_cards(), cards(&[(14, D), (14, S), (13, C), (10, C), (9, H)]));
}

#[test]
fn hole_cards_that_do_not_play_leave_a_split() {
    let deal = analyser(
        &[(14, D), (14, S), (9, H), (6, C), (2, D)],
        &[[(13, S), (4, H)], [(12, S), (11, S)], [(13, C), (5, C)]],
    );
    let winning = deal.get_winning_hands(false);
    assert_eq!(winning.len(), 2);
    assert_eq!(winning[0].0, "K | 4 Off Suit");
    assert_eq!(winning[1].0, "K | 5 Suited");
    assert_eq!(winning[0].1.get_cards(), cards(&[(14, D), (14, S), (13, S), (9, H), (6, C)]));
    assert_eq!(winning[1].1.get_cards(), cards(&[(14, D), (14, S), (13, C), (9, H), (6, C)]));
}

#[test]
fn pool_is_read_from_high_to_low_whatever_the_order_given() {
    let deal = analyser(&[(2, D), (13, D), (7, S), (11, C), (9, H)], &[[(3, H), (14, S)]]);
    let winning = deal.get_winning_hands(false);
    assert_eq!(winning.len(), 1);
    assert_eq!(winning[0].0, "3 | A Off Suit");
    assert!(matches!(winning[0].1, Hand::HighCard(_)));
    assert_eq!(winning[0].1.get_cards(), cards(&[(14, S), (13, D), (11, C), (9, H), (7, S)]));
}

#[test]
fn analyser_without_players_has_no_winner() {
    let deal = analyser(&[(2, D), (13, D), (7, S), (11, C), (9, H)], &[]);
    assert!(deal.get_winning_hands(false).is_empty());
}
