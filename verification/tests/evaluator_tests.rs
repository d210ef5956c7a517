use holdem_sim::card::{Card, CardNumber, Suit};
use holdem_sim::hand::Hand;
use holdem_sim::hand_analyser::HandAnalyser;
use holdem_sim::sorting::sort_cards;

const D: u32 = 0;
const S: u32 = 1;
const H: u32 = 2;
const C: u32 = 3;

fn card(rank: u32, suit: u32) -> Card {
    Card::from_indices(suit, rank).unwrap()
}

fn cards(list: &[(u32, u32)]) -> Vec<Card> {
    list.iter().map(|(rank, suit)| card(*rank, *suit)).collect()
}

fn best(list: &[(u32, u32)]) -> Hand {
    HandAnalyser::evaluate_best_hand(&cards(list))
}

#[test]
fn sort_is_by_descending_rank() {
    let sorted = sort_cards(&cards(&[(5, D), (14, S), (2, H), (9, C), (13, D)]));
    assert_eq!(sorted, cards(&[(14, S), (13, D), (9, C), (5, D), (2, H)]));
}

#[test]
fn sort_keeps_the_order_of_equal_ranks() {
    let sorted = sort_cards(&cards(&[(9, H), (4, D), (9, C), (4, S), (9, D), (12, S), (4, H)]));
    assert_eq!(sorted, cards(&[(12, S), (9, H), (9, C), (9, D), (4, D), (4, S), (4, H)]));
}

#[test]
fn sort_of_nothing_is_nothing() {
    assert_eq!(sort_cards(&Vec::new()), Vec::<Card>::new());
}

#[test]
fn groups_by_suit_follow_the_suit_indices() {
    let pool = cards(&[(14, S), (13, D), (9, S), (5, D), (2, H)]);
    let groups = HandAnalyser::group_cards_by_suit(&pool);
    assert_eq!(groups.len(), 4);
    assert_eq!(groups[0], cards(&[(13, D), (5, D)]));
    assert_eq!(groups[1], cards(&[(14, S), (9, S)]));
    assert_eq!(groups[2], cards(&[(2, H)]));
    assert_eq!(groups[3], Vec::<Card>::new());
}

#[test]
fn groups_by_number_follow_the_rank_values() {
    let pool = cards(&[(14, S), (9, D), (9, S), (5, D), (2, H)]);
    let groups = HandAnalyser::group_cards_by_number(&pool);
    assert_eq!(groups.len(), 15);
    assert_eq!(groups[14], cards(&[(14, S)]));
    assert_eq!(groups[9], cards(&[(9, D), (9, S)]));
    assert_eq!(groups[5], cards(&[(5, D)]));
    assert_eq!(groups[2], cards(&[(2, H)]));
    for v in [0usize, 1, 3, 4, 6, 7, 8, 10, 11, 12, 13] {
        assert!(groups[v].is_empty());
    }
}

#[test]
fn royal_flush_is_found() {
    let hand = best(&[(10, S), (14, S), (2, D), (13, S), (12, S), (7, H), (11, S)]);
    assert!(matches!(hand, Hand::RoyalFlush(_)));
    assert_eq!(hand.get_value(), 10);
    assert_eq!(hand.get_cards(), cards(&[(14, S), (13, S), (12, S), (11, S), (10, S)]));
}

#[test]
fn straight_flush_is_found() {
    let hand = best(&[(9, H), (8, H), (7, H), (6, H), (5, H), (14, D), (14, C)]);
    assert!(matches!(hand, Hand::StraightFlush(_)));
    assert_eq!(hand.get_value(), 9);
    assert_eq!(hand.get_cards(), cards(&[(9, H), (8, H), (7, H), (6, H), (5, H)]));
}

#[test]
fn straight_flush_takes_the_highest_run_of_the_suit() {
    let hand = best(&[(9, H), (8, H), (7, H), (6, H), (5, H), (4, H), (3, H)]);
    assert!(matches!(hand, Hand::StraightFlush(_)));
    assert_eq!(hand.get_cards(), cards(&[(9, H), (8, H), (7, H), (6, H), (5, H)]));
}

#[test]
fn five_high_straight_flush_is_no_royal_flush() {
    let hand = best(&[(14, C), (2, C), (3, C), (4, C), (5, C), (13, D), (13, H)]);
    assert!(matches!(hand, Hand::StraightFlush(_)));
    assert_eq!(hand.get_cards(), cards(&[(5, C), (4, C), (3, C), (2, C), (14, C)]));
}

#[test]
fn straight_and_flush_apart_make_no_straight_flush() {
    // hearts make a flush, the run nine to five needs the nine of spades
    let hand = best(&[(9, S), (8, H), (7, H), (6, H), (5, H), (2, H), (13, D)]);
    assert!(matches!(hand, Hand::Flush(_)));
    assert_eq!(hand.get_cards(), cards(&[(8, H), (7, H), (6, H), (5, H), (2, H)]));
}

#[test]
fn quads_take_the_highest_other_card_as_kicker() {
    let hand = best(&[(7, D), (7, S), (13, H), (7, H), (7, C), (2, D), (13, C)]);
    assert!(matches!(hand, Hand::Quads(_)));
    assert_eq!(hand.get_value(), 8);
    assert_eq!(hand.get_cards(), cards(&[(7, D), (7, S), (7, H), (7, C), (13, H)]));
}

#[test]
fn quads_with_a_lower_kicker() {
    let hand = best(&[(12, D), (12, S), (12, H), (12, C), (3, D)]);
    assert!(matches!(hand, Hand::Quads(_)));
    assert_eq!(hand.get_cards(), cards(&[(12, D), (12, S), (12, H), (12, C), (3, D)]));
}

#[test]
fn quads_beat_a_full_house_in_the_same_pool() {
    let hand = best(&[(4, D), (4, S), (4, H), (4, C), (9, D), (9, S), (9, H)]);
    assert!(matches!(hand, Hand::Quads(_)));
    assert_eq!(hand.get_cards(), cards(&[(4, D), (4, S), (4, H), (4, C), (9, D)]));
}

#[test]
fn full_house_is_triple_then_pair() {
    let hand = best(&[(4, D), (13, S), (4, H), (13, C), (13, D), (2, S), (8, H)]);
    assert!(matches!(hand, Hand::FullHouse(_)));
    assert_eq!(hand.get_value(), 7);
    assert_eq!(hand.get_cards(), cards(&[(13, S), (13, C), (13, D), (4, D), (4, H)]));
}

#[test]
fn full_house_takes_the_higher_of_two_pairs() {
    let hand = best(&[(5, D), (5, S), (5, H), (9, C), (9, D), (12, S), (12, H)]);
    assert!(matches!(hand, Hand::FullHouse(_)));
    assert_eq!(hand.get_cards(), cards(&[(5, D), (5, S), (5, H), (12, S), (12, H)]));
}

#[test]
fn full_house_with_the_pair_of_twos() {
    let hand = best(&[(2, D), (2, S), (11, H), (11, C), (11, D), (7, S), (8, H)]);
    assert!(matches!(hand, Hand::FullHouse(_)));
    assert_eq!(hand.get_cards(), cards(&[(11, H), (11, C), (11, D), (2, D), (2, S)]));
}

#[test]
fn full_house_with_the_triple_of_twos() {
    let hand = best(&[(2, D), (2, S), (2, H), (11, C), (11, D), (7, S), (8, H)]);
    assert!(matches!(hand, Hand::FullHouse(_)));
    assert_eq!(hand.get_cards(), cards(&[(2, D), (2, S), (2, H), (11, C), (11, D)]));
}

#[test]
fn two_groups_of_three_are_ranked_as_three_of_a_kind() {
    let hand = best(&[(14, D), (14, S), (14, H), (13, C), (13, D), (13, S), (2, H)]);
    assert!(matches!(hand, Hand::Trips(_)));
    assert_eq!(hand.get_value(), 4);
    assert_eq!(hand.get_cards(), cards(&[(14, D), (14, S), (14, H), (13, C), (13, D)]));
}

#[test]
fn flush_of_five_suited_cards() {
    let hand = best(&[(2, C), (9, C), (13, C), (4, C), (11, C), (14, D), (14, S)]);
    assert!(matches!(hand, Hand::Flush(_)));
    assert_eq!(hand.get_value(), 6);
    assert_eq!(hand.get_cards(), cards(&[(13, C), (11, C), (9, C), (4, C), (2, C)]));
}

#[test]
fn flush_of_six_suited_cards_takes_the_five_highest() {
    let hand = best(&[(2, C), (9, C), (13, C), (4, C), (11, C), (6, C), (14, S)]);
    assert!(matches!(hand, Hand::Flush(_)));
    assert_eq!(hand.get_cards(), cards(&[(13, C), (11, C), (9, C), (6, C), (4, C)]));
}

#[test]
fn flush_of_seven_suited_cards_takes_the_five_highest() {
    let hand = best(&[(2, D), (9, D), (13, D), (4, D), (11, D), (6, D), (14, D)]);
    assert!(matches!(hand, Hand::Flush(_)));
    assert_eq!(hand.get_cards(), cards(&[(14, D), (13, D), (11, D), (9, D), (6, D)]));
}

#[test]
fn straight_is_found() {
    let hand = best(&[(9, H), (8, D), (7, S), (6, H), (5, C), (14, D), (2, C)]);
    assert!(matches!(hand, Hand::Straight(_)));
    assert_eq!(hand.get_value(), 5);
    assert_eq!(hand.get_cards(), cards(&[(9, H), (8, D), (7, S), (6, H), (5, C)]));
}

#[test]
fn straight_takes_the_highest_run() {
    let hand = best(&[(9, H), (8, D), (7, S), (6, H), (5, C), (4, D), (3, C)]);
    assert!(matches!(hand, Hand::Straight(_)));
    assert_eq!(hand.get_cards(), cards(&[(9, H), (8, D), (7, S), (6, H), (5, C)]));
}

#[test]
fn straight_takes_the_first_card_of_a_rank_held_twice() {
    let hand = best(&[(10, H), (9, D), (9, S), (8, H), (7, C), (6, D), (6, C)]);
    assert!(matches!(hand, Hand::Straight(_)));
    assert_eq!(hand.get_cards(), cards(&[(10, H), (9, D), (8, H), (7, C), (6, D)]));
}

#[test]
fn ace_high_straight() {
    let hand = best(&[(14, H), (13, D), (12, S), (11, H), (10, C), (2, D), (3, C)]);
    assert!(matches!(hand, Hand::Straight(_)));
    assert_eq!(hand.get_cards(), cards(&[(14, H), (13, D), (12, S), (11, H), (10, C)]));
}

#[test]
fn wheel_is_a_straight_with_high_card_five() {
    let hand = best(&[(14, D), (2, S), (3, H), (4, C), (5, D), (9, S), (12, H)]);
    assert!(matches!(hand, Hand::Straight(_)));
    let hand_cards = hand.get_cards();
    assert_eq!(hand_cards, cards(&[(5, D), (4, C), (3, H), (2, S), (14, D)]));
    assert_eq!(hand_cards[0].number, CardNumber::Five);
    assert_eq!(hand_cards[0].number.to_string(), "Five");
    assert_eq!(hand_cards[4].number, CardNumber::Ace);
    assert_eq!(hand_cards[4].number.get_value(), 14);
    for shown in hand_cards.iter() {
        assert_ne!(shown.number, CardNumber::BottomAce);
    }
}

#[test]
fn six_high_straight_is_preferred_to_the_wheel() {
    let hand = best(&[(14, D), (2, S), (3, H), (4, C), (5, D), (6, S), (12, H)]);
    assert!(matches!(hand, Hand::Straight(_)));
    assert_eq!(hand.get_cards(), cards(&[(6, S), (5, D), (4, C), (3, H), (2, S)]));
}

#[test]
fn king_to_ace_to_two_is_no_straight() {
    let hand = best(&[(13, D), (14, S), (2, H), (3, C), (4, D), (9, S), (11, H)]);
    assert!(matches!(hand, Hand::HighCard(_)));
}

#[test]
fn trips_take_the_two_highest_other_cards() {
    let hand = best(&[(8, D), (14, S), (8, H), (3, C), (8, S), (12, D), (5, H)]);
    assert!(matches!(hand, Hand::Trips(_)));
    assert_eq!(hand.get_value(), 4);
    assert_eq!(hand.get_cards(), cards(&[(8, D), (8, H), (8, S), (14, S), (12, D)]));
}

#[test]
fn two_pair_is_high_pair_low_pair_kicker() {
    let hand = best(&[(8, D), (14, S), (8, H), (3, C), (3, S), (12, D), (5, H)]);
    assert!(matches!(hand, Hand::TwoPair(_)));
    assert_eq!(hand.get_value(), 3);
    assert_eq!(hand.get_cards(), cards(&[(8, D), (8, H), (3, C), (3, S), (14, S)]));
}

#[test]
fn three_pairs_give_the_two_highest_and_the_best_kicker() {
    let hand = best(&[(8, D), (8, H), (3, C), (3, S), (12, D), (12, H), (5, H)]);
    assert!(matches!(hand, Hand::TwoPair(_)));
    assert_eq!(hand.get_cards(), cards(&[(12, D), (12, H), (8, D), (8, H), (5, H)]));
}

#[test]
fn three_pairs_may_take_the_kicker_from_the_third_pair() {
    let hand = best(&[(8, D), (8, H), (6, C), (6, S), (12, D), (12, H), (5, H)]);
    assert!(matches!(hand, Hand::TwoPair(_)));
    assert_eq!(hand.get_cards(), cards(&[(12, D), (12, H), (8, D), (8, H), (6, C)]));
}

#[test]
fn pair_takes_the_three_highest_other_cards() {
    let hand = best(&[(8, D), (14, S), (8, H), (3, C), (2, S), (12, D), (5, H)]);
    assert!(matches!(hand, Hand::Pair(_)));
    assert_eq!(hand.get_value(), 2);
    assert_eq!(hand.get_cards(), cards(&[(8, D), (8, H), (14, S), (12, D), (5, H)]));
}

#[test]
fn pair_of_twos_is_found() {
    let hand = best(&[(2, D), (14, S), (2, H), (3, C), (9, S), (12, D), (5, H)]);
    assert!(matches!(hand, Hand::Pair(_)));
    assert_eq!(hand.get_cards(), cards(&[(2, D), (2, H), (14, S), (12, D), (9, S)]));
}

#[test]
fn high_card_is_the_five_highest() {
    let hand = best(&[(8, D), (14, S), (7, H), (3, C), (2, S), (12, D), (5, H)]);
    assert!(matches!(hand, Hand::HighCard(_)));
    assert_eq!(hand.get_value(), 1);
    assert_eq!(hand.get_cards(), cards(&[(14, S), (12, D), (8, D), (7, H), (5, H)]));
}

#[test]
fn pool_of_five_cards_is_evaluated() {
    let hand = best(&[(8, D), (14, S), (8, H), (3, C), (2, S)]);
    assert!(matches!(hand, Hand::Pair(_)));
    assert_eq!(hand.get_cards(), cards(&[(8, D), (8, H), (14, S), (3, C), (2, S)]));
}

#[test]
fn pool_of_six_cards_is_evaluated() {
    let hand = best(&[(8, D), (14, S), (8, H), (3, C), (2, S), (14, D)]);
    assert!(matches!(hand, Hand::TwoPair(_)));
    assert_eq!(hand.get_cards(), cards(&[(14, S), (14, D), (8, D), (8, H), (3, C)]));
}

#[test]
fn get_best_hand_reads_a_sorted_pool() {
    let pool = cards(&[(14, S), (12, D), (8, D), (8, H), (5, H), (3, C), (2, S)]);
    let hand = HandAnalyser::get_best_hand(&pool);
    assert!(matches!(hand, Hand::Pair(_)));
    assert_eq!(hand.get_cards(), cards(&[(8, D), (8, H), (14, S), (12, D), (5, H)]));
}

#[test]
fn contains_straight_finds_the_run_or_nothing() {
    let with_run = cards(&[(11, S), (10, D), (9, D), (8, H), (7, H), (3, C), (2, S)]);
    assert_eq!(
        HandAnalyser::contains_straight(&with_run),
        Some(cards(&[(11, S), (10, D), (9, D), (8, H), (7, H)]))
    );
    let without = cards(&[(11, S), (10, D), (9, D), (8, H), (6, H), (3, C), (2, S)]);
    assert_eq!(HandAnalyser::contains_straight(&without), None);
    let short = cards(&[(14, S), (4, D), (3, D), (2, H)]);
    assert_eq!(HandAnalyser::contains_straight(&short), None);
    assert_eq!(HandAnalyser::contains_straight(&Vec::new()), None);
}

fn category_of_five(five: &[Card]) -> u32 {
    let mut values: Vec<u32> = five.iter().map(|c| c.number.get_value()).collect();
    values.sort();
    let suited = five.iter().all(|c| c.suit == five[0].suit);
    let distinct = values.windows(2).all(|w| w[0] != w[1]);
    let run = distinct && (values[4] - values[0] == 4 || values == vec![2, 3, 4, 5, 14]);
    let mut counts: Vec<usize> = Vec::new();
    for v in 2..=14u32 {
        let n = values.iter().filter(|x| **x == v).count();
        if n > 0 {
            counts.push(n);
        }
    }
    counts.sort();
    if suited && run && values[0] == 10 {
        10
    } else if suited && run {
        9
    } else if counts == vec![1, 4] {
        8
    } else if counts == vec![2, 3] {
        7
    } else if suited {
        6
    } else if run {
        5
    } else if counts == vec![1, 1, 3] {
        4
    } else if counts == vec![1, 2, 2] {
        3
    } else if counts == vec![1, 1, 1, 2] {
        2
    } else {
        1
    }
}

fn strongest_category_of_any_five(pool: &[Card]) -> u32 {
    let n = pool.len();
    let mut strongest = 0;
    for a in 0..n {
        for b in a + 1..n {
            for c in b + 1..n {
                for d in c + 1..n {
                    for e in d + 1..n {
                        let five = [pool[a], pool[b], pool[c], pool[d], pool[e]];
                        let category = category_of_five(&five);
                        if category > strongest {
                            strongest = category;
                        }
                    }
                }
            }
        }
    }
    strongest
}

fn has_two_groups_of_three(pool: &[Card]) -> bool {
    let mut groups = 0;
    for v in 2..=14u32 {
        if pool.iter().filter(|c| c.number.get_value() == v).count() == 3 {
            groups += 1;
        }
    }
    groups >= 2
}

fn next_random(state: &mut u64) -> u64 {
    *state = state.wrapping_mul(6364136223846793005).wrapping_add(1442695040888963407);
    *state >> 33
}

fn random_pool(state: &mut u64, size: usize, ranks: u64, suits: u64) -> Vec<Card> {
    let mut pool: Vec<Card> = Vec::new();
    while pool.len() < size {
        let rank = 2 + (next_random(state) % ranks) as u32;
        let suit = (next_random(state) % suits) as u32;
        let drawn = card(rank, suit);
        if !pool.contains(&drawn) {
            pool.push(drawn);
        }
    }
    pool
}

fn check_against_all_subsets(pool: &[Card]) {
    let hand = HandAnalyser::evaluate_best_hand(&pool.to_vec());
    let hand_cards = hand.get_cards();
    assert_eq!(hand_cards.len(), 5);
    for (i, shown) in hand_cards.iter().enumerate() {
        assert!(pool.contains(shown));
        for other in hand_cards.iter().skip(i + 1) {
            assert_ne!(shown, other);
        }
    }
    if has_two_groups_of_three(pool) {
        assert_eq!(hand.get_value(), 4);
        assert_eq!(strongest_category_of_any_five(pool), 7);
    } else {
        assert_eq!(hand.get_value(), strongest_category_of_any_five(pool));
        assert_eq!(hand.get_value(), category_of_five(&hand_cards));
    }
}

#[test]
fn best_hand_agrees_with_all_subsets_of_random_pools() {
    let mut state: u64 = 20240229;
    for _ in 0..3000 {
        let pool = random_pool(&mut state, 7, 13, 4);
        check_against_all_subsets(&pool);
    }
}

#[test]
fn best_hand_agrees_with_all_subsets_of_pools_rich_in_pairs() {
    let mut state: u64 = 77;
    for _ in 0..3000 {
        let pool = random_pool(&mut state, 7, 4, 4);
        check_against_all_subsets(&pool);
    }
}

#[test]
fn best_hand_agrees_with_all_subsets_of_pools_rich_in_flushes() {
    let mut state: u64 = 4242;
    for _ in 0..3000 {
        let pool = random_pool(&mut state, 7, 13, 2);
        check_against_all_subsets(&pool);
    }
}

#[test]
fn best_hand_agrees_with_all_subsets_of_low_suited_pools() {
    let mut state: u64 = 99;
    for _ in 0..2000 {
        let mut pool = random_pool(&mut state, 6, 6, 1);
        let ace = card(14, 0);
        pool.push(ace);
        check_against_all_subsets(&pool);
    }
}

#[test]
fn best_hand_agrees_with_all_subsets_of_smaller_pools() {
    let mut state: u64 = 5;
    for _ in 0..1000 {
        let five = random_pool(&mut state, 5, 13, 4);
        check_against_all_subsets(&five);
        let six = random_pool(&mut state, 6, 5, 4);
        check_against_all_subsets(&six);
    }
}

#[test]
fn hand_description_lists_the_quoted_labels() {
    let hand = Hand::Pair(cards(&[(8, D), (8, H), (14, S), (12, D), (5, H)]));
    assert_eq!(
        hand._to_string(),
        "Pair: [\"Eight of Diamonds\", \"Eight of Hearts\", \"Ace of Spades\", \"Queen of Diamonds\", \"Five of Hearts\"]"
    );
    let royal = Hand::RoyalFlush(cards(&[(14, S), (13, S), (12, S), (11, S), (10, S)]));
    assert_eq!(
        royal._to_string(),
        format!("Royal Flush: {:?}", Card::cards_to_string(&royal.get_cards()))
    );
}

#[test]
fn hand_description_names_every_category() {
    let five = cards(&[(8, D), (8, H), (14, S), (12, D), (5, H)]);
    let list = format!("{:?}", Card::cards_to_string(&five));
    assert_eq!(Hand::RoyalFlush(five.clone())._to_string(), format!("Royal Flush: {}", list));
    assert_eq!(Hand::StraightFlush(five.clone())._to_string(), format!("Straight Flush: {}", list));
    assert_eq!(Hand::Quads(five.clone())._to_string(), format!("Quads: {}", list));
    assert_eq!(Hand::FullHouse(five.clone())._to_string(), format!("Full House: {}", list));
    assert_eq!(Hand::Flush(five.clone())._to_string(), format!("Flush: {}", list));
    assert_eq!(Hand::Straight(five.clone())._to_string(), format!("Straight: {}", list));
    assert_eq!(Hand::Trips(five.clone())._to_string(), format!("Trips: {}", list));
    assert_eq!(Hand::TwoPair(five.clone())._to_string(), format!("Two Pair: {}", list));
    assert_eq!(Hand::Pair(five.clone())._to_string(), format!("Pair: {}", list));
    assert_eq!(Hand::HighCard(five.clone())._to_string(), format!("High Card: {}", list));
}

#[test]
fn hand_values_run_from_ten_to_one() {
    let five = cards(&[(8, D), (8, H), (14, S), (12, D), (5, H)]);
    assert_eq!(Hand::RoyalFlush(five.clone()).get_value(), 10);
    assert_eq!(Hand::StraightFlush(five.clone()).get_value(), 9);
    assert_eq!(Hand::Quads(five.clone()).get_value(), 8);
    assert_eq!(Hand::FullHouse(five.clone()).get_value(), 7);
    assert_eq!(Hand::Flush(five.clone()).get_value(), 6);
    assert_eq!(Hand::Straight(five.clone()).get_value(), 5);
    assert_eq!(Hand::Trips(five.clone()).get_value(), 4);
    assert_eq!(Hand::TwoPair(five.clone()).get_value(), 3);
    assert_eq!(Hand::Pair(five.clone()).get_value(), 2);
    assert_eq!(Hand::HighCard(five.clone()).get_value(), 1);
}

#[test]
fn hand_from_value_picks_the_category() {
    let five = cards(&[(8, D), (8, H), (14, S), (12, D), (5, H)]);
    for value in 1..=10u32 {
        let hand = Hand::from_value(value, five.clone());
        assert_eq!(hand.get_value(), value);
        assert_eq!(hand.get_cards(), five);
    }
    assert!(matches!(Hand::from_value(0, five.clone()), Hand::HighCard(_)));
    assert!(matches!(Hand::from_value(11, five.clone()), Hand::HighCard(_)));
}

#[test]
fn hand_clone_is_the_same_hand() {
    let hand = Hand::FullHouse(cards(&[(13, S), (13, C), (13, D), (4, D), (4, H)]));
    let copy = hand.clone();
    assert!(matches!(copy, Hand::FullHouse(_)));
    assert_eq!(copy.get_cards(), hand.get_cards());
}
