//! One simulated deal: the cards are dealt, every player's starting hand is
//! counted, the showdown is held, and the winners are counted.

use vstd::prelude::*;
use crate::card::Card;
use crate::dealer::{cards_of_deal, Dealer, NUM_CARDS_IN_DECK};
use crate::filtering::lemma_filter_keeps;
use crate::hand_analyser::{showdown_entries, HandAnalyser};
use crate::pool::{all_standard, lists_view};
use crate::showdown::is_winner;
use crate::stats::{
    deal_pools, has_room, has_room_left, hole_labels, is_deal, lemma_room_after_hand,
    lemma_room_after_win, recorded, winner_labels, with_hands, with_wins, HandStats,
};

verus! {

/// Why a deal could not be simulated.
#[derive(Clone, Copy, Debug, PartialEq, Eq, Structural)]
pub enum SimulationError {
    /// The deck does not serve that many players.
    DeckExhausted,
    /// A count could grow beyond what it can hold.
    CountsFull,
}

/// Counts one deal that has been made: each player's starting hand as dealt,
/// then each winner's starting hand as won. A starting hand is counted under
/// its full label when `verbose`, else under its shorthand. The counts must
/// have room for the deal.
pub fn record_deal(
    community_cards: Vec<Card>,
    player_cards: Vec<Vec<Card>>,
    verbose: bool,
    hand_stats: &mut HandStats,
)
    requires
        old(hand_stats).wf(),
        is_deal(community_cards@, lists_view(player_cards@), player_cards.len() as nat),
        has_room(old(hand_stats)@, player_cards.len() as nat),
    ensures
        final(hand_stats).wf(),
        final(hand_stats)@ == recorded(
            old(hand_stats)@,
            community_cards@,
            lists_view(player_cards@),
            verbose,
        ),
{
    let ghost community = community_cards@;
    let ghost holes = lists_view(player_cards@);
    let ghost labels = hole_labels(holes, verbose);
    let mut p: usize = 0;
    while p < player_cards.len()
        invariant
            p <= player_cards.len(),
            hand_stats.wf(),
            holes == lists_view(player_cards@),
            labels == hole_labels(holes, verbose),
            forall|q: int| 0 <= q < holes.len() ==> (#[trigger] holes[q]).len() == 2,
            hand_stats@ == with_hands(old(hand_stats)@, labels.take(p as int)),
            has_room_left(
                hand_stats@,
                (player_cards.len() - p) as nat,
                player_cards.len() as nat,
            ),
        decreases player_cards.len() - p,
    {
        assert(holes[p as int].len() == 2);
        let player_cards_string = Card::get_hand_string(&player_cards[p], verbose);
        proof {
            assert(player_cards_string@ == labels[p as int]);
            assert(labels.take(p + 1).drop_last() =~= labels.take(p as int));
            assert(labels.take(p + 1).last() == labels[p as int]);
            lemma_room_after_hand(
                hand_stats@,
                player_cards_string@,
                (player_cards.len() - p) as nat,
                player_cards.len() as nat,
            );
        }
        hand_stats.record_hand(player_cards_string);
        p += 1;
    }
    assert(labels.take(player_cards.len() as int) =~= labels);
    proof {
        assert forall|q: int| 0 <= q < player_cards.len() implies (#[trigger] player_cards[q]).len()
            == 2 && all_standard(player_cards[q]@) by {
            assert(holes[q] == player_cards[q]@);
        }
    }
    let ghost num_players = player_cards.len();
    let analyser = HandAnalyser::new(community_cards, player_cards);
    let winning_hands = analyser.get_winning_hands(verbose);
    let ghost won = winner_labels(community, holes, verbose);
    let ghost counted = hand_stats@;
    proof {
        assert(analyser.pools() =~= deal_pools(community, holes));
        assert(won.len() == winning_hands.len());
        let entries = showdown_entries(deal_pools(community, holes));
        lemma_filter_keeps(entries, is_winner(entries));
        assert(won.len() <= num_players);
    }
    let mut k: usize = 0;
    while k < winning_hands.len()
        invariant
            k <= winning_hands.len(),
            hand_stats.wf(),
            won.len() == winning_hands.len(),
            forall|j: int| 0 <= j < winning_hands.len() ==> (#[trigger] winning_hands[j]).0@ == won[j],
            hand_stats@ == with_wins(counted, won.take(k as int)),
            winning_hands.len() <= num_players,
            has_room_left(hand_stats@, 0, (num_players - k) as nat),
        decreases winning_hands.len() - k,
    {
        proof {
            assert(won.take(k + 1).drop_last() =~= won.take(k as int));
            assert(won.take(k + 1).last() == won[k as int]);
            lemma_room_after_win(hand_stats@, won[k as int], (num_players - k) as nat);
        }
        hand_stats.record_win(winning_hands[k].0.clone());
        k += 1;
    }
    assert(won.take(winning_hands.len() as int) =~= won);
}

/// Simulates one deal among `num_players` players with a fresh deck and
/// counts it. The deck serves up to twenty-three players; with more the deal
/// fails. It fails too when the counts have no room for the deal. Nothing is
/// counted when it fails.
///
/// Which cards come is left to chance. What holds of every outcome: the
/// counts are those that `record_deal` gives for some deal of five community
/// cards and two hole cards for each player, all of them different cards.
pub fn simulate(
    num_players: u32,
    verbose: bool,
    hand_stats: &mut HandStats,
) -> (outcome: Result<(), SimulationError>)
    requires
        old(hand_stats).wf(),
    ensures
        final(hand_stats).wf(),
        outcome == Err::<(), SimulationError>(SimulationError::DeckExhausted) <==> 5 + 2
            * num_players > NUM_CARDS_IN_DECK,
        outcome == Err::<(), SimulationError>(SimulationError::CountsFull) <==> 5 + 2 * num_players
            <= NUM_CARDS_IN_DECK && !has_room(old(hand_stats)@, num_players as nat),
        outcome is Err ==> final(hand_stats)@ == old(hand_stats)@,
        outcome is Ok ==> exists|community: Seq<Card>, holes: Seq<Seq<Card>>|
            is_deal(community, holes, num_players as nat) && cards_of_deal(
                community,
                holes,
            ).no_duplicates() && final(hand_stats)@ == #[trigger] recorded(
                old(hand_stats)@,
                community,
                holes,
                verbose,
            ),
{
    let mut dealer = Dealer::new();
    match dealer.deal(num_players) {
        Ok((community_cards, player_cards)) => {
            if !hand_stats.has_room_for(num_players) {
                return Err(SimulationError::CountsFull);
            }
            let ghost community = community_cards@;
            let ghost holes = lists_view(player_cards@);
            proof {
                assert forall|p: int| 0 <= p < holes.len() implies (#[trigger] holes[p]).len() == 2
                    && all_standard(holes[p]) by {
                    assert(holes[p] == player_cards[p]@);
                }
            }
            record_deal(community_cards, player_cards, verbose, hand_stats);
            assert(is_deal(community, holes, num_players as nat));
            Ok(())
        },
        Err(_) => Err(SimulationError::DeckExhausted),
    }
}

} // verus!
