//! The counts that a run of simulated deals keeps: for each label of a
//! two-card starting hand, how often it was dealt and how often it won.

use vstd::prelude::*;
use crate::card::{Card, hole_label};
use crate::hand_analyser::showdown_entries;
use crate::pool::all_standard;
use crate::showdown::winners;
use crate::sorting::sorted_by_value;

verus! {

/// Number of counts kept for each starting hand.
pub const NUM_STATS: usize = 2;

/// Number of counts kept for a whole run.
pub const NUM_TOTAL_STATS: usize = 2;

/// The counts kept for each starting hand.
pub enum Stats {
    NumberOfHands,
    NumberOfWins,
}

impl Stats {
    /// Where the count stands among the counts of a starting hand.
    pub open spec fn index(&self) -> nat {
        match self {
            Stats::NumberOfHands => 0,
            Stats::NumberOfWins => 1,
        }
    }

    pub fn get_index(&self) -> (index: usize)
        ensures
            index == self.index(),
            index < NUM_STATS,
    {
        match self {
            Stats::NumberOfHands => 0,
            Stats::NumberOfWins => 1,
        }
    }
}

/// The counts kept for a whole run.
pub enum TotalStats {
    NumberOfIterations,
    NumberOfUniqueHands,
}

impl TotalStats {
    /// Where the count stands among the counts of a run.
    pub open spec fn index(&self) -> nat {
        match self {
            TotalStats::NumberOfIterations => 0,
            TotalStats::NumberOfUniqueHands => 1,
        }
    }

    pub fn get_index(&self) -> (index: usize)
        ensures
            index == self.index(),
            index < NUM_TOTAL_STATS,
    {
        match self {
            TotalStats::NumberOfIterations => 0,
            TotalStats::NumberOfUniqueHands => 1,
        }
    }
}

/// Number of deals in one unit of a run's length.
pub const THOUSAND: u32 = 1000;

/// The number of deals in a run of `num_thousand_iterations` thousand deals,
/// or `None` when a `u32` cannot hold it.
pub fn iterations_of(num_thousand_iterations: u32) -> (iterations: Option<u32>)
    ensures
        iterations is Some <==> num_thousand_iterations * THOUSAND <= u32::MAX,
        iterations matches Some(n) ==> n == num_thousand_iterations * THOUSAND,
{
    num_thousand_iterations.checked_mul(THOUSAND)
}

/// The counts of a run after `iterations` more deals, with `unique_hands`
/// starting hands counted in all: the deals are added to the number of
/// iterations, and the number of unique hands is replaced. `None` when a
/// `u32` cannot hold one of the two.
pub fn updated_totals(
    total_stats: [u32; NUM_TOTAL_STATS],
    iterations: u32,
    unique_hands: usize,
) -> (updated: Option<[u32; NUM_TOTAL_STATS]>)
    ensures
        updated is Some <==> total_stats[0] + iterations <= u32::MAX && unique_hands <= u32::MAX,
        updated matches Some(counts) ==> counts[0] == total_stats[0] + iterations && counts[1]
            == unique_hands,
{
    let so_far = total_stats[TotalStats::NumberOfIterations.get_index()];
    match so_far.checked_add(iterations) {
        Some(number_of_iterations) => {
            if unique_hands <= u32::MAX as usize {
                Some([number_of_iterations, unique_hands as u32])
            } else {
                None
            }
        },
        None => None,
    }
}

/// What the counts are to the contracts: for each label that has been
/// counted, how often the hand was dealt and how often it won.
pub type Tally = Map<Seq<char>, (u32, u32)>;

/// The tally after the hand `label` was dealt once more. A label that was
/// not counted yet starts with one deal and no win.
pub open spec fn with_hand(tally: Tally, label: Seq<char>) -> Tally {
    if tally.contains_key(label) {
        tally.insert(label, ((tally[label].0 + 1) as u32, tally[label].1))
    } else {
        tally.insert(label, (1, 0))
    }
}

/// The tally after the hand `label` won once more. A label that was not
/// counted yet starts with one deal and one win.
pub open spec fn with_win(tally: Tally, label: Seq<char>) -> Tally {
    if tally.contains_key(label) {
        tally.insert(label, (tally[label].0, (tally[label].1 + 1) as u32))
    } else {
        tally.insert(label, (1, 1))
    }
}

/// Every count of deals can be raised `hands` times and every count of wins
/// `wins` times and still be held by a `u32`.
pub open spec fn has_room_left(tally: Tally, hands: nat, wins: nat) -> bool {
    &&& hands <= u32::MAX
    &&& wins <= u32::MAX
    &&& forall|label: Seq<char>| #[trigger]
        tally.contains_key(label) ==> tally[label].0 + hands <= u32::MAX && tally[label].1 + wins
            <= u32::MAX
}

/// The tally has room for a deal among `num_players` players: no count
/// can grow beyond what a `u32` holds, whoever is dealt what and whoever
/// wins.
pub open spec fn has_room(tally: Tally, num_players: nat) -> bool {
    has_room_left(tally, num_players, num_players)
}

/// Counting a hand as dealt uses up room for one deal.
pub proof fn lemma_room_after_hand(tally: Tally, label: Seq<char>, hands: nat, wins: nat)
    requires
        hands >= 1,
        has_room_left(tally, hands, wins),
    ensures
        tally.contains_key(label) ==> tally[label].0 < u32::MAX,
        has_room_left(with_hand(tally, label), (hands - 1) as nat, wins),
{
    let after = with_hand(tally, label);
    assert forall|other: Seq<char>| #[trigger] after.contains_key(other) implies after[other].0 + (
    hands - 1) <= u32::MAX && after[other].1 + wins <= u32::MAX by {
        if other != label {
            assert(tally.contains_key(other));
        } else if tally.contains_key(label) {
            assert(tally[label].0 + hands <= u32::MAX);
        }
    }
}

/// Counting a hand as won uses up room for one win.
pub proof fn lemma_room_after_win(tally: Tally, label: Seq<char>, wins: nat)
    requires
        wins >= 1,
        has_room_left(tally, 0, wins),
    ensures
        tally.contains_key(label) ==> tally[label].1 < u32::MAX,
        has_room_left(with_win(tally, label), 0, (wins - 1) as nat),
{
    let after = with_win(tally, label);
    assert forall|other: Seq<char>| #[trigger] after.contains_key(other) implies after[other].0
        <= u32::MAX && after[other].1 + (wins - 1) <= u32::MAX by {
        if other != label {
            assert(tally.contains_key(other));
        } else if tally.contains_key(label) {
            assert(tally[label].1 + wins <= u32::MAX);
        }
    }
}

/// The tally after each of `labels` was dealt, in order.
pub open spec fn with_hands(tally: Tally, labels: Seq<Seq<char>>) -> Tally
    decreases labels.len(),
{
    if labels.len() == 0 {
        tally
    } else {
        with_hand(with_hands(tally, labels.drop_last()), labels.last())
    }
}

/// The tally after each of `labels` won, in order.
pub open spec fn with_wins(tally: Tally, labels: Seq<Seq<char>>) -> Tally
    decreases labels.len(),
{
    if labels.len() == 0 {
        tally
    } else {
        with_win(with_wins(tally, labels.drop_last()), labels.last())
    }
}

/// The label of each player's hole cards, in player order.
pub open spec fn hole_labels(holes: Seq<Seq<Card>>, verbose: bool) -> Seq<Seq<char>> {
    Seq::new(holes.len(), |p: int| hole_label(holes[p], verbose))
}

/// Each player's pool: the community cards and the player's hole cards,
/// sorted from high to low.
pub open spec fn deal_pools(community: Seq<Card>, holes: Seq<Seq<Card>>) -> Seq<Seq<Card>> {
    Seq::new(holes.len(), |p: int| sorted_by_value(community + holes[p]))
}

/// The labels of the hole cards of the players who win the deal, in player
/// order.
pub open spec fn winner_labels(
    community: Seq<Card>,
    holes: Seq<Seq<Card>>,
    verbose: bool,
) -> Seq<Seq<char>> {
    let winning = winners(showdown_entries(deal_pools(community, holes)));
    Seq::new(winning.len(), |k: int| hole_label(holes[winning[k].0 as int], verbose))
}

/// The tally after one deal: every player's starting hand is counted as
/// dealt, then every winner's starting hand as won.
pub open spec fn recorded(
    tally: Tally,
    community: Seq<Card>,
    holes: Seq<Seq<Card>>,
    verbose: bool,
) -> Tally {
    with_wins(
        with_hands(tally, hole_labels(holes, verbose)),
        winner_labels(community, holes, verbose),
    )
}

/// The cards are what a dealer may deal to `num_players` players: five
/// community cards and two hole cards each, all standard.
pub open spec fn is_deal(community: Seq<Card>, holes: Seq<Seq<Card>>, num_players: nat) -> bool {
    &&& community.len() == 5
    &&& all_standard(community)
    &&& holes.len() == num_players
    &&& forall|p: int| 0 <= p < holes.len() ==> (#[trigger] holes[p]).len() == 2 && all_standard(holes[p])
}

/// The tally that a list of labels with their counts stands for.
pub open spec fn tally_of(entries: Seq<(String, [u32; 2])>) -> Tally
    decreases entries.len(),
{
    if entries.len() == 0 {
        Map::empty()
    } else {
        tally_of(entries.drop_last()).insert(
            entries.last().0@,
            (entries.last().1[0], entries.last().1[1]),
        )
    }
}

/// No label stands twice in the list.
pub open spec fn distinct_labels(entries: Seq<(String, [u32; 2])>) -> bool {
    forall|i: int, j: int|
        0 <= i < entries.len() && 0 <= j < entries.len() && i != j ==> (#[trigger] entries[i]).0@
            != (#[trigger] entries[j]).0@
}

/// The tally of a list holds the labels of the list, each with the counts
/// that stand beside it.
pub proof fn lemma_tally_of(entries: Seq<(String, [u32; 2])>)
    requires
        distinct_labels(entries),
    ensures
        forall|label: Seq<char>|
            #[trigger] tally_of(entries).contains_key(label) <==> exists|i: int|
                0 <= i < entries.len() && (#[trigger] entries[i]).0@ == label,
        forall|i: int|
            0 <= i < entries.len() ==> tally_of(entries).contains_key((#[trigger] entries[i]).0@)
                && tally_of(entries)[entries[i].0@] == (entries[i].1[0], entries[i].1[1]),
    decreases entries.len(),
{
    if entries.len() > 0 {
        let rest = entries.drop_last();
        let last = entries.last();
        lemma_tally_of(rest);
        assert forall|label: Seq<char>| #[trigger]
            tally_of(entries).contains_key(label) <==> exists|i: int|
                0 <= i < entries.len() && (#[trigger] entries[i]).0@ == label by {
            if tally_of(entries).contains_key(label) {
                if label == last.0@ {
                    assert(entries[entries.len() - 1].0@ == label);
                } else {
                    assert(tally_of(rest).contains_key(label));
                    let i = choose|i: int| 0 <= i < rest.len() && (#[trigger] rest[i]).0@ == label;
                    assert(entries[i].0@ == label);
                }
            }
            if exists|i: int| 0 <= i < entries.len() && (#[trigger] entries[i]).0@ == label {
                let i = choose|i: int| 0 <= i < entries.len() && (#[trigger] entries[i]).0@ == label;
                if i < rest.len() {
                    assert(rest[i].0@ == label);
                }
            }
        }
        assert forall|i: int| 0 <= i < entries.len() implies tally_of(entries).contains_key(
            (#[trigger] entries[i]).0@,
        ) && tally_of(entries)[entries[i].0@] == (entries[i].1[0], entries[i].1[1]) by {
            if i < rest.len() {
                assert(rest[i] == entries[i]);
                assert(entries[i].0@ != entries[entries.len() - 1].0@);
            }
        }
    }
}

/// Replacing the counts beside a label of the list replaces them in the
/// tally.
pub proof fn lemma_tally_of_update(
    entries: Seq<(String, [u32; 2])>,
    i: int,
    entry: (String, [u32; 2]),
)
    requires
        distinct_labels(entries),
        0 <= i < entries.len(),
        entry.0@ == entries[i].0@,
    ensures
        distinct_labels(entries.update(i, entry)),
        tally_of(entries.update(i, entry)) == tally_of(entries).insert(
            entry.0@,
            (entry.1[0], entry.1[1]),
        ),
{
    let updated = entries.update(i, entry);
    assert forall|a: int, b: int| 0 <= a < updated.len() && 0 <= b < updated.len() && a
        != b implies (#[trigger] updated[a]).0@ != (#[trigger] updated[b]).0@ by {
        assert(updated[a].0@ == entries[a].0@);
        assert(updated[b].0@ == entries[b].0@);
    }
    lemma_tally_of(entries);
    lemma_tally_of(updated);
    let wanted = tally_of(entries).insert(entry.0@, (entry.1[0], entry.1[1]));
    assert forall|label: Seq<char>| tally_of(updated).contains_key(label) == wanted.contains_key(
        label,
    ) by {
        if tally_of(updated).contains_key(label) {
            let k = choose|k: int| 0 <= k < updated.len() && (#[trigger] updated[k]).0@ == label;
            assert(entries[k].0@ == label);
        }
        if wanted.contains_key(label) && label != entry.0@ {
            let k = choose|k: int| 0 <= k < entries.len() && (#[trigger] entries[k]).0@ == label;
            assert(updated[k].0@ == label);
        }
        if label == entry.0@ {
            assert(updated[i].0@ == label);
        }
    }
    assert forall|label: Seq<char>| tally_of(updated).contains_key(label) implies tally_of(
        updated,
    )[label] == wanted[label] by {
        let k = choose|k: int| 0 <= k < updated.len() && (#[trigger] updated[k]).0@ == label;
        if k != i {
            assert(updated[k] == entries[k]);
            assert(entries[k].0@ != entries[i].0@);
        } else {
            assert(updated[i] == entry);
        }
    }
    assert(tally_of(updated) =~= wanted);
}

/// The counts of a run, one entry for each starting hand that has been
/// counted.
pub struct HandStats {
    entries: Vec<(String, [u32; NUM_STATS])>,
}

impl View for HandStats {
    type V = Tally;

    closed spec fn view(&self) -> Tally {
        tally_of(self.entries@)
    }
}

impl HandStats {
    /// The labels that have been counted, in the order in which they came.
    pub closed spec fn labels(&self) -> Seq<Seq<char>> {
        Seq::new(self.entries@.len(), |i: int| self.entries@[i].0@)
    }

    /// The counts are well formed when no label is held twice.
    pub closed spec fn wf(&self) -> bool {
        distinct_labels(self.entries@)
    }

    /// The labels are the keys of the tally, none of them twice.
    pub proof fn lemma_labels(&self)
        requires
            self.wf(),
        ensures
            self.labels().no_duplicates(),
            forall|label: Seq<char>| self@.contains_key(label) <==> self.labels().contains(label),
    {
        lemma_tally_of(self.entries@);
        let labels = self.labels();
        assert forall|label: Seq<char>| self@.contains_key(label) <==> labels.contains(label) by {
            if self@.contains_key(label) {
                let i = choose|i: int|
                    0 <= i < self.entries@.len() && (#[trigger] self.entries@[i]).0@ == label;
                assert(labels[i] == label);
            }
            if labels.contains(label) {
                let i = choose|i: int| 0 <= i < labels.len() && labels[i] == label;
                assert(self.entries@[i].0@ == label);
            }
        }
    }

    /// Counts in which nothing has been counted.
    pub fn new() -> (stats: Self)
        ensures
            stats.wf(),
            stats@ == Map::<Seq<char>, (u32, u32)>::empty(),
            stats.labels().len() == 0,
    {
        HandStats { entries: Vec::new() }
    }

    /// How many starting hands have been counted.
    pub fn len(&self) -> (len: usize)
        ensures
            len == self.labels().len(),
    {
        self.entries.len()
    }

    /// The label of the entry at `position`.
    pub fn label_at(&self, position: usize) -> (label: String)
        requires
            position < self.labels().len(),
        ensures
            label@ == self.labels()[position as int],
    {
        self.entries[position].0.clone()
    }

    /// The counts of the entry at `position`: how often the hand was dealt,
    /// then how often it won.
    pub fn counts_at(&self, position: usize) -> (counts: [u32; NUM_STATS])
        requires
            self.wf(),
            position < self.labels().len(),
        ensures
            self@.contains_key(self.labels()[position as int]),
            (counts[0], counts[1]) == self@[self.labels()[position as int]],
    {
        proof {
            lemma_tally_of(self.entries@);
        }
        self.entries[position].1
    }

    /// Where `label` stands in the list, if it has been counted.
    fn find(&self, label: &String) -> (found: Option<usize>)
        requires
            self.wf(),
        ensures
            found is Some <==> self@.contains_key(label@),
            found matches Some(i) ==> i < self.entries.len() && self.entries[i as int].0@ == label@,
    {
        let mut i: usize = 0;
        while i < self.entries.len()
            invariant
                i <= self.entries.len(),
                self.wf(),
                forall|k: int| 0 <= k < i ==> (#[trigger] self.entries[k]).0@ != label@,
            decreases self.entries.len() - i,
        {
            if self.entries[i].0 == *label {
                proof {
                    lemma_tally_of(self.entries@);
                }
                return Some(i);
            }
            i += 1;
        }
        proof {
            lemma_tally_of(self.entries@);
        }
        None
    }

    /// The counts of `label`, if it has been counted.
    pub fn get(&self, label: &String) -> (counts: Option<[u32; NUM_STATS]>)
        requires
            self.wf(),
        ensures
            counts is Some <==> self@.contains_key(label@),
            counts matches Some(c) ==> (c[0], c[1]) == self@[label@],
    {
        proof {
            lemma_tally_of(self.entries@);
        }
        match self.find(label) {
            Some(i) => Some(self.entries[i].1),
            None => None,
        }
    }

    /// Sets the counts of `label`, whether or not it has been counted.
    pub fn set(&mut self, label: String, counts: [u32; NUM_STATS])
        requires
            old(self).wf(),
        ensures
            final(self).wf(),
            final(self)@ == old(self)@.insert(label@, (counts[0], counts[1])),
    {
        match self.find(&label) {
            Some(i) => {
                proof {
                    lemma_tally_of_update(self.entries@, i as int, (label, counts));
                }
                self.entries.set(i, (label, counts));
            },
            None => {
                proof {
                    lemma_tally_of(self.entries@);
                    assert(self.entries@.push((label, counts)).drop_last() =~= self.entries@);
                }
                self.entries.push((label, counts));
            },
        }
    }

    /// Whether the counts have room for a deal among `num_players` players.
    pub fn has_room_for(&self, num_players: u32) -> (room: bool)
        requires
            self.wf(),
        ensures
            room == has_room(self@, num_players as nat),
    {
        proof {
            lemma_tally_of(self.entries@);
        }
        let most = u32::MAX - num_players;
        let mut i: usize = 0;
        while i < self.entries.len()
            invariant
                i <= self.entries.len(),
                self.wf(),
                most == u32::MAX - num_players,
                forall|k: int|
                    0 <= k < i ==> (#[trigger] self.entries[k]).1[0] <= most && self.entries[k].1[1]
                        <= most,
            decreases self.entries.len() - i,
        {
            let counts = self.entries[i].1;
            if counts[0] > most || counts[1] > most {
                proof {
                    lemma_tally_of(self.entries@);
                    assert(self@.contains_key(self.entries[i as int].0@));
                }
                return false;
            }
            i += 1;
        }
        proof {
            lemma_tally_of(self.entries@);
            assert forall|label: Seq<char>| #[trigger] self@.contains_key(label) implies self@[label].0
                + num_players <= u32::MAX && self@[label].1 + num_players <= u32::MAX by {
                let k = choose|k: int|
                    0 <= k < self.entries@.len() && (#[trigger] self.entries@[k]).0@ == label;
                assert(self.entries[k].1[0] <= most);
            }
        }
        true
    }

    /// Counts the hand `label` as dealt once more. The count must not be the
    /// largest that a `u32` holds.
    pub fn record_hand(&mut self, label: String)
        requires
            old(self).wf(),
            old(self)@.contains_key(label@) ==> old(self)@[label@].0 < u32::MAX,
        ensures
            final(self).wf(),
            final(self)@ == with_hand(old(self)@, label@),
    {
        let counts = match self.get(&label) {
            Some(counts) => {
                let hands = counts[Stats::NumberOfHands.get_index()];
                let wins = counts[Stats::NumberOfWins.get_index()];
                [hands + 1, wins]
            },
            None => [1, 0],
        };
        self.set(label, counts);
    }

    /// Counts the hand `label` as the winner of one more deal. The count must
    /// not be the largest that a `u32` holds.
    pub fn record_win(&mut self, label: String)
        requires
            old(self).wf(),
            old(self)@.contains_key(label@) ==> old(self)@[label@].1 < u32::MAX,
        ensures
            final(self).wf(),
            final(self)@ == with_win(old(self)@, label@),
    {
        let counts = match self.get(&label) {
            Some(counts) => {
                let hands = counts[Stats::NumberOfHands.get_index()];
                let wins = counts[Stats::NumberOfWins.get_index()];
                [hands, wins + 1]
            },
            None => [1, 1],
        };
        self.set(label, counts);
    }
}

} // verus!
