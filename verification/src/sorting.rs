//! The order in which the evaluator reads a pool: from the highest rank to
//! the lowest, cards of one rank in the order in which they were given.

use vstd::prelude::*;
use crate::card::Card;
use crate::hand_analyser::HandAnalyser;
use crate::pool::{all_standard, has_value, is_grouping_by_number, sorted_descending, with_value};

use crate::filtering::lemma_filter_keeps;

verus! {

/// The cards of rank value `top`, then those of `top - 1`, and so on down to
/// rank value 1, each group in pool order.
pub open spec fn descending_from(pool: Seq<Card>, top: nat) -> Seq<Card>
    decreases top,
{
    if top == 0 {
        Seq::empty()
    } else {
        with_value(pool, top) + descending_from(pool, (top - 1) as nat)
    }
}

/// The pool sorted by descending rank value, cards of equal rank kept in
/// their pool order.
pub open spec fn sorted_by_value(pool: Seq<Card>) -> Seq<Card> {
    descending_from(pool, 14)
}

/// Keeping the cards of one rank from a sequence of cards that all have
/// rank value `w` keeps all of them or none.
proof fn lemma_keep_value_of_group(group: Seq<Card>, w: nat, v: nat)
    requires
        forall|k: int| 0 <= k < group.len() ==> (#[trigger] group[k]).value() == w,
    ensures
        with_value(group, v) == if v == w {
            group
        } else {
            Seq::empty()
        },
    decreases group.len(),
{
    reveal(Seq::filter);
    if group.len() > 0 {
        lemma_keep_value_of_group(group.drop_last(), w, v);
        assert(group =~= group.drop_last().push(group.last()));
    }
}

/// What `descending_from` holds: the cards of the pool with rank value in
/// `1..=top`, from high to low, each rank's cards as the pool has them.
pub proof fn lemma_descending_from(pool: Seq<Card>, top: nat)
    requires
        top <= 14,
    ensures
        sorted_descending(descending_from(pool, top)),
        forall|k: int|
            0 <= k < descending_from(pool, top).len() ==> {
                &&& pool.contains(#[trigger] descending_from(pool, top)[k])
                &&& 1 <= descending_from(pool, top)[k].value() <= top
            },
        forall|c: Card|
            pool.contains(c) && 1 <= c.value() <= top ==> #[trigger] descending_from(
                pool,
                top,
            ).contains(c),
        forall|v: nat|
            #![trigger with_value(descending_from(pool, top), v)]
            with_value(descending_from(pool, top), v) == if 1 <= v <= top {
                with_value(pool, v)
            } else {
                Seq::empty()
            },
        pool.no_duplicates() ==> descending_from(pool, top).no_duplicates(),
    decreases top,
{
    reveal(Seq::filter);
    if top > 0 {
        let group = with_value(pool, top);
        let rest = descending_from(pool, (top - 1) as nat);
        let all = descending_from(pool, top);
        lemma_descending_from(pool, (top - 1) as nat);
        lemma_filter_keeps(pool, has_value(top));
        assert(all == group + rest);
        assert forall|k: int| 0 <= k < all.len() implies pool.contains(#[trigger] all[k]) && 1
            <= all[k].value() <= top && (k < group.len() ==> all[k].value() == top) && (k
            >= group.len() ==> all[k].value() < top) by {
            if k < group.len() {
                assert(all[k] == group[k]);
            } else {
                assert(all[k] == rest[k - group.len()]);
            }
        }
        assert forall|c: Card| pool.contains(c) && 1 <= c.value() <= top implies #[trigger] all.contains(
            c,
        ) by {
            if c.value() == top {
                assert(group.contains(c));
                let k = choose|k: int| 0 <= k < group.len() && group[k] == c;
                assert(all[k] == c);
            } else {
                assert(rest.contains(c));
                let k = choose|k: int| 0 <= k < rest.len() && rest[k] == c;
                assert(all[group.len() + k] == c);
            }
        }
        assert forall|v: nat| #![trigger with_value(all, v)] with_value(all, v) == if 1 <= v <= top {
            with_value(pool, v)
        } else {
            Seq::empty()
        } by {
            Seq::filter_distributes_over_add(group, rest, has_value(v));
            lemma_keep_value_of_group(group, top, v);
            assert(with_value(rest, v) == if 1 <= v <= top - 1 {
                with_value(pool, v)
            } else {
                Seq::empty()
            });
            if v == top {
                assert(group + Seq::<Card>::empty() =~= group);
            } else {
                assert(Seq::<Card>::empty() + with_value(rest, v) =~= with_value(rest, v));
            }
        }
        if pool.no_duplicates() {
            assert forall|i: int, j: int| 0 <= i < all.len() && 0 <= j < all.len() && i
                != j implies all[i] != all[j] by {
                if i < group.len() && j < group.len() {
                    assert(all[i] == group[i] && all[j] == group[j]);
                } else if i >= group.len() && j >= group.len() {
                    assert(all[i] == rest[i - group.len()] && all[j] == rest[j - group.len()]);
                }
            }
        }
    }
}

/// Adding a card to the pool adds one card to `descending_from` when the
/// card's rank value is in `1..=top`, and none otherwise.
proof fn lemma_descending_from_push(pool: Seq<Card>, c: Card, top: nat)
    ensures
        descending_from(pool.push(c), top).len() == descending_from(pool, top).len() + if 1
            <= c.value() <= top {
            1nat
        } else {
            0nat
        },
    decreases top,
{
    if top > 0 {
        lemma_descending_from_push(pool, c, (top - 1) as nat);
        pool.lemma_filter_push(c, has_value(top));
    }
}

/// Sorting keeps the number of cards.
pub proof fn lemma_sorted_len(pool: Seq<Card>)
    ensures
        sorted_by_value(pool).len() == pool.len(),
    decreases pool.len(),
{
    if pool.len() == 0 {
        lemma_descending_from(pool, 14);
        if sorted_by_value(pool).len() > 0 {
            assert(pool.contains(sorted_by_value(pool)[0]));
        }
    } else {
        lemma_sorted_len(pool.drop_last());
        lemma_descending_from_push(pool.drop_last(), pool.last(), 14);
        assert(pool =~= pool.drop_last().push(pool.last()));
    }
}

/// What sorting keeps: the cards, how many there are, the cards of each rank
/// in their order, and that no card occurs twice.
pub proof fn lemma_sorted_by_value(pool: Seq<Card>)
    ensures
        sorted_descending(sorted_by_value(pool)),
        sorted_by_value(pool).len() == pool.len(),
        forall|c: Card| pool.contains(c) <==> #[trigger] sorted_by_value(pool).contains(c),
        forall|v: nat|
            #![trigger with_value(sorted_by_value(pool), v)]
            1 <= v <= 14 ==> with_value(sorted_by_value(pool), v) == with_value(pool, v),
        pool.no_duplicates() ==> sorted_by_value(pool).no_duplicates(),
        all_standard(pool) ==> all_standard(sorted_by_value(pool)),
{
    lemma_descending_from(pool, 14);
    lemma_sorted_len(pool);
    let sorted = sorted_by_value(pool);
    assert forall|c: Card| #[trigger] sorted.contains(c) implies pool.contains(c) by {
        let k = choose|k: int| 0 <= k < sorted.len() && sorted[k] == c;
        assert(pool.contains(sorted[k]));
    }
    if all_standard(pool) {
        assert forall|k: int| 0 <= k < sorted.len() implies (#[trigger] sorted[k]).is_standard() by {
            assert(pool.contains(sorted[k]));
            let j = choose|j: int| 0 <= j < pool.len() && pool[j] == sorted[k];
            assert(pool[j].is_standard());
        }
    }
}

/// Sorts the cards by descending rank value; cards of equal rank keep their
/// order.
pub fn sort_cards(cards: &Vec<Card>) -> (sorted: Vec<Card>)
    ensures
        sorted@ == sorted_by_value(cards@),
{
    let groups = HandAnalyser::group_cards_by_number(cards);
    let mut sorted: Vec<Card> = Vec::new();
    let mut v: usize = 14;
    while v > 0
        invariant
            v <= 14,
            is_grouping_by_number(groups@, cards@),
            sorted@ + descending_from(cards@, v as nat) == sorted_by_value(cards@),
        decreases v,
    {
        let group = &groups[v];
        let ghost before = sorted@;
        let mut i: usize = 0;
        while i < group.len()
            invariant
                i <= group.len(),
                sorted@ == before + group@.take(i as int),
            decreases group.len() - i,
        {
            sorted.push(group[i]);
            assert(group@.take(i + 1) =~= group@.take(i as int).push(group[i as int]));
            i += 1;
        }
        proof {
            assert(group@.take(group.len() as int) =~= group@);
            assert(group@ == with_value(cards@, v as nat));
            assert(sorted@ + descending_from(cards@, (v - 1) as nat) =~= before + descending_from(
                cards@,
                v as nat,
            ));
        }
        v -= 1;
    }
    assert(sorted@ + Seq::<Card>::empty() =~= sorted@);
    sorted
}

} // verus!
