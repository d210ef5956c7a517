//! Facts about keeping the items of a sequence that meet a predicate.

use vstd::prelude::*;

verus! {

/// What a predicate keeps of a sequence: items of the sequence that meet the
/// predicate, all of them, and none twice unless the sequence has one twice.
pub proof fn lemma_filter_keeps<A>(items: Seq<A>, keep: spec_fn(A) -> bool)
    ensures
        forall|k: int|
            0 <= k < items.filter(keep).len() ==> items.contains(#[trigger] items.filter(keep)[k]),
        forall|k: int| 0 <= k < items.filter(keep).len() ==> keep(#[trigger] items.filter(keep)[k]),
        forall|c: A| items.contains(c) && keep(c) ==> #[trigger] items.filter(keep).contains(c),
        items.filter(keep).len() <= items.len(),
        items.no_duplicates() ==> items.filter(keep).no_duplicates(),
    decreases items.len(),
{
    reveal(Seq::filter);
    let kept = items.filter(keep);
    if items.len() > 0 {
        let rest = items.drop_last();
        let last = items.last();
        lemma_filter_keeps(rest, keep);
        assert(items =~= rest.push(last));
        assert forall|k: int| 0 <= k < kept.len() implies items.contains(#[trigger] kept[k]) && keep(
            kept[k],
        ) by {
            if k < rest.filter(keep).len() {
                let c = rest.filter(keep)[k];
                assert(rest.contains(c));
                let j = choose|j: int| 0 <= j < rest.len() && rest[j] == c;
                assert(items[j] == c);
            } else {
                assert(items[items.len() - 1] == last);
            }
        }
        assert forall|c: A| items.contains(c) && keep(c) implies #[trigger] kept.contains(c) by {
            let j = choose|j: int| 0 <= j < items.len() && items[j] == c;
            if j < rest.len() {
                assert(rest[j] == c);
                assert(rest.contains(c));
                assert(rest.filter(keep).contains(c));
                let k = choose|k: int| 0 <= k < rest.filter(keep).len() && rest.filter(keep)[k] == c;
                assert(kept[k] == c);
            } else {
                assert(kept[kept.len() - 1] == c);
            }
        }
        if items.no_duplicates() {
            assert(rest.no_duplicates());
            assert forall|i: int, j: int| 0 <= i < kept.len() && 0 <= j < kept.len() && i
                != j implies kept[i] != kept[j] by {
                if i == rest.filter(keep).len() || j == rest.filter(keep).len() {
                    let k = if i == rest.filter(keep).len() {
                        j
                    } else {
                        i
                    };
                    let c = rest.filter(keep)[k];
                    assert(rest.contains(c));
                    let m = choose|m: int| 0 <= m < rest.len() && rest[m] == c;
                    assert(items[m] == c);
                    assert(items[items.len() - 1] == last);
                }
            }
        }
    }
}


/// Two predicates that agree on every item of a sequence keep the same items.
pub proof fn lemma_filter_same<A>(
    items: Seq<A>,
    first: spec_fn(A) -> bool, second: spec_fn(A) -> bool,
)
    requires
        forall|i: int| 0 <= i < items.len() ==> first(#[trigger] items[i]) == second(items[i]),
    ensures
        items.filter(first) == items.filter(second),
    decreases items.len(),
{
    reveal(Seq::filter);
    if items.len() > 0 {
        let rest = items.drop_last();
        assert forall|i: int| 0 <= i < rest.len() implies first(#[trigger] rest[i]) == second(
            rest[i],
        ) by {
            assert(rest[i] == items[i]);
        }
        lemma_filter_same(rest, first, second);
        assert(first(items[items.len() - 1]) == second(items[items.len() - 1]));
    }
}

/// Keeping by one predicate and then by another keeps what a predicate keeps
/// that holds of an item exactly when both hold.
pub proof fn lemma_filter_twice<A>(
    items: Seq<A>,
    first: spec_fn(A) -> bool,
    second: spec_fn(A) -> bool,
    both: spec_fn(A) -> bool,
)
    requires
        forall|i: int|
            0 <= i < items.len() ==> both(#[trigger] items[i]) == (first(items[i]) && second(
                items[i],
            )),
    ensures
        items.filter(first).filter(second) == items.filter(both),
    decreases items.len(),
{
    reveal(Seq::filter);
    if items.len() > 0 {
        let rest = items.drop_last();
        let last = items.last();
        assert forall|i: int| 0 <= i < rest.len() implies both(#[trigger] rest[i]) == (first(
            rest[i],
        ) && second(rest[i])) by {
            assert(rest[i] == items[i]);
        }
        lemma_filter_twice(rest, first, second, both);
        assert(both(items[items.len() - 1]) == (first(last) && second(last)));
        if first(last) {
            rest.filter(first).lemma_filter_push(last, second);
        }
    }
}

} // verus!
