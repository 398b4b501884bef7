//! Facts about lists that the chunk books and the grid of entities share.

use vstd::prelude::*;

verus! {

/// What a filter keeps: the members that meet the test, and no others.
pub proof fn lemma_filter_members<A>(list: Seq<A>, test: spec_fn(A) -> bool)
    ensures
        forall|item: A| #[trigger]
            list.filter(test).contains(item) <==> list.contains(item) && test(item),
    decreases list.len(),
{
    reveal(Seq::filter);
    if list.len() > 0 {
        let front = list.drop_last();
        lemma_filter_members(front, test);
        assert forall|item: A| #[trigger]
            list.filter(test).contains(item) <==> list.contains(item) && test(item) by {
            let kept = list.filter(test);
            if kept.contains(item) {
                let i = choose|i: int| 0 <= i < kept.len() && kept[i] == item;
                if test(list.last()) && i == kept.len() - 1 {
                    assert(list[list.len() - 1] == item);
                } else {
                    assert(front.filter(test)[i] == item);
                    assert(front.filter(test).contains(item));
                    let j = choose|j: int| 0 <= j < front.len() && front[j] == item;
                    assert(list[j] == item);
                }
            }
            if list.contains(item) && test(item) {
                let j = choose|j: int| 0 <= j < list.len() && list[j] == item;
                if j == list.len() - 1 {
                    assert(kept[kept.len() - 1] == item);
                } else {
                    assert(front[j] == item);
                    assert(front.filter(test).contains(item));
                    let i = choose|i: int|
                        0 <= i < front.filter(test).len() && front.filter(test)[i] == item;
                    assert(kept[i] == item);
                }
            }
        }
    }
}

/// A list without duplicates stays so when an entity that is not in it is
/// put at its end.
pub proof fn lemma_push_keeps_distinct(list: Seq<u64>, entity: u64)
    requires
        list.no_duplicates(),
        !list.contains(entity),
    ensures
        list.push(entity).no_duplicates(),
{
    let longer = list.push(entity);
    assert forall|i: int, j: int|
        0 <= i < longer.len() && 0 <= j < longer.len() && i != j implies longer[i]
        != longer[j] by {
        if i < list.len() {
            assert(list[i] == longer[i]);
        }
        if j < list.len() {
            assert(list[j] == longer[j]);
        }
    }
}

/// What two lists one after the other hold: what either holds.
pub proof fn lemma_joined_members(first: Seq<u64>, second: Seq<u64>, entity: u64)
    ensures
        (first + second).contains(entity) <==> first.contains(entity) || second.contains(entity),
{
    let joined = first + second;
    if joined.contains(entity) {
        let i = choose|i: int| 0 <= i < joined.len() && joined[i] == entity;
        if i < first.len() {
            assert(first[i] == entity);
        } else {
            assert(second[i - first.len()] == entity);
        }
    }
    if first.contains(entity) {
        let i = choose|i: int| 0 <= i < first.len() && first[i] == entity;
        assert(joined[i] == entity);
    }
    if second.contains(entity) {
        let i = choose|i: int| 0 <= i < second.len() && second[i] == entity;
        assert(joined[first.len() + i] == entity);
    }
}

} // verus!
