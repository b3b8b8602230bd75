//! Stable ordering of lists.

use vstd::prelude::*;

verus! {

/// Items that can be ranked.
pub trait Ranked: Sized {
    /// Whether `self` ranks strictly before `other`.
    spec fn ranks_before(self, other: Self) -> bool;

    /// Decides whether `self` ranks strictly before `other`.
    fn outranks(&self, other: &Self) -> (r: bool)
        ensures
            r == (*self).ranks_before(*other),
    ;
}

/// How many items of a ranked list stay in front of a further item: all up to
/// the last one that the item does not rank before.
pub open spec fn slot<T: Ranked>(ranked: Seq<T>, item: T) -> int
    decreases ranked.len(),
{
    if ranked.len() == 0 || !item.ranks_before(ranked.last()) {
        ranked.len() as int
    } else {
        slot(ranked.drop_last(), item)
    }
}

/// The list in rank order. Items that do not outrank each other keep the order
/// in which they came.
pub open spec fn ranking<T: Ranked>(items: Seq<T>) -> Seq<T>
    decreases items.len(),
{
    if items.len() == 0 {
        items
    } else {
        let rest = ranking(items.drop_last());
        rest.insert(slot(rest, items.last()), items.last())
    }
}

/// What an item is put behind does not rank behind it, and all that follows does.
pub proof fn lemma_slot<T: Ranked>(ranked: Seq<T>, item: T)
    ensures
        0 <= slot(ranked, item) <= ranked.len(),
        slot(ranked, item) > 0 ==> !item.ranks_before(ranked[slot(ranked, item) - 1]),
        forall|j: int| slot(ranked, item) <= j < ranked.len() ==> item.ranks_before(#[trigger] ranked[j]),
    decreases ranked.len(),
{
    if ranked.len() > 0 && item.ranks_before(ranked.last()) {
        let shorter = ranked.drop_last();
        lemma_slot(shorter, item);
        assert forall|j: int| slot(ranked, item) <= j < ranked.len() implies item.ranks_before(
            #[trigger] ranked[j],
        ) by {
            if j < shorter.len() {
                assert(shorter[j] == ranked[j]);
            }
        }
    }
}

/// Ranking keeps the length of the list.
pub proof fn lemma_ranking_len<T: Ranked>(items: Seq<T>)
    ensures
        ranking(items).len() == items.len(),
    decreases items.len(),
{
    if items.len() > 0 {
        lemma_ranking_len(items.drop_last());
        lemma_slot(ranking(items.drop_last()), items.last());
    }
}

/// Ranking rearranges the list: no item is lost, added or doubled.
pub proof fn ranking_rearranges<T: Ranked>(items: Seq<T>)
    ensures
        ranking(items).to_multiset() == items.to_multiset(),
    decreases items.len(),
{
    broadcast use vstd::seq_lib::group_to_multiset_ensures;

    if items.len() > 0 {
        let shorter = items.drop_last();
        let rest = ranking(shorter);
        ranking_rearranges(shorter);
        lemma_slot(rest, items.last());
        assert(items =~= shorter.push(items.last()));
        rest.insert_ensures(slot(rest, items.last()), items.last());
        vstd::seq_lib::to_multiset_insert(rest, slot(rest, items.last()), items.last());
    }
}

/// Whether the relation of a type orders its values like a ladder on which
/// several values may share a rung.
pub open spec fn is_weak_order<T: Ranked>() -> bool {
    &&& forall|a: T| !#[trigger] a.ranks_before(a)
    &&& forall|a: T, b: T, c: T|
        #![trigger a.ranks_before(b), b.ranks_before(c)]
        a.ranks_before(b) && b.ranks_before(c) ==> a.ranks_before(c)
    &&& forall|a: T, b: T, c: T|
        #![trigger a.ranks_before(b), c.ranks_before(b)]
        #![trigger a.ranks_before(b), a.ranks_before(c)]
        a.ranks_before(b) ==> a.ranks_before(c) || c.ranks_before(b)
}

/// Whether the relation of a type orders the values with a property like a
/// ladder on which several values may share a rung.
pub open spec fn is_weak_order_among<T: Ranked>(property: spec_fn(T) -> bool) -> bool {
    &&& forall|a: T| property(a) ==> !#[trigger] a.ranks_before(a)
    &&& forall|a: T, b: T, c: T|
        #![trigger a.ranks_before(b), b.ranks_before(c)]
        property(a) && property(b) && property(c) && a.ranks_before(b) && b.ranks_before(c)
            ==> a.ranks_before(c)
    &&& forall|a: T, b: T, c: T|
        #![trigger a.ranks_before(b), c.ranks_before(b)]
        #![trigger a.ranks_before(b), a.ranks_before(c)]
        property(a) && property(b) && property(c) && a.ranks_before(b) ==> a.ranks_before(c)
            || c.ranks_before(b)
}

/// In a ranked list of items with a property no item stands behind one that it
/// ranks before.
pub proof fn ranking_is_ordered_among<T: Ranked>(items: Seq<T>, property: spec_fn(T) -> bool)
    requires
        is_weak_order_among(property),
        forall|i: int| 0 <= i < items.len() ==> property(#[trigger] items[i]),
    ensures
        forall|i: int| 0 <= i < ranking(items).len() ==> property(#[trigger] ranking(items)[i]),
        forall|i: int, j: int|
            0 <= i < j < ranking(items).len() ==> !(#[trigger] ranking(items)[j]).ranks_before(
                #[trigger] ranking(items)[i],
            ),
    decreases items.len(),
{
    if items.len() > 0 {
        let shorter = items.drop_last();
        let item = items.last();
        let rest = ranking(shorter);
        ranking_is_ordered_among(shorter, property);
        lemma_slot(rest, item);
        let k = slot(rest, item);
        let all = ranking(items);
        assert forall|i: int| 0 <= i < all.len() implies property(#[trigger] all[i]) by {
            if i < k {
                assert(all[i] == rest[i]);
            } else if i > k {
                assert(all[i] == rest[i - 1]);
            }
        }
        assert forall|i: int, j: int| 0 <= i < j < all.len() implies !(#[trigger] all[j]).ranks_before(
            #[trigger] all[i],
        ) by {
            if j < k {
                assert(all[i] == rest[i] && all[j] == rest[j]);
            } else if j == k {
                assert(all[i] == rest[i] && all[j] == item);
                if i < k - 1 {
                    assert(!rest[k - 1].ranks_before(rest[i]));
                    if item.ranks_before(rest[i]) {
                        assert(item.ranks_before(rest[k - 1]) || rest[k - 1].ranks_before(rest[i]));
                    }
                }
            } else if i < k {
                assert(all[i] == rest[i] && all[j] == rest[j - 1]);
            } else if i == k {
                assert(all[i] == item && all[j] == rest[j - 1]);
                if rest[j - 1].ranks_before(item) {
                    assert(item.ranks_before(rest[j - 1]));
                    assert(item.ranks_before(item));
                }
            } else {
                assert(all[i] == rest[i - 1] && all[j] == rest[j - 1]);
            }
        }
    }
}

/// In a ranked list no item stands behind one that it ranks before.
pub proof fn ranking_is_ordered<T: Ranked>(items: Seq<T>)
    requires
        is_weak_order::<T>(),
    ensures
        forall|i: int, j: int|
            0 <= i < j < ranking(items).len() ==> !(#[trigger] ranking(items)[j]).ranks_before(
                #[trigger] ranking(items)[i],
            ),
{
    ranking_is_ordered_among(items, |item: T| true);
}

/// Brings a list into rank order.
pub fn rank<T: Ranked>(items: &mut Vec<T>)
    ensures
        final(items)@ == ranking(old(items)@),
{
    let ghost all = items@;
    let mut done: usize = 0;
    proof {
        assert(all.take(0) =~= Seq::<T>::empty());
    }
    while done < items.len()
        invariant
            done <= items.len() == all.len(),
            items@.take(done as int) == ranking(all.take(done as int)),
            items@.skip(done as int) == all.skip(done as int),
        decreases all.len() - done,
    {
        let ghost rest = ranking(all.take(done as int));
        let ghost item = all[done as int];
        let ghost before = items@;
        proof {
            assert(item == items@.skip(done as int)[0]);
            assert(rest =~= items@.take(done as int));
            assert(rest.take(done as int) =~= rest);
            lemma_ranking_len(all.take(done as int));
        }
        let mut k: usize = done;
        while k > 0 && items[done].outranks(&items[k - 1])
            invariant
                k <= done < items.len(),
                items@ == before,
                rest.len() == done,
                rest == before.take(done as int),
                item == before[done as int],
                slot(rest, item) == slot(rest.take(k as int), item),
            decreases k,
        {
            proof {
                assert(rest.take(k as int).last() == before[k - 1]);
                assert(rest.take(k as int).drop_last() =~= rest.take(k - 1));
            }
            k = k - 1;
        }
        proof {
            if k > 0 {
                assert(rest.take(k as int).last() == before[k - 1]);
            }
            assert(slot(rest, item) == k);
        }
        let moved = items.remove(done);
        items.insert(k, moved);
        proof {
            let next = all.take(done + 1);
            assert(next.drop_last() =~= all.take(done as int));
            assert(next.last() == item);
            assert(items@.take(done + 1) =~= rest.insert(k as int, item));
            assert(items@.skip(done + 1) =~= all.skip(done + 1)) by {
                assert forall|i: int| 0 <= i < all.len() - done - 1 implies #[trigger] items@.skip(done + 1)[i]
                    == all.skip(done + 1)[i] by {
                    assert(before.skip(done as int)[i + 1] == all.skip(done as int)[i + 1]);
                }
            }
        }
        done = done + 1;
    }
    proof {
        assert(items@.take(done as int) =~= items@);
        assert(all.take(done as int) =~= all);
    }
}

/// A further item leaves the others in their order, and stands directly before the
/// first stretch of items that it outranks: behind every equal one.
pub proof fn later_item_stands_behind_its_equals<T: Ranked>(items: Seq<T>, item: T) -> (place: int)
    ensures
        0 <= place <= ranking(items).len(),
        ranking(items.push(item)).len() == ranking(items).len() + 1,
        ranking(items.push(item))[place] == item,
        forall|j: int|
            0 <= j < place ==> #[trigger] ranking(items.push(item))[j] == ranking(items)[j],
        forall|j: int|
            place <= j < ranking(items).len() ==> #[trigger] ranking(items)[j] == ranking(
                items.push(item),
            )[j + 1],
        place > 0 ==> !item.ranks_before(ranking(items)[place - 1]),
        forall|j: int|
            place <= j < ranking(items).len() ==> item.ranks_before(#[trigger] ranking(items)[j]),
{
    assert(items.push(item).drop_last() =~= items);
    let ranked = ranking(items);
    lemma_slot(ranked, item);
    let place = slot(ranked, item);
    let more = ranked.insert(place, item);
    assert forall|j: int| place <= j < ranked.len() implies #[trigger] ranked[j] == more[j + 1] by {}
    place
}

} // verus!
