//! Why the order of a listing does not depend on the order of what is
//! listed: two listings of the same results agree.

use crate::bytes::{bytes_precede, lemma_bytes_order, lemma_bytes_precede_transitive};
use crate::boundaries::Target;
use crate::filter::{evaluation, matches_of, matches_upto, FilterMatch};
use crate::rank::{is_listing_of, ranks_before, ranks_with};
use crate::score::cached_index;
use vstd::prelude::*;
use vstd::string::*;
use vstd::relations::total_ordering;
use vstd::seq_lib::lemma_sorted_unique;
use vstd::utf8::*;

verus! {

/// Whether `moved` holds the elements of `given` in another order,
/// `places[i]` being the place in `given` of the element at place `i` of
/// `moved`.
pub open spec fn is_rearrangement<A>(moved: Seq<A>, given: Seq<A>, places: Seq<int>) -> bool {
    &&& moved.len() == given.len()
    &&& places.len() == given.len()
    &&& forall|i: int|
        0 <= i < moved.len() ==> 0 <= #[trigger] places[i] < given.len() && moved[i]
            == given[places[i]]
    &&& forall|i: int, j: int|
        0 <= i < j < moved.len() ==> #[trigger] places[i] != #[trigger] places[j]
}

/// What decides the place of a result in a listing: its score and the bytes
/// of its text.
pub open spec fn rank_key(result: FilterMatch) -> (int, Seq<u8>) {
    (result.score, encode_utf8(result.item))
}

/// The keys of the results.
pub open spec fn rank_keys(results: Seq<FilterMatch>) -> Seq<(int, Seq<u8>)> {
    results.map_values(|result: FilterMatch| rank_key(result))
}

/// Whether a result with the key `a` may stand before one with the key `b`:
/// it has the higher score, or the same score and a text that is not less.
pub open spec fn key_leads(a: (int, Seq<u8>), b: (int, Seq<u8>)) -> bool {
    ||| a.0 > b.0
    ||| a.0 == b.0 && (bytes_precede(b.1, a.1) || a.1 == b.1)
}

/// A sequence in another order has the same elements, each as often.
pub proof fn lemma_rearrangement_keeps_elements<A>(moved: Seq<A>, given: Seq<A>, places: Seq<int>)
    requires
        is_rearrangement(moved, given, places),
    ensures
        moved.to_multiset() == given.to_multiset(),
    decreases moved.len(),
{
    broadcast use vstd::multiset::group_multiset_axioms;

    moved.to_multiset_ensures();
    given.to_multiset_ensures();
    if moved.len() == 0 {
        assert(moved =~= given);
    } else {
        let n = moved.len() - 1;
        let at = places[n];
        let fewer = given.remove(at);
        let front = moved.drop_last();
        let shifted = Seq::new(
            n as nat,
            |i: int|
                if places[i] < at {
                    places[i]
                } else {
                    places[i] - 1
                },
        );
        assert forall|i: int| 0 <= i < front.len() implies 0 <= #[trigger] shifted[i] < fewer.len()
            && front[i] == fewer[shifted[i]] by {
            assert(places[i] != places[n]);
        }
        assert forall|i: int, j: int| 0 <= i < j < front.len() implies #[trigger] shifted[i]
            != #[trigger] shifted[j] by {
            assert(places[i] != places[j]);
            assert(places[i] != places[n]);
            assert(places[j] != places[n]);
        }
        lemma_rearrangement_keeps_elements(front, fewer, shifted);
        front.to_multiset_ensures();
        assert(moved =~= front.push(moved[n]));
        assert(moved.to_multiset() =~= front.to_multiset().insert(moved[n]));
        assert(fewer.to_multiset() =~= given.to_multiset().remove(given[at]));
        assert(given.contains(given[at]));
        assert(given.to_multiset().count(given[at]) > 0);
        assert(given.to_multiset().remove(given[at]).insert(given[at]) =~= given.to_multiset());
    }
}

/// The order of keys is total.
pub proof fn lemma_key_order_is_total()
    ensures
        total_ordering(|a: (int, Seq<u8>), b: (int, Seq<u8>)| key_leads(a, b)),
{
    let leads = |a: (int, Seq<u8>), b: (int, Seq<u8>)| key_leads(a, b);
    assert forall|x: (int, Seq<u8>), y: (int, Seq<u8>)| #[trigger] leads(x, y) && #[trigger] leads(
        y,
        x,
    ) implies x == y by {
        lemma_bytes_order(x.1, y.1);
    }
    assert forall|x: (int, Seq<u8>), y: (int, Seq<u8>), z: (int, Seq<u8>)| #[trigger] leads(x, y)
        && #[trigger] leads(y, z) implies leads(x, z) by {
        if x.0 == y.0 && y.0 == z.0 && x.1 != y.1 && y.1 != z.1 {
            lemma_bytes_precede_transitive(z.1, y.1, x.1);
        }
    }
    assert forall|x: (int, Seq<u8>), y: (int, Seq<u8>)| #[trigger] leads(x, y) || #[trigger] leads(
        y,
        x,
    ) by {
        lemma_bytes_order(x.1, y.1);
    }
    assert forall|x: (int, Seq<u8>)| #[trigger] leads(x, x) by {}
}

/// Those of the values that `pick` gives for the elements of `given`, in
/// the order of the elements.
pub open spec fn picked<A, B>(given: Seq<A>, pick: spec_fn(A) -> Option<B>) -> Seq<B>
    decreases given.len(),
{
    if given.len() == 0 {
        Seq::empty()
    } else {
        match pick(given.last()) {
            Some(value) => picked(given.drop_last(), pick).push(value),
            None => picked(given.drop_last(), pick),
        }
    }
}

/// Taking an element out of a sequence takes what is picked for it, if
/// anything is, out of what is picked for the sequence, and nothing else.
pub proof fn lemma_picked_without<A, B>(given: Seq<A>, pick: spec_fn(A) -> Option<B>, at: int)
    requires
        0 <= at < given.len(),
    ensures
        picked(given, pick).to_multiset() == match pick(given[at]) {
            Some(value) => picked(given.remove(at), pick).to_multiset().insert(value),
            None => picked(given.remove(at), pick).to_multiset(),
        },
    decreases given.len(),
{
    broadcast use vstd::multiset::group_multiset_axioms;

    let front = given.drop_last();
    if at == given.len() - 1 {
        assert(given.remove(at) =~= front);
        picked(front, pick).to_multiset_ensures();
    } else {
        let fewer = given.remove(at);
        assert(fewer.drop_last() =~= front.remove(at));
        assert(fewer.last() == given.last());
        lemma_picked_without(front, pick, at);
        picked(front, pick).to_multiset_ensures();
        picked(front.remove(at), pick).to_multiset_ensures();
        match pick(given.last()) {
            Some(last) => {
                match pick(given[at]) {
                    Some(value) => {
                        assert(picked(front.remove(at), pick).to_multiset().insert(value).insert(
                            last,
                        ) =~= picked(front.remove(at), pick).to_multiset().insert(last).insert(
                            value,
                        ));
                    },
                    None => {},
                }
            },
            None => {},
        }
    }
}

/// What is picked for a sequence has the same elements, each as often,
/// whatever the order of the sequence.
pub proof fn lemma_picked_elements<A, B>(
    given: Seq<A>,
    other: Seq<A>,
    pick: spec_fn(A) -> Option<B>,
)
    requires
        given.to_multiset() == other.to_multiset(),
    ensures
        picked(given, pick).to_multiset() == picked(other, pick).to_multiset(),
    decreases given.len(),
{
    broadcast use vstd::multiset::group_multiset_axioms;

    given.to_multiset_ensures();
    other.to_multiset_ensures();
    if given.len() == 0 {
        assert(other.len() == 0);
        assert(given =~= other);
    } else {
        let last = given.last();
        let front = given.drop_last();
        front.to_multiset_ensures();
        assert(given =~= front.push(last));
        assert(given.to_multiset() =~= front.to_multiset().insert(last));
        assert(given.contains(last));
        assert(given.to_multiset().count(last) > 0);
        assert(other.to_multiset().count(last) > 0);
        assert(other.contains(last));
        let at = choose|at: int| 0 <= at < other.len() && other[at] == last;
        let fewer = other.remove(at);
        assert(fewer.to_multiset() =~= other.to_multiset().remove(last));
        assert(front.to_multiset().insert(last).remove(last) =~= front.to_multiset());
        lemma_picked_elements(front, fewer, pick);
        lemma_picked_without(other, pick, at);
        picked(front, pick).to_multiset_ensures();
    }
}

/// Picking a value for every element is giving each element its value.
pub proof fn lemma_picked_all<A, B>(given: Seq<A>, value_of: spec_fn(A) -> B)
    ensures
        picked(given, |element: A| Some(value_of(element))) == given.map_values(value_of),
    decreases given.len(),
{
    let pick = |element: A| Some(value_of(element));
    if given.len() == 0 {
        assert(picked(given, pick) =~= given.map_values(value_of));
    } else {
        lemma_picked_all(given.drop_last(), value_of);
        assert(given.drop_last().map_values(value_of).push(value_of(given.last()))
            =~= given.map_values(value_of));
    }
}

/// The scores and texts of a listing come in one order, whatever the order
/// in which the results were given: two listings, one of results and one of
/// the same results in another order, have the same scores and texts at
/// every place.
pub proof fn lemma_listing_order_is_fixed(
    listed: Seq<FilterMatch>,
    given: Seq<FilterMatch>,
    places: Seq<int>,
    other_listed: Seq<FilterMatch>,
    other_given: Seq<FilterMatch>,
    other_places: Seq<int>,
)
    requires
        is_listing_of(listed, given, places),
        is_listing_of(other_listed, other_given, other_places),
        given.to_multiset() == other_given.to_multiset(),
    ensures
        rank_keys(listed) == rank_keys(other_listed),
{
    let leads = |a: (int, Seq<u8>), b: (int, Seq<u8>)| key_leads(a, b);
    let key_of = |result: FilterMatch| rank_key(result);
    lemma_key_order_is_total();
    assert(is_rearrangement(rank_keys(listed), rank_keys(given), places));
    assert(is_rearrangement(rank_keys(other_listed), rank_keys(other_given), other_places));
    lemma_rearrangement_keeps_elements(rank_keys(listed), rank_keys(given), places);
    lemma_rearrangement_keeps_elements(
        rank_keys(other_listed),
        rank_keys(other_given),
        other_places,
    );
    lemma_picked_elements(given, other_given, |result: FilterMatch| Some(key_of(result)));
    lemma_picked_all(given, key_of);
    lemma_picked_all(other_given, key_of);
    assert(rank_keys(given) =~= given.map_values(key_of));
    assert(rank_keys(other_given) =~= other_given.map_values(key_of));
    assert forall|i: int, j: int| 0 <= i < j < listed.len() implies #[trigger] leads(
        rank_keys(listed)[i],
        rank_keys(listed)[j],
    ) by {
        assert(ranks_before(listed[i], listed[j]) || ranks_with(listed[i], listed[j]));
    }
    assert forall|i: int, j: int| 0 <= i < j < other_listed.len() implies #[trigger] leads(
        rank_keys(other_listed)[i],
        rank_keys(other_listed)[j],
    ) by {
        assert(ranks_before(other_listed[i], other_listed[j]) || ranks_with(
            other_listed[i],
            other_listed[j],
        ));
    }
    lemma_sorted_unique(rank_keys(listed), rank_keys(other_listed), leads);
}

/// Where results of one score and text are one result, the listing itself
/// is the same, whatever the order in which the results were given.
pub proof fn lemma_listing_is_fixed(
    listed: Seq<FilterMatch>,
    given: Seq<FilterMatch>,
    places: Seq<int>,
    other_listed: Seq<FilterMatch>,
    other_given: Seq<FilterMatch>,
    other_places: Seq<int>,
)
    requires
        is_listing_of(listed, given, places),
        is_listing_of(other_listed, other_given, other_places),
        given.to_multiset() == other_given.to_multiset(),
        forall|i: int, j: int|
            0 <= i < given.len() && 0 <= j < given.len() && ranks_with(
                #[trigger] given[i],
                #[trigger] given[j],
            ) ==> given[i] == given[j],
    ensures
        listed == other_listed,
{
    broadcast use vstd::multiset::group_multiset_axioms;

    lemma_listing_order_is_fixed(listed, given, places, other_listed, other_given, other_places);
    given.to_multiset_ensures();
    other_given.to_multiset_ensures();
    assert forall|i: int| 0 <= i < listed.len() implies listed[i] == other_listed[i] by {
        let a = given[places[i]];
        let b = other_given[other_places[i]];
        assert(listed[i] == a);
        assert(other_listed[i] == b);
        assert(other_given.contains(b));
        assert(other_given.to_multiset().count(b) > 0);
        assert(given.to_multiset().count(b) > 0);
        assert(given.contains(b));
        let at = choose|at: int| 0 <= at < given.len() && given[at] == b;
        assert(rank_keys(listed)[i] == rank_keys(other_listed)[i]);
        encode_utf8_decode_utf8(a.item);
        encode_utf8_decode_utf8(b.item);
        assert(ranks_with(given[places[i]], given[at]));
    }
    assert(listed =~= other_listed);
}

/// The results for items are what is picked for them by evaluation.
pub proof fn lemma_matches_are_picked(items: Seq<Target<'_>>, key: Seq<char>, n: int)
    requires
        0 <= n <= items.len(),
    ensures
        matches_upto(items, key, n) == picked(
            items.take(n),
            |target: Target<'_>| evaluation(target.0@, cached_index(target), key),
        ),
    decreases n,
{
    let pick = |target: Target<'_>| evaluation(target.0@, cached_index(target), key);
    if n > 0 {
        lemma_matches_are_picked(items, key, n - 1);
        assert(items.take(n).drop_last() =~= items.take(n - 1));
        assert(items.take(n).last() == items[n - 1]);
    }
}

/// Every result for items is the result for one of them.
pub proof fn lemma_matches_come_from_items(items: Seq<Target<'_>>, key: Seq<char>, n: int)
    requires
        0 <= n <= items.len(),
    ensures
        forall|k: int|
            0 <= k < matches_upto(items, key, n).len() ==> exists|i: int|
                0 <= i < n && evaluation(items[i].0@, cached_index(items[i]), key) == Some(
                    #[trigger] matches_upto(items, key, n)[k],
                ),
    decreases n,
{
    if n > 0 {
        lemma_matches_come_from_items(items, key, n - 1);
        let before = matches_upto(items, key, n - 1);
        let now = matches_upto(items, key, n);
        assert forall|k: int| 0 <= k < now.len() implies exists|i: int|
            0 <= i < n && evaluation(items[i].0@, cached_index(items[i]), key) == Some(
                #[trigger] now[k],
            ) by {
            if k < before.len() {
                let i = choose|i: int|
                    0 <= i < n - 1 && evaluation(items[i].0@, cached_index(items[i]), key) == Some(
                        before[k],
                    );
                assert(evaluation(items[i].0@, cached_index(items[i]), key) == Some(now[k]));
            } else {
                assert(evaluation(items[n - 1].0@, cached_index(items[n - 1]), key) == Some(
                    now[k],
                ));
            }
        }
    }
}

/// Items that carry no boundary index of their own have one result for one
/// text: two of their results with the same score and text are one result.
pub proof fn lemma_plain_items_have_one_result(items: Seq<Target<'_>>, key: Seq<char>)
    requires
        forall|i: int| 0 <= i < items.len() ==> (#[trigger] items[i]).1 is None,
    ensures
        forall|i: int, j: int|
            0 <= i < matches_of(items, key).len() && 0 <= j < matches_of(items, key).len()
                && ranks_with(
                #[trigger] matches_of(items, key)[i],
                #[trigger] matches_of(items, key)[j],
            ) ==> matches_of(items, key)[i] == matches_of(items, key)[j],
{
    let results = matches_of(items, key);
    lemma_matches_come_from_items(items, key, items.len() as int);
    assert forall|i: int, j: int|
        0 <= i < results.len() && 0 <= j < results.len() && ranks_with(
            #[trigger] results[i],
            #[trigger] results[j],
        ) implies results[i] == results[j] by {
        let a = choose|a: int|
            0 <= a < items.len() && evaluation(items[a].0@, cached_index(items[a]), key) == Some(
                results[i],
            );
        let b = choose|b: int|
            0 <= b < items.len() && evaluation(items[b].0@, cached_index(items[b]), key) == Some(
                results[j],
            );
        assert(items[a].1 is None && items[b].1 is None);
        assert(results[i].item == items[a].0@);
        assert(results[j].item == items[b].0@);
    }
}

/// A query lists the same results in the same order, whatever the order of
/// the items, where results of one score and text are one result: the
/// listings of items and of the same items in another order are the same.
pub proof fn lemma_filter_is_fixed(
    items: Seq<Target<'_>>,
    other_items: Seq<Target<'_>>,
    key: Seq<char>,
    listed: Seq<FilterMatch>,
    places: Seq<int>,
    other_listed: Seq<FilterMatch>,
    other_places: Seq<int>,
)
    requires
        items.to_multiset() == other_items.to_multiset(),
        is_listing_of(listed, matches_of(items, key), places),
        is_listing_of(other_listed, matches_of(other_items, key), other_places),
        forall|i: int, j: int|
            0 <= i < matches_of(items, key).len() && 0 <= j < matches_of(items, key).len()
                && ranks_with(
                #[trigger] matches_of(items, key)[i],
                #[trigger] matches_of(items, key)[j],
            ) ==> matches_of(items, key)[i] == matches_of(items, key)[j],
    ensures
        listed == other_listed,
{
    let pick = |target: Target<'_>| evaluation(target.0@, cached_index(target), key);
    lemma_matches_are_picked(items, key, items.len() as int);
    lemma_matches_are_picked(other_items, key, other_items.len() as int);
    assert(items.take(items.len() as int) =~= items);
    assert(other_items.take(other_items.len() as int) =~= other_items);
    lemma_picked_elements(items, other_items, pick);
    lemma_listing_is_fixed(
        listed,
        matches_of(items, key),
        places,
        other_listed,
        matches_of(other_items, key),
        other_places,
    );
}

} // verus!
