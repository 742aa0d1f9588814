//! Sorting and medians of integer keys.

use vstd::prelude::*;
use vstd::relations::sorted_by;
use vstd::relations::total_ordering;
use vstd::seq_lib::lemma_sorted_unique;

verus! {

/// The order of the keys.
pub open spec fn ascending() -> spec_fn(i64, i64) -> bool {
    |a: i64, b: i64| a <= b
}

/// The keys from the smallest to the largest.
pub open spec fn sorted(keys: Seq<i64>) -> Seq<i64> {
    keys.sort_by(ascending())
}

/// The key in the middle of the sorted keys; of two, the larger.
pub open spec fn median_of(keys: Seq<i64>) -> i64 {
    sorted(keys)[keys.len() as int / 2]
}

/// Sorts with `sort_unstable` of the standard library: afterwards the same keys stand
/// in ascending order.
#[verifier::external_body]
fn sort_keys(keys: &mut Vec<i64>)
    ensures
        sorted_by(final(keys)@, ascending()),
        final(keys)@.to_multiset() == old(keys)@.to_multiset(),
{
    keys.sort_unstable();
}

proof fn lemma_sorting_is_unique(keys: Seq<i64>, found: Seq<i64>)
    requires
        sorted_by(found, ascending()),
        found.to_multiset() == keys.to_multiset(),
    ensures
        found == sorted(keys),
        found.len() == keys.len(),
{
    assert(total_ordering(ascending()));
    keys.lemma_sort_by_ensures(ascending());
    lemma_sorted_unique(found, sorted(keys), ascending());
    keys.to_multiset_ensures();
    found.to_multiset_ensures();
}

/// The keys in ascending order.
pub fn sort_ascending(keys: Vec<i64>) -> (list: Vec<i64>)
    ensures
        list@ == sorted(keys@),
        list@.len() == keys@.len(),
{
    let mut list: Vec<i64> = keys;
    let ghost before = list@;
    sort_keys(&mut list);
    proof {
        lemma_sorting_is_unique(before, list@);
    }
    list
}

/// Sorting keeps the keys and puts them in order.
pub proof fn lemma_sorted(keys: Seq<i64>)
    ensures
        sorted(keys).len() == keys.len(),
        sorted(keys).to_multiset() == keys.to_multiset(),
        forall|i: int, j: int|
            0 <= i < j < keys.len() ==> #[trigger] sorted(keys)[i] <= #[trigger] sorted(keys)[j],
{
    assert(total_ordering(ascending()));
    keys.lemma_sort_by_ensures(ascending());
    keys.to_multiset_ensures();
    sorted(keys).to_multiset_ensures();
    assert forall|i: int, j: int| 0 <= i < j < keys.len() implies #[trigger] sorted(keys)[i]
        <= #[trigger] sorted(keys)[j] by {
        assert(ascending()(sorted(keys)[i], sorted(keys)[j]));
    }
}

/// The median of some keys; `None` of none.
pub fn median(keys: Vec<i64>) -> (middle: Option<i64>)
    ensures
        middle == if keys@.len() == 0 {
            None::<i64>
        } else {
            Some(median_of(keys@))
        },
{
    if keys.len() == 0 {
        return None;
    }
    let list: Vec<i64> = sort_ascending(keys);
    let middle: usize = list.len() / 2;
    Some(list[middle])
}

/// The key that nine tenths of the sorted keys do not exceed.
pub open spec fn upper_decile_of(keys: Seq<i64>) -> i64 {
    sorted(keys)[(keys.len() - 1) * 9 / 10]
}

/// The key at the start of the last tenth; `None` of none.
pub fn upper_decile(keys: Vec<i64>) -> (key: Option<i64>)
    requires
        keys@.len() * 9 <= usize::MAX,
    ensures
        key == if keys@.len() == 0 {
            None::<i64>
        } else {
            Some(upper_decile_of(keys@))
        },
{
    if keys.len() == 0 {
        return None;
    }
    let list: Vec<i64> = sort_ascending(keys);
    let position: usize = (list.len() - 1) * 9 / 10;
    Some(list[position])
}

/// The median is one of the keys.
pub proof fn law_median_is_a_key(keys: Seq<i64>)
    requires
        keys.len() > 0,
    ensures
        keys.contains(median_of(keys)),
{
    assert(total_ordering(ascending()));
    keys.lemma_sort_by_ensures(ascending());
    let list = sorted(keys);
    keys.to_multiset_ensures();
    list.to_multiset_ensures();
    assert(list.len() == keys.len());
    assert(list.contains(median_of(keys)));
    assert(list.to_multiset().count(median_of(keys)) > 0);
}

/// How many of the keys have a property.
pub open spec fn tally(keys: Seq<i64>, holds: spec_fn(i64) -> bool) -> int
    decreases keys.len(),
{
    if keys.len() == 0 {
        0
    } else {
        tally(keys.drop_last(), holds) + if holds(keys.last()) {
            1int
        } else {
            0int
        }
    }
}

proof fn lemma_tally_of_remove(keys: Seq<i64>, holds: spec_fn(i64) -> bool, i: int)
    requires
        0 <= i < keys.len(),
    ensures
        tally(keys.remove(i), holds) == tally(keys, holds) - if holds(keys[i]) {
            1int
        } else {
            0int
        },
    decreases keys.len(),
{
    if i == keys.len() - 1 {
        assert(keys.remove(i) =~= keys.drop_last());
    } else {
        assert(keys.remove(i).drop_last() =~= keys.drop_last().remove(i));
        assert(keys.remove(i).last() == keys.last());
        lemma_tally_of_remove(keys.drop_last(), holds, i);
    }
}

/// Keys in another order have the same properties.
proof fn lemma_tally_of_permutation(a: Seq<i64>, b: Seq<i64>, holds: spec_fn(i64) -> bool)
    requires
        a.to_multiset() == b.to_multiset(),
    ensures
        tally(a, holds) == tally(b, holds),
    decreases a.len(),
{
    a.to_multiset_ensures();
    b.to_multiset_ensures();
    if a.len() > 0 {
        let last = a.len() - 1;
        assert(b.to_multiset().count(a[last]) > 0) by {
            assert(a.contains(a[last]));
        }
        let i = choose|i: int| 0 <= i < b.len() && b[i] == a[last];
        assert(a.remove(last) =~= a.drop_last());
        lemma_tally_of_permutation(a.remove(last), b.remove(i), holds);
        lemma_tally_of_remove(b, holds, i);
        lemma_tally_of_remove(a, holds, last);
    }
}

proof fn lemma_tally_bounds(keys: Seq<i64>, holds: spec_fn(i64) -> bool, from: int, to: int)
    requires
        0 <= from <= to <= keys.len(),
        forall|i: int| 0 <= i < keys.len() && holds(#[trigger] keys[i]) ==> from <= i < to,
    ensures
        tally(keys, holds) <= to - from,
    decreases keys.len(),
{
    if keys.len() > 0 {
        let rest = keys.drop_last();
        let last = keys.len() - 1;
        assert forall|i: int| 0 <= i < rest.len() && holds(#[trigger] rest[i]) implies from <= i && i
            < to by {
            assert(holds(keys[i]));
        }
        if holds(keys[last]) {
            assert(from <= last < to);
            lemma_tally_bounds(rest, holds, from, to - 1);
        } else if to == keys.len() {
            if from < to {
                lemma_tally_bounds(rest, holds, from, to - 1);
            } else {
                lemma_no_tally(keys, holds);
            }
        } else {
            lemma_tally_bounds(rest, holds, from, to);
        }
    }
}

proof fn lemma_no_tally(keys: Seq<i64>, holds: spec_fn(i64) -> bool)
    requires
        forall|i: int| 0 <= i < keys.len() ==> !holds(#[trigger] keys[i]),
    ensures
        tally(keys, holds) == 0,
    decreases keys.len(),
{
    if keys.len() > 0 {
        let rest = keys.drop_last();
        assert forall|i: int| 0 <= i < rest.len() implies !holds(#[trigger] rest[i]) by {
            assert(!holds(keys[i]));
        }
        lemma_no_tally(rest, holds);
    }
}

/// Of the keys no more than half are smaller than the median, and fewer than half are larger.
pub proof fn law_median_lies_in_the_middle(keys: Seq<i64>)
    requires
        keys.len() > 0,
    ensures
        2 * tally(keys, |key: i64| key < median_of(keys)) <= keys.len(),
        2 * tally(keys, |key: i64| key > median_of(keys)) < keys.len(),
{
    let n = keys.len() as int;
    let middle = n / 2;
    let list = sorted(keys);
    let smaller = |key: i64| key < median_of(keys);
    let larger = |key: i64| key > median_of(keys);
    lemma_sorted(keys);
    lemma_tally_of_permutation(keys, list, smaller);
    lemma_tally_of_permutation(keys, list, larger);
    assert forall|i: int| 0 <= i < list.len() && smaller(#[trigger] list[i]) implies 0 <= i && i
        < middle by {
        if i > middle {
            assert(list[middle] <= list[i]);
        }
    }
    lemma_tally_bounds(list, smaller, 0, middle);
    assert forall|i: int| 0 <= i < list.len() && larger(#[trigger] list[i]) implies middle + 1 <= i
        && i < n by {
        if i < middle {
            assert(list[i] <= list[middle]);
        }
    }
    lemma_tally_bounds(list, larger, middle + 1, n);
}

/// Nine tenths of the keys at most are smaller than the upper decile, and about a tenth of them
/// is larger. It is itself one of the keys.
pub proof fn law_upper_decile_cuts_off_a_tenth(keys: Seq<i64>)
    requires
        keys.len() > 0,
    ensures
        keys.contains(upper_decile_of(keys)),
        10 * tally(keys, |key: i64| key < upper_decile_of(keys)) <= 9 * (keys.len() - 1),
        10 * tally(keys, |key: i64| key > upper_decile_of(keys)) < keys.len() + 9,
{
    let n = keys.len() as int;
    let place = (n - 1) * 9 / 10;
    let list = sorted(keys);
    let smaller = |key: i64| key < upper_decile_of(keys);
    let larger = |key: i64| key > upper_decile_of(keys);
    lemma_sorted(keys);
    keys.to_multiset_ensures();
    list.to_multiset_ensures();
    assert(list.contains(list[place]));
    assert(list.to_multiset().count(list[place]) > 0);
    lemma_tally_of_permutation(keys, list, smaller);
    lemma_tally_of_permutation(keys, list, larger);
    assert forall|i: int| 0 <= i < list.len() && smaller(#[trigger] list[i]) implies 0 <= i && i
        < place by {
        if i > place {
            assert(list[place] <= list[i]);
        }
    }
    lemma_tally_bounds(list, smaller, 0, place);
    assert forall|i: int| 0 <= i < list.len() && larger(#[trigger] list[i]) implies place + 1 <= i
        && i < n by {
        if i < place {
            assert(list[i] <= list[place]);
        }
    }
    lemma_tally_bounds(list, larger, place + 1, n);
}

/// Sorting keeps every key as often as it was there, and no key is larger than a later one.
pub proof fn law_sorting_keeps_the_keys(keys: Seq<i64>, i: int, j: int)
    ensures
        sorted(keys).to_multiset() == keys.to_multiset(),
        sorted(keys).len() == keys.len(),
        0 <= i <= j < keys.len() ==> sorted(keys)[i] <= sorted(keys)[j],
{
    keys.lemma_sort_by_ensures(ascending());
    sorted(keys).to_multiset_ensures();
    keys.to_multiset_ensures();
    if 0 <= i < j < keys.len() {
        assert(ascending()(sorted(keys)[i], sorted(keys)[j]));
    }
}

} // verus!
