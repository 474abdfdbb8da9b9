//! Stable sorting.
use vstd::prelude::*;

verus! {

/// `places` names each of the first `n` places once.
pub open spec fn is_arrangement(places: Seq<int>, n: nat) -> bool {
    &&& places.len() == n
    &&& forall|i: int| 0 <= i < places.len() ==> 0 <= #[trigger] places[i] < n
    &&& forall|i: int, j: int| 0 <= i < j < places.len() ==> places[i] != places[j]
}

/// The items of `input` at the given places, in the order of the places.
pub open spec fn picked<A>(input: Seq<A>, places: Seq<int>) -> Seq<A> {
    Seq::new(places.len(), |i: int| input[places[i]])
}

/// `output` holds the items of `input`, each as often, in any order.
pub open spec fn rearranges<A>(output: Seq<A>, input: Seq<A>) -> bool {
    exists|places: Seq<int>| #[trigger]
        is_arrangement(places, input.len()) && output == picked(input, places)
}

/// The item at place `i` belongs before the one at place `j`: it comes first in the order, or the
/// order does not tell the two apart and it came first in `input`.
pub open spec fn goes_first<A>(
    input: Seq<A>,
    before: spec_fn(A, A) -> bool,
    i: int,
    j: int,
) -> bool {
    ||| before(input[i], input[j])
    ||| !before(input[j], input[i]) && i < j
}

/// The places are listed in the order in which their items belong.
pub open spec fn lists_in_order<A>(
    places: Seq<int>,
    input: Seq<A>,
    before: spec_fn(A, A) -> bool,
) -> bool {
    forall|i: int, j: int|
        0 <= i < j < places.len() ==> #[trigger] goes_first(input, before, places[i], places[j])
}

/// `output` is `input` sorted by `before`, items that the order does not tell apart keeping their
/// order.
pub open spec fn sorts_stably<A>(
    output: Seq<A>,
    input: Seq<A>,
    before: spec_fn(A, A) -> bool,
) -> bool {
    exists|places: Seq<int>| #[trigger]
        is_arrangement(places, input.len()) && output == picked(input, places) && lists_in_order(
            places,
            input,
            before,
        )
}

/// `before` ranks the items of `input`: it never holds both ways, and what it does not tell apart
/// it treats alike.
pub open spec fn ranks<A>(input: Seq<A>, before: spec_fn(A, A) -> bool) -> bool {
    &&& forall|i: int, j: int|
        0 <= i < input.len() && 0 <= j < input.len() && #[trigger] before(input[i], input[j])
            ==> !before(input[j], input[i])
    &&& forall|i: int, j: int, k: int|
        0 <= i < input.len() && 0 <= j < input.len() && 0 <= k < input.len() && #[trigger] before(
            input[i],
            input[k],
        ) ==> #[trigger] before(input[i], input[j]) || before(input[j], input[k])
}

/// Where items are ranked, places have one order.
proof fn lemma_goes_first_transitive<A>(
    input: Seq<A>,
    before: spec_fn(A, A) -> bool,
    i: int,
    j: int,
    k: int,
)
    requires
        ranks(input, before),
        0 <= i < input.len(),
        0 <= j < input.len(),
        0 <= k < input.len(),
        goes_first(input, before, i, j),
        goes_first(input, before, j, k),
    ensures
        goes_first(input, before, i, k),
{
    if before(input[k], input[i]) {
        assert(before(input[k], input[j]) || before(input[j], input[i]));
    }
    if before(input[i], input[j]) {
        assert(before(input[i], input[k]) || before(input[k], input[j]));
    }
    if before(input[j], input[k]) {
        assert(before(input[j], input[i]) || before(input[i], input[k]));
    }
}

/// Sorting only rearranges.
pub proof fn lemma_sorted_is_rearranged<A>(
    output: Seq<A>,
    input: Seq<A>,
    before: spec_fn(A, A) -> bool,
)
    requires
        sorts_stably(output, input, before),
    ensures
        rearranges(output, input),
{
}

/// An arrangement leaves no place out.
pub proof fn lemma_arrangement_covers(places: Seq<int>, n: nat, place: int)
    requires
        is_arrangement(places, n),
        0 <= place < n,
    ensures
        exists|i: int| 0 <= i < places.len() && #[trigger] places[i] == place,
{
    let range = vstd::set_lib::set_int_range(0, n as int);
    let named = places.to_set();
    assert(places.no_duplicates());
    places.unique_seq_to_set();
    vstd::set_lib::lemma_int_range(0, n as int);
    assert(named.subset_of(range)) by {
        assert forall|p: int| named.contains(p) implies range.contains(p) by {
            assert(places.contains(p));
        }
    }
    vstd::set_lib::lemma_subset_equality(named, range);
    assert(named.contains(place));
    assert(places.contains(place));
}

/// A key by which things are sorted.
pub trait SortKey: Sized {
    spec fn precedes(self, other: Self) -> bool;

    fn is_before(&self, other: &Self) -> (r: bool)
        ensures
            r == self.precedes(*other),
    ;
}

/// The order of keys.
pub open spec fn key_order<K: SortKey>() -> spec_fn(K, K) -> bool {
    |a: K, b: K| a.precedes(b)
}

/// A list of places in ghost code.
pub open spec fn as_places(places: Seq<usize>) -> Seq<int> {
    places.map_values(|place: usize| place as int)
}

/// `places` names each place from `low` up to `high` once, in order where `keys` are ranked.
spec fn sorts_range<K: SortKey>(
    places: Seq<usize>,
    keys: Seq<K>,
    low: int,
    high: int,
) -> bool {
    &&& places.len() == high - low
    &&& forall|i: int| 0 <= i < places.len() ==> low <= #[trigger] places[i] < high
    &&& forall|i: int, j: int| 0 <= i < j < places.len() ==> places[i] != places[j]
    &&& ranks(keys, key_order::<K>()) ==> forall|i: int, j: int|
        0 <= i < j < places.len() ==> #[trigger] goes_first(
            keys,
            key_order::<K>(),
            places[i] as int,
            places[j] as int,
        )
}

/// What holds while two sorted runs are merged: `merged` has come from the first `taken_left` and
/// `taken_right` places of the runs, and belongs before everything that is left.
spec fn merges<K: SortKey>(
    merged: Seq<usize>,
    keys: Seq<K>,
    left: Seq<usize>,
    right: Seq<usize>,
    taken_left: int,
    taken_right: int,
) -> bool {
    &&& 0 <= taken_left <= left.len()
    &&& 0 <= taken_right <= right.len()
    &&& merged.len() == taken_left + taken_right
    &&& forall|i: int|
        0 <= i < merged.len() ==> (exists|x: int|
            0 <= x < taken_left && left[x] == #[trigger] merged[i]) || (exists|y: int|
            0 <= y < taken_right && right[y] == merged[i])
    &&& forall|i: int, j: int| 0 <= i < j < merged.len() ==> merged[i] != merged[j]
    &&& ranks(keys, key_order::<K>()) ==> {
        &&& forall|i: int, j: int|
            0 <= i < j < merged.len() ==> #[trigger] goes_first(
                keys,
                key_order::<K>(),
                merged[i] as int,
                merged[j] as int,
            )
        &&& forall|i: int, x: int|
            0 <= i < merged.len() && taken_left <= x < left.len() ==> #[trigger] goes_first(
                keys,
                key_order::<K>(),
                merged[i] as int,
                left[x] as int,
            )
        &&& forall|i: int, y: int|
            0 <= i < merged.len() && taken_right <= y < right.len() ==> #[trigger] goes_first(
                keys,
                key_order::<K>(),
                merged[i] as int,
                right[y] as int,
            )
    }
}

proof fn lemma_merge_takes_left<K: SortKey>(
    merged: Seq<usize>,
    keys: Seq<K>,
    left: Seq<usize>,
    right: Seq<usize>,
    low: int,
    middle: int,
    high: int,
    a: int,
    b: int,
)
    requires
        0 <= low <= middle <= high <= keys.len(),
        sorts_range(left, keys, low, middle),
        sorts_range(right, keys, middle, high),
        merges(merged, keys, left, right, a, b),
        a < left.len(),
        b < right.len() ==> !keys[right[b] as int].precedes(keys[left[a] as int]),
    ensures
        merges(merged.push(left[a]), keys, left, right, a + 1, b),
{
    let next = merged.push(left[a]);
    let before = key_order::<K>();
    assert forall|i: int| 0 <= i < next.len() implies (exists|x: int|
        0 <= x < a + 1 && left[x] == #[trigger] next[i]) || (exists|y: int|
        0 <= y < b && right[y] == next[i]) by {
        if i < merged.len() {
            assert(next[i] == merged[i]);
            if exists|x: int| 0 <= x < a && left[x] == merged[i] {
                let x = choose|x: int| 0 <= x < a && left[x] == merged[i];
                assert(left[x] == next[i]);
            }
        } else {
            assert(left[a] == next[i]);
        }
    }
    assert forall|i: int, j: int| 0 <= i < j < next.len() implies next[i] != next[j] by {
        if j == merged.len() {
            assert(next[i] == merged[i]);
            if exists|x: int| 0 <= x < a && left[x] == merged[i] {
                let x = choose|x: int| 0 <= x < a && left[x] == merged[i];
                assert(left[x] != left[a]);
            } else {
                let y = choose|y: int| 0 <= y < b && right[y] == merged[i];
                assert(middle <= right[y]);
                assert(left[a] < middle);
            }
        }
    }
    if ranks(keys, before) {
        assert forall|y: int| b <= y < right.len() implies #[trigger] goes_first(
            keys,
            before,
            left[a] as int,
            right[y] as int,
        ) by {
            assert(left[a] < middle <= right[b]);
            assert(goes_first(keys, before, left[a] as int, right[b] as int));
            if b < y {
                assert(goes_first(keys, before, right[b] as int, right[y] as int));
                lemma_goes_first_transitive(
                    keys,
                    before,
                    left[a] as int,
                    right[b] as int,
                    right[y] as int,
                );
            }
        }
    }
}

proof fn lemma_merge_takes_right<K: SortKey>(
    merged: Seq<usize>,
    keys: Seq<K>,
    left: Seq<usize>,
    right: Seq<usize>,
    low: int,
    middle: int,
    high: int,
    a: int,
    b: int,
)
    requires
        0 <= low <= middle <= high <= keys.len(),
        sorts_range(left, keys, low, middle),
        sorts_range(right, keys, middle, high),
        merges(merged, keys, left, right, a, b),
        b < right.len(),
        a < left.len() ==> keys[right[b] as int].precedes(keys[left[a] as int]),
    ensures
        merges(merged.push(right[b]), keys, left, right, a, b + 1),
{
    let next = merged.push(right[b]);
    let before = key_order::<K>();
    assert forall|i: int| 0 <= i < next.len() implies (exists|x: int|
        0 <= x < a && left[x] == #[trigger] next[i]) || (exists|y: int|
        0 <= y < b + 1 && right[y] == next[i]) by {
        if i < merged.len() {
            assert(next[i] == merged[i]);
            if exists|x: int| 0 <= x < a && left[x] == merged[i] {
            } else {
                let y = choose|y: int| 0 <= y < b && right[y] == merged[i];
                assert(right[y] == next[i]);
            }
        } else {
            assert(right[b] == next[i]);
        }
    }
    assert forall|i: int, j: int| 0 <= i < j < next.len() implies next[i] != next[j] by {
        if j == merged.len() {
            assert(next[i] == merged[i]);
            if exists|x: int| 0 <= x < a && left[x] == merged[i] {
                let x = choose|x: int| 0 <= x < a && left[x] == merged[i];
                assert(left[x] < middle);
                assert(middle <= right[b]);
            } else {
                let y = choose|y: int| 0 <= y < b && right[y] == merged[i];
                assert(right[y] != right[b]);
            }
        }
    }
    if ranks(keys, before) {
        assert forall|x: int| a <= x < left.len() implies #[trigger] goes_first(
            keys,
            before,
            right[b] as int,
            left[x] as int,
        ) by {
            assert(goes_first(keys, before, right[b] as int, left[a] as int));
            if a < x {
                assert(goes_first(keys, before, left[a] as int, left[x] as int));
                lemma_goes_first_transitive(
                    keys,
                    before,
                    right[b] as int,
                    left[a] as int,
                    left[x] as int,
                );
            }
        }
    }
}

/// Sorts the places from `low` up to `high` by their keys.
fn sort_range<K: SortKey>(keys: &Vec<K>, low: usize, high: usize) -> (places: Vec<usize>)
    requires
        low <= high <= keys.len(),
    ensures
        sorts_range(places@, keys@, low as int, high as int),
    decreases high - low,
{
    let mut merged: Vec<usize> = Vec::new();
    if high - low == 0 {
        return merged;
    }
    if high - low == 1 {
        merged.push(low);
        return merged;
    }
    let middle: usize = low + (high - low) / 2;
    let left = sort_range(keys, low, middle);
    let right = sort_range(keys, middle, high);
    let mut a: usize = 0;
    let mut b: usize = 0;
    while a < left.len() || b < right.len()
        invariant
            low <= middle <= high <= keys.len(),
            sorts_range(left@, keys@, low as int, middle as int),
            sorts_range(right@, keys@, middle as int, high as int),
            a <= left.len(),
            b <= right.len(),
            merges(merged@, keys@, left@, right@, a as int, b as int),
        decreases left.len() - a + right.len() - b,
    {
        let take_right: bool = if a == left.len() {
            true
        } else if b == right.len() {
            false
        } else {
            assert(left@[a as int] < middle);
            assert(right@[b as int] < high);
            keys[right[b]].is_before(&keys[left[a]])
        };
        if take_right {
            proof {
                lemma_merge_takes_right(
                    merged@,
                    keys@,
                    left@,
                    right@,
                    low as int,
                    middle as int,
                    high as int,
                    a as int,
                    b as int,
                );
            }
            merged.push(right[b]);
            b = b + 1;
        } else {
            proof {
                lemma_merge_takes_left(
                    merged@,
                    keys@,
                    left@,
                    right@,
                    low as int,
                    middle as int,
                    high as int,
                    a as int,
                    b as int,
                );
            }
            merged.push(left[a]);
            a = a + 1;
        }
    }
    assert forall|i: int| 0 <= i < merged.len() implies low <= #[trigger] merged@[i] < high by {
        if exists|x: int| 0 <= x < a && left@[x] == merged@[i] {
            let x = choose|x: int| 0 <= x < a && left@[x] == merged@[i];
            assert(low <= left@[x] < middle);
        } else {
            let y = choose|y: int| 0 <= y < b && right@[y] == merged@[i];
            assert(middle <= right@[y] < high);
        }
    }
    merged
}

/// The places of `keys` in the order in which their keys belong, equal keys in their given order.
///
/// Where the keys are not ranked, the places come out in some order.
pub fn stable_order<K: SortKey>(keys: &Vec<K>) -> (places: Vec<usize>)
    ensures
        is_arrangement(as_places(places@), keys@.len()),
        ranks(keys@, key_order::<K>()) ==> lists_in_order(
            as_places(places@),
            keys@,
            key_order::<K>(),
        ),
{
    let places = sort_range(keys, 0, keys.len());
    proof {
        let listed = as_places(places@);
        assert forall|i: int, j: int| 0 <= i < j < listed.len() implies listed[i] != listed[j] by {
            assert(places@[i] != places@[j]);
        }
        if ranks(keys@, key_order::<K>()) {
            assert forall|i: int, j: int| 0 <= i < j < listed.len() implies #[trigger] goes_first(
                keys@,
                key_order::<K>(),
                listed[i],
                listed[j],
            ) by {
                assert(goes_first(keys@, key_order::<K>(), places@[i] as int, places@[j] as int));
            }
        }
    }
    places
}

} // verus!
