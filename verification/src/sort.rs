//! Four elementary in-place sort routines over slices.
//!
//! Each routine rearranges the slice in place: the multiset of values is
//! always preserved, and whenever the element type's comparison behaves
//! as a total order (`obeys_cmp`), the result is sorted in non-decreasing
//! order of that comparison.

use vstd::prelude::*;

verus! {

use core::cmp::Ordering;
use vstd::laws_cmp::obeys_cmp;
use vstd::laws_cmp::obeys_cmp_ord;
use vstd::laws_cmp::obeys_cmp_partial_ord;
use vstd::laws_cmp::obeys_partial_cmp_spec_properties;
use vstd::laws_eq::obeys_eq_spec_properties;
use vstd::std_specs::cmp::PartialEqSpec;
use vstd::std_specs::cmp::PartialOrdSpec;
use vstd::seq_lib::to_multiset_update;

/// Relies on `<[T]>::swap`: it exchanges the elements at the two given
/// positions and panics only when a position is out of bounds, which the
/// precondition rules out.
#[verifier::external_body]
fn swap_in_slice<T>(slice: &mut [T], a: usize, b: usize)
    requires
        a < old(slice)@.len(),
        b < old(slice)@.len(),
    ensures
        final(slice)@ == old(slice)@.update(a as int, old(slice)@[b as int]).update(
            b as int,
            old(slice)@[a as int],
        ),
{
    slice.swap(a, b)
}

/// `x` is less than or equal to `y` under the element type's ordering.
pub open spec fn le_spec<T: PartialOrd>(x: T, y: T) -> bool {
    x.partial_cmp_spec(&y) matches Some(Ordering::Less | Ordering::Equal)
}

/// The sequence is in non-decreasing order under the element ordering.
pub open spec fn sorted_by_le<T: PartialOrd>(s: Seq<T>) -> bool {
    forall|i: int, j: int| 0 <= i < j < s.len() ==> #[trigger] le_spec(s[i], s[j])
}

/// Exchanging two positions of a sequence keeps its multiset of values.
pub proof fn lemma_swap_preserves_multiset<T>(s: Seq<T>, a: int, b: int)
    requires
        0 <= a < s.len(),
        0 <= b < s.len(),
    ensures
        s.update(a, s[b]).update(b, s[a]).to_multiset() == s.to_multiset(),
{
    broadcast use to_multiset_update;
    broadcast use vstd::multiset::group_multiset_axioms;

    if a == b {
        assert(s.update(a, s[b]).update(b, s[a]) =~= s);
    } else {
        let s1 = s.update(a, s[b]);
        assert(s1[b] == s[b]);
        assert(s1.update(b, s[a]).to_multiset() == s1.to_multiset().insert(s[a]).remove(s[b]));
        assert(s1.to_multiset() == s.to_multiset().insert(s[b]).remove(s[a]));
        s.to_multiset_ensures();
        assert(s.to_multiset().count(s[a]) > 0);
        assert(s.to_multiset().count(s[b]) > 0);
        assert(s.to_multiset().insert(s[b]).remove(s[a]).insert(s[a]).remove(s[b])
            =~= s.to_multiset());
    }
}

/// In a total order, every value compares equal to itself.
proof fn lemma_le_refl<T: Ord>(x: T)
    requires
        obeys_cmp::<T>(),
    ensures
        le_spec(x, x),
{
    reveal(obeys_partial_cmp_spec_properties);
    reveal(obeys_cmp_partial_ord);
    reveal(obeys_cmp_ord);
    assert(x.partial_cmp_spec(&x) == Some(Ordering::Less) <==> x.partial_cmp_spec(&x) == Some(
        Ordering::Greater,
    ));
    assert(x.partial_cmp_spec(&x) is Some);
}

/// In a total order, "not strictly less" is "greater than or equal".
proof fn lemma_not_lt<T: Ord>(x: T, y: T)
    requires
        obeys_cmp::<T>(),
        !(x.partial_cmp_spec(&y) == Some(Ordering::Less)),
    ensures
        le_spec(y, x),
{
    reveal(obeys_partial_cmp_spec_properties);
    reveal(obeys_cmp_partial_ord);
    reveal(obeys_cmp_ord);
    reveal(obeys_eq_spec_properties);
    assert(x.partial_cmp_spec(&y) is Some);
    assert(y.partial_cmp_spec(&x) is Some);
    if x.partial_cmp_spec(&y) == Some(Ordering::Equal) {
        assert(x.eq_spec(&y));
        assert(y.eq_spec(&x));
    }
}

/// `le_spec` is transitive in a total order.
proof fn lemma_le_trans<T: Ord>(x: T, y: T, z: T)
    requires
        obeys_cmp::<T>(),
        le_spec(x, y),
        le_spec(y, z),
    ensures
        le_spec(x, z),
{
    reveal(obeys_partial_cmp_spec_properties);
    reveal(obeys_cmp_partial_ord);
    reveal(obeys_cmp_ord);
    reveal(obeys_eq_spec_properties);
    assert(x.partial_cmp_spec(&z) is Some);
    if x.partial_cmp_spec(&z) == Some(Ordering::Greater) {
        assert(z.partial_cmp_spec(&x) == Some(Ordering::Less));
        if x.partial_cmp_spec(&y) == Some(Ordering::Less) {
            assert(z.partial_cmp_spec(&y) == Some(Ordering::Less));
            assert(y.partial_cmp_spec(&z) == Some(Ordering::Greater));
        } else {
            assert(x.eq_spec(&y));
            if y.partial_cmp_spec(&z) == Some(Ordering::Less) {
                assert(z.partial_cmp_spec(&y) == Some(Ordering::Greater));
                assert(z.partial_cmp_spec(&x) is Some);
            } else {
                assert(y.eq_spec(&z));
                assert(x.eq_spec(&z));
                assert(x.partial_cmp_spec(&z) == Some(Ordering::Equal));
            }
        }
    }
}

/// Selection sort: repeatedly swaps the least remaining value into the
/// front of the unsorted suffix.
#[verifier::loop_isolation(false)]
pub fn select_sort<T: Ord>(arr: &mut [T])
    ensures
        final(arr)@.to_multiset() == old(arr)@.to_multiset(),
        final(arr)@.len() == old(arr)@.len(),
        obeys_cmp::<T>() ==> sorted_by_le(final(arr)@),
{
    let n = arr.len();
    let mut i: usize = 0;
    while i < n
        invariant
            n == arr@.len(),
            0 <= i <= n,
            arr@.to_multiset() == old(arr)@.to_multiset(),
            obeys_cmp::<T>() ==> forall|p: int, q: int|
                0 <= p < q < i ==> #[trigger] le_spec(arr@[p], arr@[q]),
            obeys_cmp::<T>() ==> forall|p: int, q: int|
                0 <= p < i <= q < n ==> #[trigger] le_spec(arr@[p], arr@[q]),
        decreases n - i,
    {
        let mut mi: usize = i;
        let mut j: usize = i + 1;
        proof {
            if obeys_cmp::<T>() {
                lemma_le_refl(arr@[i as int]);
            }
        }
        while j < n
            invariant
                i <= mi < j <= n,
                obeys_cmp::<T>() ==> forall|q: int|
                    i <= q < j ==> #[trigger] le_spec(arr@[mi as int], arr@[q]),
            decreases n - j,
        {
            if arr[j].lt(&arr[mi]) {
                proof {
                    if obeys_cmp::<T>() {
                        reveal(obeys_cmp_partial_ord);
                        assert forall|q: int| i <= q < j + 1 implies #[trigger] le_spec(
                            arr@[j as int],
                            arr@[q],
                        ) by {
                            reveal(obeys_partial_cmp_spec_properties);
                            if q < j {
                                lemma_le_trans(arr@[j as int], arr@[mi as int], arr@[q]);
                            } else {
                                lemma_le_refl(arr@[j as int]);
                            }
                        }
                    }
                }
                mi = j;
            } else {
                proof {
                    if obeys_cmp::<T>() {
                        reveal(obeys_cmp_partial_ord);
                        lemma_not_lt(arr@[j as int], arr@[mi as int]);
                    }
                }
            }
            j = j + 1;
        }
        let ghost before: Seq<T> = arr@;
        swap_in_slice(arr, i, mi);
        proof {
            lemma_swap_preserves_multiset(before, i as int, mi as int);
            if obeys_cmp::<T>() {
                assert forall|p: int, q: int| 0 <= p < q < i + 1 implies #[trigger] le_spec(
                    arr@[p],
                    arr@[q],
                ) by {}
                assert forall|p: int, q: int| 0 <= p < i + 1 <= q < n implies #[trigger] le_spec(
                    arr@[p],
                    arr@[q],
                ) by {}
            }
        }
        i = i + 1;
    }
}

/// Bubble sort: each pass carries the greatest remaining value to the
/// end of the unsorted prefix by adjacent swaps.
#[verifier::loop_isolation(false)]
pub fn bubble_sort<T: Ord>(arr: &mut [T])
    ensures
        final(arr)@.to_multiset() == old(arr)@.to_multiset(),
        final(arr)@.len() == old(arr)@.len(),
        obeys_cmp::<T>() ==> sorted_by_le(final(arr)@),
{
    let n = arr.len();
    let mut i: usize = 0;
    while i < n
        invariant
            n == arr@.len(),
            0 <= i <= n,
            arr@.to_multiset() == old(arr)@.to_multiset(),
            obeys_cmp::<T>() ==> forall|p: int, q: int|
                n - i <= p < q < n ==> #[trigger] le_spec(arr@[p], arr@[q]),
            obeys_cmp::<T>() ==> forall|p: int, q: int|
                0 <= p < n - i <= q < n ==> #[trigger] le_spec(arr@[p], arr@[q]),
        decreases n - i,
    {
        let mut j: usize = 0;
        while j < n - 1 - i
            invariant
                n == arr@.len(),
                0 <= i < n,
                0 <= j <= n - 1 - i,
                arr@.to_multiset() == old(arr)@.to_multiset(),
                obeys_cmp::<T>() ==> forall|p: int, q: int|
                    n - i <= p < q < n ==> #[trigger] le_spec(arr@[p], arr@[q]),
                obeys_cmp::<T>() ==> forall|p: int, q: int|
                    0 <= p < n - i <= q < n ==> #[trigger] le_spec(arr@[p], arr@[q]),
                obeys_cmp::<T>() ==> forall|p: int|
                    0 <= p < j ==> #[trigger] le_spec(arr@[p], arr@[j as int]),
            decreases n - 1 - i - j,
        {
            if arr[j + 1].lt(&arr[j]) {
                let ghost before: Seq<T> = arr@;
                swap_in_slice(arr, j, j + 1);
                proof {
                    lemma_swap_preserves_multiset(before, j as int, j + 1);
                    if obeys_cmp::<T>() {
                        reveal(obeys_cmp_partial_ord);
                        assert forall|p: int| 0 <= p < j + 1 implies #[trigger] le_spec(
                            arr@[p],
                            arr@[j + 1],
                        ) by {}
                    }
                }
            } else {
                proof {
                    if obeys_cmp::<T>() {
                        reveal(obeys_cmp_partial_ord);
                        lemma_not_lt(arr@[j + 1], arr@[j as int]);
                        assert forall|p: int| 0 <= p < j + 1 implies #[trigger] le_spec(
                            arr@[p],
                            arr@[j + 1],
                        ) by {
                            if p < j {
                                lemma_le_trans(arr@[p], arr@[j as int], arr@[j + 1]);
                            }
                        }
                    }
                }
            }
            j = j + 1;
        }
        proof {
            if obeys_cmp::<T>() {
                assert forall|p: int, q: int| n - (i + 1) <= p < q < n implies #[trigger] le_spec(
                    arr@[p],
                    arr@[q],
                ) by {}
                assert forall|p: int, q: int|
                    0 <= p < n - (i + 1) <= q < n implies #[trigger] le_spec(arr@[p], arr@[q]) by {}
            }
        }
        i = i + 1;
    }
}

/// Insertion sort: each pass floats the next value down through the
/// sorted prefix by adjacent swaps until it sits in order.
#[verifier::loop_isolation(false)]
pub fn insert_sort<T: Ord>(arr: &mut [T])
    ensures
        final(arr)@.to_multiset() == old(arr)@.to_multiset(),
        final(arr)@.len() == old(arr)@.len(),
        obeys_cmp::<T>() ==> sorted_by_le(final(arr)@),
{
    let n = arr.len();
    let mut i: usize = 0;
    while i < n
        invariant
            n == arr@.len(),
            0 <= i <= n,
            arr@.to_multiset() == old(arr)@.to_multiset(),
            obeys_cmp::<T>() ==> forall|p: int, q: int|
                0 <= p < q < i ==> #[trigger] le_spec(arr@[p], arr@[q]),
        decreases n - i,
    {
        let mut j: usize = i;
        while j > 0 && arr[j].lt(&arr[j - 1])
            invariant
                n == arr@.len(),
                0 <= j <= i < n,
                arr@.to_multiset() == old(arr)@.to_multiset(),
                obeys_cmp::<T>() ==> forall|p: int, q: int|
                    0 <= p < q <= i && q != j ==> #[trigger] le_spec(arr@[p], arr@[q]),
            decreases j,
        {
            let ghost before: Seq<T> = arr@;
            swap_in_slice(arr, j - 1, j);
            proof {
                lemma_swap_preserves_multiset(before, j - 1, j as int);
                if obeys_cmp::<T>() {
                    reveal(obeys_cmp_partial_ord);
                    assert forall|p: int, q: int|
                        0 <= p < q <= i && q != j - 1 implies #[trigger] le_spec(
                        arr@[p],
                        arr@[q],
                    ) by {}
                }
            }
            j = j - 1;
        }
        proof {
            if obeys_cmp::<T>() {
                reveal(obeys_cmp_partial_ord);
                if j > 0 {
                    lemma_not_lt(arr@[j as int], arr@[j - 1]);
                }
                assert forall|p: int, q: int| 0 <= p < q < i + 1 implies #[trigger] le_spec(
                    arr@[p],
                    arr@[q],
                ) by {
                    if q == j && p < j - 1 {
                        lemma_le_trans(arr@[p], arr@[j - 1], arr@[j as int]);
                    }
                }
            }
        }
        i = i + 1;
    }
}

/// The sum of a sequence of counters.
pub open spec fn sum_counts(s: Seq<usize>) -> int
    decreases s.len(),
{
    if s.len() == 0 {
        0
    } else {
        s[0] + sum_counts(s.drop_first())
    }
}

/// Summation distributes over concatenation.
proof fn lemma_sum_concat(a: Seq<usize>, b: Seq<usize>)
    ensures
        sum_counts(a + b) == sum_counts(a) + sum_counts(b),
    decreases a.len(),
{
    if a.len() == 0 {
        assert(a + b =~= b);
    } else {
        assert((a + b).drop_first() =~= a.drop_first() + b);
        assert((a + b)[0] == a[0]);
        lemma_sum_concat(a.drop_first(), b);
    }
}

/// A sum of counters is never negative.
proof fn lemma_sum_nonneg(s: Seq<usize>)
    ensures
        sum_counts(s) >= 0,
    decreases s.len(),
{
    if s.len() > 0 {
        lemma_sum_nonneg(s.drop_first());
    }
}

/// Splits a sum at position `i`: the whole is the prefix plus the suffix.
proof fn lemma_sum_split(s: Seq<usize>, i: int)
    requires
        0 <= i <= s.len(),
    ensures
        sum_counts(s) == sum_counts(s.take(i)) + sum_counts(s.skip(i)),
{
    assert(s =~= s.take(i) + s.skip(i));
    lemma_sum_concat(s.take(i), s.skip(i));
}

/// The sum of a single counter is that counter.
proof fn lemma_sum_singleton(x: usize)
    ensures
        sum_counts(seq![x]) == x,
{
    assert(seq![x].drop_first() =~= Seq::<usize>::empty());
    assert(sum_counts(Seq::<usize>::empty()) == 0);
}

/// Raising one counter by one raises the sum by one.
proof fn lemma_sum_bump(s: Seq<usize>, i: int, v: usize)
    requires
        0 <= i < s.len(),
        v == s[i] + 1,
    ensures
        sum_counts(s.update(i, v)) == sum_counts(s) + 1,
{
    let one_more = s.update(i, v);
    assert(s =~= s.take(i) + seq![s[i]] + s.skip(i + 1));
    assert(one_more =~= s.take(i) + seq![v] + s.skip(i + 1));
    lemma_sum_concat(s.take(i) + seq![s[i]], s.skip(i + 1));
    lemma_sum_concat(s.take(i), seq![s[i]]);
    lemma_sum_concat(s.take(i) + seq![v], s.skip(i + 1));
    lemma_sum_concat(s.take(i), seq![v]);
    lemma_sum_singleton(s[i]);
    lemma_sum_singleton(v);
}

/// Counting sort over a discretisation of the elements.
///
/// `discrete` maps each element to a counting key and `expand` maps a
/// counting key back to an element.  The slice is overwritten with
/// `expand` images emitted in non-decreasing key order, one per counted
/// key occurrence: the contract exhibits the counted keys `ds` (one per
/// input element) and the emitted keys `gd`, a sorted rearrangement of
/// `ds`, with every output value an `expand` image of its emitted key.
#[verifier::loop_isolation(false)]
#[verifier::rlimit(100)]
pub fn count_sort<T, F, G>(arr: &mut [T], discrete: F, expand: G) where
    T: Copy + Ord,
    F: Fn(T) -> usize,
    G: Fn(usize) -> T,

    requires
        forall|x: T| #[trigger] discrete.requires((x,)),
        forall|d: usize| #[trigger] expand.requires((d,)),
        forall|x: T, d: usize| #[trigger] discrete.ensures((x,), d) ==> d < usize::MAX,
    ensures
        final(arr)@.len() == old(arr)@.len(),
        old(arr)@.len() == 0 ==> final(arr)@ == old(arr)@,
        exists|ds: Seq<usize>, gd: Seq<usize>|
            {
                &&& ds.len() == old(arr)@.len()
                &&& gd.len() == old(arr)@.len()
                &&& (forall|k: int|
                    0 <= k < ds.len() ==> #[trigger] discrete.ensures((old(arr)@[k],), ds[k]))
                &&& gd.to_multiset() == ds.to_multiset()
                &&& (forall|p: int, q: int| 0 <= p < q < gd.len() ==> #[trigger] gd[p] <= #[trigger] gd[q])
                &&& (forall|k: int|
                    0 <= k < gd.len() ==> #[trigger] expand.ensures((gd[k],), final(arr)@[k]))
            },
{
    broadcast use vstd::seq_lib::group_to_multiset_ensures;

    let n = arr.len();
    if n == 0 {
        proof {
            let empty_keys: Seq<usize> = Seq::empty();
            assert(empty_keys.len() == 0);
        }
        return;
    }
    let mut ds: Vec<usize> = Vec::new();
    let mut t: usize = 0;
    while t < n
        invariant
            n == arr@.len(),
            arr@ == old(arr)@,
            0 <= t <= n,
            ds@.len() == t,
            forall|k: int| 0 <= k < t ==> #[trigger] discrete.ensures((arr@[k],), ds@[k]),
            forall|k: int| 0 <= k < t ==> #[trigger] ds@[k] < usize::MAX,
        decreases n - t,
    {
        let d = discrete(arr[t]);
        ds.push(d);
        t = t + 1;
    }
    let mut mn: usize = ds[0];
    let mut mx: usize = ds[0];
    t = 1;
    while t < n
        invariant
            ds@.len() == n,
            1 <= t <= n,
            mn <= mx,
            mx < usize::MAX,
            forall|k: int| 0 <= k < t ==> mn <= #[trigger] ds@[k] <= mx,
            forall|k: int| 0 <= k < n ==> #[trigger] ds@[k] < usize::MAX,
        decreases n - t,
    {
        let d = ds[t];
        if d < mn {
            mn = d;
        }
        if d > mx {
            mx = d;
        }
        t = t + 1;
    }
    let width = mx - mn + 1;
    let mut cnt: Vec<usize> = Vec::new();
    let mut b: usize = 0;
    while b < width
        invariant
            0 <= b <= width,
            cnt@.len() == b,
            forall|k: int| 0 <= k < b ==> cnt@[k] == 0,
        decreases width - b,
    {
        cnt.push(0);
        b = b + 1;
    }
    proof {
        assert forall|k: int| 0 <= k < width implies sum_counts(cnt@.take(k)) == 0 by {
            lemma_sum_split(cnt@, k);
            lemma_sum_zeros(cnt@.take(k));
        }
        lemma_sum_zeros(cnt@);
    }
    t = 0;
    while t < n
        invariant
            n == arr@.len(),
            arr@ == old(arr)@,
            0 <= t <= n,
            ds@.len() == n,
            cnt@.len() == width,
            width == mx - mn + 1,
            mn <= mx,
            forall|k: int| 0 <= k < n ==> mn <= #[trigger] ds@[k] <= mx,
            sum_counts(cnt@) == t,
            forall|b2: int|
                0 <= b2 < width ==> #[trigger] cnt@[b2] == ds@.take(t as int).to_multiset().count(
                    (mn + b2) as usize,
                ),
        decreases n - t,
    {
        let bucket = ds[t] - mn;
        proof {
            lemma_sum_split(cnt@, bucket as int);
            lemma_sum_nonneg(cnt@.take(bucket as int));
            lemma_sum_nonneg(cnt@.skip(bucket + 1));
            assert(cnt@.skip(bucket as int)[0] == cnt@[bucket as int]);
            assert(sum_counts(cnt@.skip(bucket as int)) == cnt@[bucket as int] + sum_counts(
                cnt@.skip(bucket as int).drop_first(),
            ));
            assert(cnt@.skip(bucket as int).drop_first() =~= cnt@.skip(bucket + 1));
        }
        let c = cnt[bucket];
        let ghost counted: Seq<usize> = cnt@;
        cnt[bucket] = c + 1;
        proof {
            lemma_sum_bump(counted, bucket as int, (c + 1) as usize);
            assert(ds@.take(t + 1) =~= ds@.take(t as int).push(ds@[t as int]));
        }
        t = t + 1;
    }
    proof {
        assert(ds@.take(n as int) =~= ds@);
        assert(cnt@.take(0) =~= Seq::<usize>::empty());
        assert(sum_counts(Seq::<usize>::empty()) == 0);
    }
    let mut ptr: usize = 0;
    let mut d: usize = mn;
    let ghost mut gd: Seq<usize> = Seq::empty();
    while d <= mx
        invariant
            n == arr@.len(),
            ds@.len() == n,
            cnt@.len() == width,
            width == mx - mn + 1,
            mn <= d <= mx + 1,
            mx < usize::MAX,
            sum_counts(cnt@) == n,
            0 <= ptr <= n,
            forall|k: int| 0 <= k < n ==> mn <= #[trigger] ds@[k] <= mx,
            forall|b2: int|
                0 <= b2 < width ==> #[trigger] cnt@[b2] == ds@.to_multiset().count(
                    (mn + b2) as usize,
                ),
            ptr == sum_counts(cnt@.take(d - mn)),
            gd.len() == ptr,
            forall|k: int| 0 <= k < gd.len() ==> mn <= #[trigger] gd[k] < d,
            forall|p: int, q: int| 0 <= p < q < gd.len() ==> #[trigger] gd[p] <= #[trigger] gd[q],
            forall|b2: int|
                0 <= b2 < d - mn ==> gd.to_multiset().count((mn + b2) as usize) == #[trigger] cnt@[b2],
            forall|k: int| 0 <= k < gd.len() ==> #[trigger] expand.ensures((gd[k],), arr@[k]),
        decreases mx + 1 - d,
    {
        let bucket = d - mn;
        let goal = cnt[bucket];
        let mut c: usize = 0;
        proof {
            lemma_sum_split(cnt@, bucket as int);
            lemma_sum_nonneg(cnt@.skip(bucket + 1));
            assert(cnt@.skip(bucket as int)[0] == cnt@[bucket as int]);
            assert(sum_counts(cnt@.skip(bucket as int)) == cnt@[bucket as int] + sum_counts(
                cnt@.skip(bucket as int).drop_first(),
            ));
            assert(cnt@.skip(bucket as int).drop_first() =~= cnt@.skip(bucket + 1));
        }
        while c < goal
            invariant
                n == arr@.len(),
                cnt@.len() == width,
                0 <= bucket < width,
                goal == cnt@[bucket as int],
                mn <= d <= mx,
                d - mn == bucket,
                0 <= c <= goal,
                ptr == sum_counts(cnt@.take(bucket as int)) + c,
                ptr <= n,
                sum_counts(cnt@) == n,
                gd.len() == ptr,
                forall|k: int| 0 <= k < gd.len() ==> mn <= #[trigger] gd[k] <= d,
                forall|p: int, q: int| 0 <= p < q < gd.len() ==> #[trigger] gd[p] <= #[trigger] gd[q],
                forall|b2: int|
                    0 <= b2 < bucket ==> gd.to_multiset().count((mn + b2) as usize)
                        == #[trigger] cnt@[b2],
                gd.to_multiset().count(d) == c,
                forall|k: int| 0 <= k < gd.len() ==> #[trigger] expand.ensures((gd[k],), arr@[k]),
            decreases goal - c,
        {
            proof {
                lemma_sum_split(cnt@, bucket as int);
                lemma_sum_nonneg(cnt@.skip(bucket + 1));
                assert(cnt@.skip(bucket as int)[0] == cnt@[bucket as int]);
                assert(sum_counts(cnt@.skip(bucket as int)) == cnt@[bucket as int] + sum_counts(
                    cnt@.skip(bucket as int).drop_first(),
                ));
                assert(cnt@.skip(bucket as int).drop_first() =~= cnt@.skip(bucket + 1));
            }
            let value = expand(d);
            arr[ptr] = value;
            proof {
                gd = gd.push(d);
            }
            ptr = ptr + 1;
            c = c + 1;
        }
        proof {
            assert(cnt@.take(bucket + 1) =~= cnt@.take(bucket as int).push(cnt@[bucket as int]));
            lemma_sum_concat(cnt@.take(bucket as int), seq![cnt@[bucket as int]]);
            lemma_sum_singleton(cnt@[bucket as int]);
            assert(cnt@.take(bucket as int).push(cnt@[bucket as int]) =~= cnt@.take(bucket as int)
                + seq![cnt@[bucket as int]]);
        }
        d = d + 1;
    }
    proof {
        assert(cnt@.take(width as int) =~= cnt@);
        assert(gd.len() == n);
        assert(gd.to_multiset() =~= ds@.to_multiset()) by {
            assert forall|x: usize| gd.to_multiset().count(x) == ds@.to_multiset().count(x) by {
                if mn <= x <= mx {
                    assert(gd.to_multiset().count(x) == cnt@[x - mn]);
                } else {
                    if gd.to_multiset().count(x) > 0 {
                        assert(gd.contains(x));
                    }
                    if ds@.to_multiset().count(x) > 0 {
                        assert(ds@.contains(x));
                    }
                }
            }
        }
    }
}

/// A sequence of zero counters sums to zero.
proof fn lemma_sum_zeros(s: Seq<usize>)
    requires
        forall|k: int| 0 <= k < s.len() ==> #[trigger] s[k] == 0,
    ensures
        sum_counts(s) == 0,
    decreases s.len(),
{
    if s.len() > 0 {
        lemma_sum_zeros(s.drop_first());
    }
}

} // verus!
