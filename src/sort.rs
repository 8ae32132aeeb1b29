//! In-place partition-exchange sort (quicksort) with the last element as
//! pivot, recursing on the two sides serially or in parallel.
use vstd::prelude::*;
use vstd::seq_lib::to_multiset_update;

verus! {

broadcast use {vstd::multiset::group_multiset_properties, vstd::multiset::group_multiset_axioms};

/// `s` is in non-decreasing order.
pub open spec fn sorted(s: Seq<i32>) -> bool {
    forall|i: int, j: int| 0 <= i < j < s.len() ==> #[trigger] s[i] <= #[trigger] s[j]
}

/// `t` holds the same elements as `s`, each as many times.
pub open spec fn same_elements(s: Seq<i32>, t: Seq<i32>) -> bool {
    s.to_multiset() == t.to_multiset()
}

fn swap_items(arr: &mut [i32], i: usize, j: usize)
    requires
        i < old(arr)@.len(),
        j < old(arr)@.len(),
    ensures
        final(arr)@ == old(arr)@.update(i as int, old(arr)@[j as int]).update(j as int, old(arr)@[i as int]),
        same_elements(final(arr)@, old(arr)@),
{
    let a = arr[i];
    let b = arr[j];
    arr[i] = b;
    arr[j] = a;
    proof {
        let s0 = old(arr)@;
        let s1 = s0.update(i as int, b);
        to_multiset_update(s0, i as int, b);
        to_multiset_update(s1, j as int, a);
        assert(s0.to_multiset().count(a) > 0) by {
            vstd::seq_lib::to_multiset_contains(s0, a);
            assert(s0.contains(a)) by {
                assert(s0[i as int] == a);
            }
        }
        assert(s1.update(j as int, a).to_multiset() =~= s0.to_multiset());
    }
}

/// Rearranges `arr` around the value at `pivot` and returns where that value
/// ends: everything before it is at most the pivot value, everything after it
/// is greater.
pub fn partition(arr: &mut [i32], pivot: usize) -> (r: usize)
    requires
        pivot < old(arr)@.len(),
    ensures
        r < final(arr)@.len(),
        final(arr)@.len() == old(arr)@.len(),
        same_elements(final(arr)@, old(arr)@),
        final(arr)@[r as int] == old(arr)@[pivot as int],
        forall|k: int| 0 <= k < r ==> #[trigger] final(arr)@[k] <= old(arr)@[pivot as int],
        forall|k: int| r < k < final(arr)@.len() ==> #[trigger] final(arr)@[k] > old(arr)@[pivot as int],
{
    let pivot_value = arr[pivot];
    let last = arr.len() - 1;
    swap_items(arr, pivot, last);
    let mut store: usize = 0;
    let mut i: usize = 0;
    while i < last
        invariant
            arr@.len() == old(arr)@.len(),
            last == arr@.len() - 1,
            store <= i <= last,
            arr@[last as int] == pivot_value,
            pivot_value == old(arr)@[pivot as int],
            same_elements(arr@, old(arr)@),
            forall|k: int| 0 <= k < store ==> #[trigger] arr@[k] <= pivot_value,
            forall|k: int| store <= k < i ==> #[trigger] arr@[k] > pivot_value,
        decreases last - i,
    {
        if arr[i] <= pivot_value {
            swap_items(arr, i, store);
            store = store + 1;
        }
        i = i + 1;
    }
    swap_items(arr, store, last);
    store
}

proof fn lemma_join_sorted(
    before: Seq<i32>,
    left: Seq<i32>,
    right: Seq<i32>,
    new_left: Seq<i32>,
    new_right: Seq<i32>,
    p: int,
)
    requires
        0 <= p < before.len(),
        left == before.subrange(0, p),
        right == before.subrange(p + 1, before.len() as int),
        forall|k: int| 0 <= k < p ==> #[trigger] before[k] <= before[p],
        forall|k: int| p < k < before.len() ==> #[trigger] before[k] > before[p],
        sorted(new_left),
        sorted(new_right),
        same_elements(new_left, left),
        same_elements(new_right, right),
    ensures
        sorted(new_left + seq![before[p]] + new_right),
        same_elements(new_left + seq![before[p]] + new_right, before),
{
    let pv = before[p];
    let all = new_left + seq![pv] + new_right;
    assert forall|k: int| 0 <= k < new_left.len() implies #[trigger] new_left[k] <= pv by {
        vstd::seq_lib::to_multiset_contains(new_left, new_left[k]);
        vstd::seq_lib::to_multiset_contains(left, new_left[k]);
        assert(new_left.contains(new_left[k]));
        let w = choose|w: int| 0 <= w < left.len() && left[w] == new_left[k];
        assert(before[w] == left[w]);
    }
    assert forall|k: int| 0 <= k < new_right.len() implies #[trigger] new_right[k] > pv by {
        vstd::seq_lib::to_multiset_contains(new_right, new_right[k]);
        vstd::seq_lib::to_multiset_contains(right, new_right[k]);
        assert(new_right.contains(new_right[k]));
        let w = choose|w: int| 0 <= w < right.len() && right[w] == new_right[k];
        assert(before[p + 1 + w] == right[w]);
    }
    assert forall|i: int, j: int| 0 <= i < j < all.len() implies #[trigger] all[i] <= #[trigger] all[j] by {
        let n = new_left.len() as int;
        if j < n {
            assert(new_left[i] <= new_left[j]);
        } else if j == n {
            assert(all[i] == new_left[i]);
        } else if i < n {
            assert(all[i] == new_left[i]);
            assert(all[j] == new_right[j - n - 1]);
        } else if i == n {
            assert(all[j] == new_right[j - n - 1]);
        } else {
            assert(new_right[i - n - 1] <= new_right[j - n - 1]);
        }
    }
    vstd::seq_lib::lemma_multiset_commutative(new_left + seq![pv], new_right);
    vstd::seq_lib::lemma_multiset_commutative(new_left, seq![pv]);
    vstd::seq_lib::lemma_multiset_commutative(left + seq![pv], right);
    vstd::seq_lib::lemma_multiset_commutative(left, seq![pv]);
    assert(before =~= left + seq![pv] + right);
}

/// Sorts `arr` in place, ascending: partition around the last element, then
/// sort the part before the pivot and the part after it, one after the other.
pub fn quicksort_serial(arr: &mut [i32])
    ensures
        sorted(final(arr)@),
        same_elements(final(arr)@, old(arr)@),
    decreases old(arr)@.len(),
{
    if arr.len() <= 1 {
        return;
    }
    let last = arr.len() - 1;
    let p = partition(arr, last);
    let ghost before = arr@;
    let (left, right) = arr.split_at_mut(p);
    let ghost left_before = left@;
    quicksort_serial(left);
    let (pivot_slot, rest) = right.split_at_mut(1);
    let ghost rest_before = rest@;
    quicksort_serial(rest);
    let ghost new_left = left@;
    let ghost slot = pivot_slot@;
    let ghost new_rest = rest@;
    proof {
        assert(left_before =~= before.subrange(0, p as int));
        assert(rest_before =~= before.subrange(p + 1, before.len() as int));
        assert(slot =~= seq![before[p as int]]);
        lemma_join_sorted(before, left_before, rest_before, new_left, new_rest, p as int);
        assert(arr@ == new_left + (slot + new_rest));
        assert(new_left + (slot + new_rest) =~= new_left + slot + new_rest);
    }
}

/// Relies on `rayon::join`: it runs both closures, possibly at the same time,
/// and returns only once both have finished; each closure sorts its own slice.
#[verifier::external_body]
fn sort_both_parallel(left: &mut [i32], right: &mut [i32])
    ensures
        sorted(final(left)@),
        same_elements(final(left)@, old(left)@),
        sorted(final(right)@),
        same_elements(final(right)@, old(right)@),
{
    rayon::join(|| quicksort_parallel(left), || quicksort_parallel(right));
}

/// Sorts `arr` in place, ascending: partition around the last element, then
/// sort the part before the pivot and the part after it concurrently.
pub fn quicksort_parallel(arr: &mut [i32])
    ensures
        sorted(final(arr)@),
        same_elements(final(arr)@, old(arr)@),
{
    if arr.len() <= 1 {
        return;
    }
    let last = arr.len() - 1;
    let p = partition(arr, last);
    let ghost before = arr@;
    let (left, right) = arr.split_at_mut(p);
    let ghost left_before = left@;
    let (pivot_slot, rest) = right.split_at_mut(1);
    let ghost rest_before = rest@;
    sort_both_parallel(left, rest);
    let ghost new_left = left@;
    let ghost slot = pivot_slot@;
    let ghost new_rest = rest@;
    proof {
        assert(left_before =~= before.subrange(0, p as int));
        assert(rest_before =~= before.subrange(p + 1, before.len() as int));
        assert(slot =~= seq![before[p as int]]);
        lemma_join_sorted(before, left_before, rest_before, new_left, new_rest, p as int);
        assert(arr@ == new_left + (slot + new_rest));
        assert(new_left + (slot + new_rest) =~= new_left + slot + new_rest);
    }
}

/// Both sorts, on any input, give the same output: sorted permutations of one
/// multiset coincide.
pub proof fn lemma_sorts_agree(input: Seq<i32>, serial: Seq<i32>, parallel: Seq<i32>)
    requires
        sorted(serial),
        same_elements(serial, input),
        sorted(parallel),
        same_elements(parallel, input),
    ensures
        serial == parallel,
{
    lemma_sorted_unique(serial, parallel);
}

/// Sorting input that is already in order gives it back unchanged.
pub proof fn lemma_sorting_sorted_is_identity(input: Seq<i32>, output: Seq<i32>)
    requires
        sorted(input),
        sorted(output),
        same_elements(output, input),
    ensures
        output == input,
{
    lemma_sorted_unique(output, input);
}

proof fn lemma_sorted_unique(a: Seq<i32>, b: Seq<i32>)
    requires
        sorted(a),
        sorted(b),
        a.to_multiset() == b.to_multiset(),
    ensures
        a == b,
    decreases a.len(),
{
    vstd::seq_lib::to_multiset_len(a);
    vstd::seq_lib::to_multiset_len(b);
    if a.len() > 0 {
        let x = a.last();
        let y = b.last();
        vstd::seq_lib::to_multiset_contains(a, x);
        vstd::seq_lib::to_multiset_contains(b, y);
        assert(a.contains(x));
        assert(b.contains(y));
        assert(b.to_multiset().count(x) > 0);
        vstd::seq_lib::to_multiset_contains(b, x);
        vstd::seq_lib::to_multiset_contains(a, y);
        assert(x <= y) by {
            let w = choose|w: int| 0 <= w < b.len() && b[w] == x;
            if w < b.len() - 1 {
                assert(b[w] <= b[b.len() - 1]);
            }
        }
        assert(y <= x) by {
            let w = choose|w: int| 0 <= w < a.len() && a[w] == y;
            if w < a.len() - 1 {
                assert(a[w] <= a[a.len() - 1]);
            }
        }
        vstd::seq_lib::lemma_multiset_commutative(a.drop_last(), seq![x]);
        vstd::seq_lib::lemma_multiset_commutative(b.drop_last(), seq![y]);
        assert(a =~= a.drop_last() + seq![x]);
        assert(b =~= b.drop_last() + seq![y]);
        assert(a.to_multiset() == (a.drop_last() + seq![x]).to_multiset());
        assert(b.to_multiset() == (b.drop_last() + seq![y]).to_multiset());
        assert(x == y);
        assert(a.to_multiset() == a.drop_last().to_multiset().add(seq![x].to_multiset()));
        assert(b.to_multiset() == b.drop_last().to_multiset().add(seq![x].to_multiset()));
        assert forall|v: i32| #[trigger] a.drop_last().to_multiset().count(v) == b.drop_last().to_multiset().count(v) by {
            assert(a.to_multiset().count(v) == b.to_multiset().count(v));
            assert(a.to_multiset().count(v) == a.drop_last().to_multiset().count(v) + seq![x].to_multiset().count(v));
            assert(b.to_multiset().count(v) == b.drop_last().to_multiset().count(v) + seq![x].to_multiset().count(v));
        }
        assert(a.drop_last().to_multiset() =~= b.drop_last().to_multiset());
        lemma_sorted_unique(a.drop_last(), b.drop_last());
        assert(a =~= b);
    } else {
        assert(a =~= b);
    }
}

} // verus!
