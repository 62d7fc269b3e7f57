use vstd::prelude::*;

verus! {

/// Each element is smaller than the one after it.
pub open spec fn strictly_increasing(axes: Seq<usize>) -> bool {
    forall|i: int, j: int| 0 <= i < j < axes.len() ==> axes[i] < axes[j]
}

/// Whether each axis is smaller than the one after it.
pub fn is_strictly_increasing(axes: &[usize]) -> (ok: bool)
    ensures
        ok == strictly_increasing(axes@),
{
    let mut i: usize = 1;
    while i < axes.len()
        invariant
            1 <= i,
            forall|a: int, b: int| 0 <= a < b < i && b < axes@.len() ==> axes@[a] < axes@[b],
        decreases axes@.len() - i,
    {
        if axes[i - 1] >= axes[i] {
            return false;
        }
        assert forall|a: int, b: int| 0 <= a < b < i + 1 && b < axes@.len() implies axes@[a]
            < axes@[b] by {
            if b == i && a < i - 1 {
                assert(axes@[a] < axes@[i - 1]);
            }
        }
        i += 1;
    }
    true
}

/// Whether two shapes are the same.
pub fn same_shape(a: &[usize], b: &[usize]) -> (same: bool)
    ensures
        same == (a@ == b@),
{
    if a.len() != b.len() {
        return false;
    }
    let mut i: usize = 0;
    while i < a.len()
        invariant
            a@.len() == b@.len(),
            i <= a@.len(),
            forall|j: int| 0 <= j < i ==> a@[j] == b@[j],
        decreases a@.len() - i,
    {
        if a[i] != b[i] {
            return false;
        }
        i += 1;
    }
    assert(a@ =~= b@);
    true
}

/// Whether `x` occurs in `items`.
pub fn contains(items: &[usize], x: usize) -> (found: bool)
    ensures
        found == items@.contains(x),
{
    let mut i: usize = 0;
    while i < items.len()
        invariant
            i <= items@.len(),
            forall|j: int| 0 <= j < i ==> items@[j] != x,
        decreases items@.len() - i,
    {
        if items[i] == x {
            return true;
        }
        i += 1;
    }
    false
}

/// With the shapes aligned at their last axes, axis `a` of `src` has no
/// partner in `dst`, or the two extents differ.
pub open spec fn axis_summed(src: Seq<usize>, dst: Seq<usize>, a: int) -> bool {
    let partner = a + dst.len() - src.len();
    partner < 0 || dst[partner] != src[a]
}

/// The axes of `src_shape` to sum over so that a gradient of that shape
/// fits a value of shape `dst_shape` that was broadcast to it: with the
/// two shapes aligned at their last axes, the leading axes that
/// `dst_shape` lacks and the axes on which the extents differ, in
/// increasing order.
pub fn sum_axes_to_desire(src_shape: &[usize], dst_shape: &[usize]) -> (axes: Vec<usize>)
    ensures
        strictly_increasing(axes@),
        forall|a: usize|
            axes@.contains(a) <==> a < src_shape@.len() && axis_summed(
                src_shape@,
                dst_shape@,
                a as int,
            ),
{
    let n: usize = src_shape.len();
    let m: usize = dst_shape.len();
    let mut axes: Vec<usize> = Vec::new();
    let mut a: usize = 0;
    while a < n
        invariant
            n == src_shape@.len(),
            m == dst_shape@.len(),
            a <= n,
            strictly_increasing(axes@),
            forall|i: int| 0 <= i < axes@.len() ==> axes@[i] < a,
            forall|b: usize|
                axes@.contains(b) <==> b < a && axis_summed(src_shape@, dst_shape@, b as int),
        decreases n - a,
    {
        let summed: bool = if n >= m {
            let lead: usize = n - m;
            a < lead || dst_shape[a - lead] != src_shape[a]
        } else {
            let shift: usize = m - n;
            dst_shape[a + shift] != src_shape[a]
        };
        let ghost before = axes@;
        if summed {
            axes.push(a);
            proof {
                assert(axes@.last() == a);
                assert forall|b: usize| axes@.contains(b) <==> b < a + 1 && axis_summed(
                    src_shape@,
                    dst_shape@,
                    b as int,
                ) by {
                    if before.contains(b) {
                        let i = choose|i: int| 0 <= i < before.len() && before[i] == b;
                        assert(axes@[i] == b);
                    }
                    if axes@.contains(b) && b != a {
                        let i = choose|i: int| 0 <= i < axes@.len() && axes@[i] == b;
                        assert(before[i] == b);
                    }
                }
            }
        }
        a += 1;
    }
    axes
}

/// Every axis below the length occurs exactly once.
pub open spec fn is_permutation(axes: Seq<usize>) -> bool {
    &&& forall|i: int| 0 <= i < axes.len() ==> #[trigger] axes[i] < axes.len()
    &&& axes.no_duplicates()
    &&& forall|a: usize| a < axes.len() ==> axes.contains(a)
}

/// Whether `axes` lists each of its positions exactly once.
pub fn check_permutation(axes: &[usize]) -> (ok: bool)
    ensures
        ok == is_permutation(axes@),
{
    let n: usize = axes.len();
    let mut seen: Vec<bool> = vec![false; n];
    let mut i: usize = 0;
    while i < n
        invariant
            n == axes@.len(),
            seen@.len() == n,
            i <= n,
            forall|j: int| 0 <= j < i ==> #[trigger] axes@[j] < n,
            forall|j: int, k: int| 0 <= j < k < i ==> axes@[j] != axes@[k],
            forall|a: usize| a < n ==> (#[trigger] seen@[a as int] <==> axes@.take(i as int).contains(a)),
        decreases n - i,
    {
        let a: usize = axes[i];
        if a >= n {
            proof {
                assert(!(axes@[i as int] < axes@.len()));
            }
            return false;
        }
        if seen[a] {
            proof {
                let shorter = axes@.take(i as int);
                let j = choose|j: int| 0 <= j < shorter.len() && shorter[j] == a;
                assert(axes@[j] == axes@[i as int]);
            }
            return false;
        }
        seen.set(a, true);
        proof {
            let shorter = axes@.take(i as int);
            let longer = axes@.take(i + 1);
            assert(longer == shorter.push(a));
            assert forall|b: usize| b < n implies (#[trigger] seen@[b as int] <==> longer.contains(
                b,
            )) by {
                crate::seq_lemmas::lemma_push_contains(shorter, a, b);
            }
            assert forall|j: int, k: int| 0 <= j < k < i + 1 implies axes@[j] != axes@[k] by {
                if k == i {
                    assert(shorter[j] == axes@[j]);
                    assert(shorter.contains(axes@[j]));
                }
            }
        }
        i += 1;
    }
    proof {
        assert(axes@.take(i as int) == axes@);
    }
    let mut a: usize = 0;
    while a < n
        invariant
            n == axes@.len(),
            seen@.len() == n,
            a <= n,
            forall|b: usize| b < n ==> (#[trigger] seen@[b as int] <==> axes@.contains(b)),
            forall|b: usize| b < a ==> axes@.contains(b),
        decreases n - a,
    {
        if !seen[a] {
            return false;
        }
        a += 1;
    }
    true
}

/// The permutation that undoes `axes`: position `axes[j]` of the result
/// holds `j`.
pub fn inverse_permutation(axes: &[usize]) -> (inverse: Vec<usize>)
    requires
        is_permutation(axes@),
    ensures
        inverse@.len() == axes@.len(),
        is_permutation(inverse@),
        forall|j: int| 0 <= j < axes@.len() ==> inverse@[#[trigger] axes@[j] as int] == j,
        forall|a: int| 0 <= a < axes@.len() ==> axes@[#[trigger] inverse@[a] as int] == a,
{
    let n: usize = axes.len();
    let mut inverse: Vec<usize> = vec![0usize; n];
    let mut j: usize = 0;
    while j < n
        invariant
            n == axes@.len(),
            inverse@.len() == n,
            is_permutation(axes@),
            j <= n,
            forall|k: int| 0 <= k < j ==> inverse@[#[trigger] axes@[k] as int] == k,
        decreases n - j,
    {
        let a: usize = axes[j];
        assert(axes@[j as int] < n);
        inverse.set(a, j);
        j += 1;
    }
    proof {
        assert forall|a: int| 0 <= a < n implies axes@[#[trigger] inverse@[a] as int] == a
            && inverse@[a] < n by {
            assert(axes@.contains(a as usize));
            let k = choose|k: int| 0 <= k < n && axes@[k] == a as usize;
            assert(inverse@[axes@[k] as int] == k);
        }
        assert forall|a: int, b: int|
            0 <= a < n && 0 <= b < n && a != b implies inverse@[a] != inverse@[b] by {
            assert(axes@[inverse@[a] as int] == a);
            assert(axes@[inverse@[b] as int] == b);
        }
        assert forall|k: usize| k < n implies inverse@.contains(k) by {
            assert(inverse@[axes@[k as int] as int] == k);
        }
    }
    inverse
}

/// The axes `0, 1, ..` of a value with `rank` axes.
pub fn all_axes(rank: usize) -> (axes: Vec<usize>)
    ensures
        axes@.len() == rank,
        forall|i: int| 0 <= i < rank ==> axes@[i] == i,
        strictly_increasing(axes@),
{
    let mut axes: Vec<usize> = Vec::new();
    let mut i: usize = 0;
    while i < rank
        invariant
            i <= rank,
            axes@.len() == i,
            forall|j: int| 0 <= j < i ==> axes@[j] == j,
        decreases rank - i,
    {
        axes.push(i);
        i += 1;
    }
    axes
}

/// The number of elements of an array with the given shape.
pub open spec fn element_count(shape: Seq<usize>) -> nat
    decreases shape.len(),
{
    if shape.len() == 0 {
        1
    } else {
        element_count(shape.drop_last()) * shape.last() as nat
    }
}

/// The number of elements of an array with the given shape, or `None`
/// where that number does not fit the machine word.
pub fn count_elements(shape: &[usize]) -> (count: Option<usize>)
    ensures
        match count {
            Some(c) => c == element_count(shape@),
            None => element_count(shape@) > usize::MAX,
        },
{
    let mut count: usize = 1;
    let mut i: usize = 0;
    let mut zero: bool = false;
    while i < shape.len()
        invariant
            i <= shape@.len(),
            count == element_count(shape@.take(i as int)),
        decreases shape@.len() - i,
    {
        proof {
            assert(shape@.take(i + 1).drop_last() == shape@.take(i as int));
        }
        match count.checked_mul(shape[i]) {
            Some(c) => {
                count = c;
            },
            None => {
                proof {
                    lemma_count_grows(shape@, i + 1);
                }
                if has_zero(shape, i + 1) {
                    proof {
                        lemma_count_zero(shape@);
                    }
                    return Some(0);
                }
                proof {
                    lemma_count_monotone(shape@, i + 1);
                }
                return None;
            },
        }
        i += 1;
    }
    proof {
        assert(shape@.take(i as int) == shape@);
    }
    Some(count)
}

/// Whether an extent from position `from` on is zero.
fn has_zero(shape: &[usize], from: usize) -> (found: bool)
    requires
        from <= shape@.len(),
    ensures
        found == exists|j: int| from <= j < shape@.len() && shape@[j] == 0,
{
    let mut j: usize = from;
    while j < shape.len()
        invariant
            from <= j <= shape@.len(),
            forall|k: int| from <= k < j ==> shape@[k] != 0,
        decreases shape@.len() - j,
    {
        if shape[j] == 0 {
            return true;
        }
        j += 1;
    }
    false
}

proof fn lemma_count_grows(shape: Seq<usize>, k: int)
    requires
        0 < k <= shape.len(),
    ensures
        element_count(shape.take(k)) == element_count(shape.take(k - 1)) * shape[k - 1] as nat,
{
    assert(shape.take(k).drop_last() == shape.take(k - 1));
}

proof fn lemma_count_zero(shape: Seq<usize>)
    requires
        exists|j: int| 0 <= j < shape.len() && shape[j] == 0,
    ensures
        element_count(shape) == 0,
    decreases shape.len(),
{
    let j = choose|j: int| 0 <= j < shape.len() && shape[j] == 0;
    if j == shape.len() - 1 {
        assert(element_count(shape.drop_last()) * 0 == 0) by (nonlinear_arith);
    } else {
        assert(shape.drop_last()[j] == 0);
        lemma_count_zero(shape.drop_last());
        assert(0 * (shape.last() as nat) == 0) by (nonlinear_arith);
    }
}

proof fn lemma_count_monotone(shape: Seq<usize>, k: int)
    requires
        0 <= k <= shape.len(),
        forall|j: int| k <= j < shape.len() ==> shape[j] != 0,
    ensures
        element_count(shape) >= element_count(shape.take(k)),
    decreases shape.len() - k,
{
    if k == shape.len() {
        assert(shape.take(k) == shape);
    } else {
        lemma_count_monotone(shape, k + 1);
        lemma_count_grows(shape, k + 1);
        let a = element_count(shape.take(k));
        let b = shape[k] as nat;
        assert(a * b >= a) by (nonlinear_arith)
            requires
                b >= 1,
        ;
    }
}

} // verus!
