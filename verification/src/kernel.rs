use vstd::prelude::*;

verus! {

/// The numeric capability the engine needs from an n-dimensional array
/// type `V`.
///
/// The engine never looks inside a value: it moves values around and asks
/// the kernel for new ones. Nothing is assumed about what a kernel returns;
/// the contracts of the library say of a value only which call of the
/// kernel may have returned it (`is_shape`, `is_add` and so on).
pub trait Kernel<V> {
    /// The extent of `v` along each of its axes.
    fn shape(&self, v: &V) -> Vec<usize>;

    /// A copy of `v`.
    fn copy(&self, v: &V) -> V;

    /// An array of the given shape whose elements are all one.
    fn ones(&self, shape: &Vec<usize>) -> V;

    /// Elementwise sum of `a` and `b`, with broadcasting.
    fn add(&self, a: &V, b: &V) -> V;

    /// Elementwise product of `a` and `b`, with broadcasting.
    fn mul(&self, a: &V, b: &V) -> V;

    /// Elementwise negation.
    fn neg(&self, v: &V) -> V;

    /// Elementwise exponential.
    fn exp(&self, v: &V) -> V;

    /// Elementwise sine.
    fn sin(&self, v: &V) -> V;

    /// Elementwise cosine.
    fn cos(&self, v: &V) -> V;

    /// Sum over one axis, which is removed from the result.
    fn sum_axis(&self, v: &V, axis: usize) -> V;

    /// `v` with a new axis of extent one at the given place.
    fn insert_axis(&self, v: &V, axis: usize) -> V;

    /// `v` repeated along broadcast axes until it has the given shape.
    fn broadcast_to(&self, v: &V, shape: &Vec<usize>) -> V;

    /// The elements of `v` laid out in the given shape.
    fn reshape(&self, v: &V, shape: &Vec<usize>) -> V;

    /// `v` with its axes permuted: axis `i` of the result is axis
    /// `axes[i]` of `v`.
    fn permute(&self, v: &V, axes: &Vec<usize>) -> V;
}

/// `shape` is what the kernel may report as the shape of `v`.
pub open spec fn is_shape<V, K: Kernel<V>>(k: K, v: V, shape: Seq<usize>) -> bool {
    exists|s: Vec<usize>| s@ == shape && #[trigger] K::shape.ensures((&k, &v), s)
}

/// `r` is what the kernel may return as a copy of `v`.
pub open spec fn is_copy<V, K: Kernel<V>>(k: K, v: V, r: V) -> bool {
    K::copy.ensures((&k, &v), r)
}

/// `r` is what the kernel may return as the all-ones array of the given
/// shape.
pub open spec fn is_ones<V, K: Kernel<V>>(k: K, shape: Seq<usize>, r: V) -> bool {
    exists|s: Vec<usize>| s@ == shape && #[trigger] K::ones.ensures((&k, &s), r)
}

/// `r` is what the kernel may return as the sum of `a` and `b`.
pub open spec fn is_add<V, K: Kernel<V>>(k: K, a: V, b: V, r: V) -> bool {
    K::add.ensures((&k, &a, &b), r)
}

/// `r` is what the kernel may return as the product of `a` and `b`.
pub open spec fn is_mul<V, K: Kernel<V>>(k: K, a: V, b: V, r: V) -> bool {
    K::mul.ensures((&k, &a, &b), r)
}

/// `r` is what the kernel may return as the negation of `v`.
pub open spec fn is_neg<V, K: Kernel<V>>(k: K, v: V, r: V) -> bool {
    K::neg.ensures((&k, &v), r)
}

/// `r` is what the kernel may return as the exponential of `v`.
pub open spec fn is_exp<V, K: Kernel<V>>(k: K, v: V, r: V) -> bool {
    K::exp.ensures((&k, &v), r)
}

/// `r` is what the kernel may return as the sine of `v`.
pub open spec fn is_sin<V, K: Kernel<V>>(k: K, v: V, r: V) -> bool {
    K::sin.ensures((&k, &v), r)
}

/// `r` is what the kernel may return as the cosine of `v`.
pub open spec fn is_cos<V, K: Kernel<V>>(k: K, v: V, r: V) -> bool {
    K::cos.ensures((&k, &v), r)
}

/// `r` is what the kernel may return as the sum of `v` over one axis.
pub open spec fn is_sum_axis<V, K: Kernel<V>>(k: K, v: V, axis: usize, r: V) -> bool {
    K::sum_axis.ensures((&k, &v, axis), r)
}

/// `r` is what the kernel may return as `v` with a new axis of extent one
/// at the given place.
pub open spec fn is_insert_axis<V, K: Kernel<V>>(k: K, v: V, axis: usize, r: V) -> bool {
    K::insert_axis.ensures((&k, &v, axis), r)
}

/// `r` is `v` summed over one axis; with `keep_dim` the axis is put back
/// with extent one.
pub open spec fn is_reduced<V, K: Kernel<V>>(k: K, v: V, axis: usize, keep_dim: bool, r: V) -> bool {
    if keep_dim {
        exists|summed: V| #[trigger] is_sum_axis(k, v, axis, summed) && is_insert_axis(k, summed, axis, r)
    } else {
        is_sum_axis(k, v, axis, r)
    }
}

/// `r` is `v` reduced over each of `axes`, from the last to the first.
pub open spec fn is_reduced_over<V, K: Kernel<V>>(
    k: K,
    v: V,
    axes: Seq<usize>,
    keep_dim: bool,
    r: V,
) -> bool
    decreases axes.len(),
{
    if axes.len() == 0 {
        r == v
    } else {
        exists|once: V|
            #[trigger] is_reduced(k, v, axes.last(), keep_dim, once) && is_reduced_over(
                k,
                once,
                axes.drop_last(),
                keep_dim,
                r,
            )
    }
}

/// `r` is what the kernel may return as the sum of `v` over `axes`: a
/// copy of `v`, summed over one axis after the other, from the last to
/// the first. With `keep_dim` each summed axis is put back with extent
/// one, otherwise it is gone.
pub open spec fn is_sum_axes<V, K: Kernel<V>>(
    k: K,
    v: V,
    axes: Seq<usize>,
    keep_dim: bool,
    r: V,
) -> bool {
    exists|copy: V| #[trigger] is_copy(k, v, copy) && is_reduced_over(k, copy, axes, keep_dim, r)
}

/// `r` is what the kernel may return as `v` broadcast to `shape`.
pub open spec fn is_broadcast<V, K: Kernel<V>>(k: K, v: V, shape: Seq<usize>, r: V) -> bool {
    exists|s: Vec<usize>| s@ == shape && #[trigger] K::broadcast_to.ensures((&k, &v, &s), r)
}

/// `r` is what the kernel may return as `v` laid out in `shape`.
pub open spec fn is_reshape<V, K: Kernel<V>>(k: K, v: V, shape: Seq<usize>, r: V) -> bool {
    exists|s: Vec<usize>| s@ == shape && #[trigger] K::reshape.ensures((&k, &v, &s), r)
}

/// `r` is what the kernel may return as `v` with its axes permuted by
/// `axes`.
pub open spec fn is_permute<V, K: Kernel<V>>(k: K, v: V, axes: Seq<usize>, r: V) -> bool {
    exists|a: Vec<usize>| a@ == axes && #[trigger] K::permute.ensures((&k, &v, &a), r)
}

/// `r` is what the kernel may return for the sum of `values`, added up
/// from the first to the last, starting from a copy of the first.
pub open spec fn is_sum_of<V, K: Kernel<V>>(k: K, values: Seq<V>, r: V) -> bool
    decreases values.len(),
{
    if values.len() == 0 {
        false
    } else if values.len() == 1 {
        is_copy(k, values[0], r)
    } else {
        exists|part: V|
            is_sum_of(k, values.drop_last(), part) && #[trigger] is_add(k, part, values.last(), r)
    }
}

} // verus!
