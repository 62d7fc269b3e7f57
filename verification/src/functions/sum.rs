use vstd::prelude::*;
use crate::functions::broadcast::Broadcast;
use crate::functions::reshape::reshape;
use crate::functions::{applied, given_or_new, lemma_applied_keeps, record, step_is, steps};
use crate::graph::{to_vec, Graph, Rule};
use crate::kernel::{
    is_broadcast, is_copy, is_reduced, is_reduced_over, is_reshape, is_shape, is_sum_axes,
    is_sum_axis, Kernel,
};
use crate::shape::{axis_summed, same_shape, strictly_increasing, sum_axes_to_desire};

verus! {

/// What the backward rule of a sum over axes does: one broadcast of the
/// gradient `gys[0]` to `original`, the shape that was remembered for the
/// input, whose result is the one gradient returned.
pub open spec fn sum_ran<V, U, K: Kernel<V>>(
    before: &Graph<V, U, K>,
    after: &Graph<V, U, K>,
    original: Seq<usize>,
    gys: Seq<usize>,
    gxs: Seq<usize>,
) -> bool {
    let n0 = before.nodes().len() as usize;
    let c0 = before.calls().len() as int;
    &&& steps(before, after, 1)
    &&& gxs == seq![n0]
    &&& step_is(before, after, 0, gys)
    &&& is_broadcast(before.kernel_view(), before.value_of(gys[0]), original, after.value_of(n0))
    &&& before.tracing() ==> {
        &&& after.calls()[c0].backward is Broadcast
        &&& after.calls()[c0].backward->Broadcast_0.target() == original
    }
}

/// Sum over some axes of an array.
pub struct Sum {
    /// The axes to sum over, in increasing order.
    pub axes: Vec<usize>,
    /// Whether the summed axes stay, with extent one.
    pub keep_dim: bool,
    original_shape: Vec<usize>,
}

impl Sum {
    /// A sum over the given axes, which must be in increasing order.
    pub fn new(axes: Vec<usize>, keep_dim: bool) -> (sum: Self)
        requires
            strictly_increasing(axes@),
        ensures
            sum.summed() == axes@,
            sum.keeps_dim() == keep_dim,
            sum.original_shape() == Seq::<usize>::empty(),
    {
        Sum { axes, keep_dim, original_shape: Vec::new() }
    }

    /// The axes that are summed over.
    pub closed spec fn summed(&self) -> Seq<usize> {
        self.axes@
    }

    /// Whether the summed axes stay, with extent one.
    pub closed spec fn keeps_dim(&self) -> bool {
        self.keep_dim
    }

    /// The shape of the input, known once the sum has been applied.
    pub closed spec fn original_shape(&self) -> Seq<usize> {
        self.original_shape@
    }

    /// A copy of this operation.
    pub fn copy(&self) -> (copy: Self)
        ensures
            copy.summed() == self.summed(),
            copy.keeps_dim() == self.keeps_dim(),
            copy.original_shape() == self.original_shape(),
    {
        Sum {
            axes: to_vec(self.axes.as_slice()),
            keep_dim: self.keep_dim,
            original_shape: to_vec(self.original_shape.as_slice()),
        }
    }

    /// The value of the one input summed over the axes.
    pub fn forward<V, U, K: Kernel<V>>(&self, graph: &Graph<V, U, K>, xs: &[usize]) -> (y: V)
        requires
            graph.has_nodes(xs@),
            xs@.len() == 1,
        ensures
            is_sum_axes(
                graph.kernel_view(),
                graph.value_of(xs@[0]),
                self.summed(),
                self.keeps_dim(),
                y,
            ),
    {
        assert(graph.has_node(xs@[0]));
        let ghost k = graph.kernel_view();
        let ghost axes = self.axes@;
        let ghost keep = self.keep_dim;
        let mut x = graph.kernel().copy(graph.value(xs[0]));
        let ghost copy = x;
        let mut left: usize = self.axes.len();
        proof {
            assert(axes.take(left as int) == axes);
        }
        while left > 0
            invariant
                left <= axes.len(),
                axes == self.axes@,
                keep == self.keep_dim,
                k == graph.kernel_view(),
                forall|r: V| #[trigger]
                    is_reduced_over(k, x, axes.take(left as int), keep, r) ==> is_reduced_over(
                        k,
                        copy,
                        axes,
                        keep,
                        r,
                    ),
            decreases left,
        {
            let axis: usize = self.axes[left - 1];
            let ghost before = x;
            let summed = graph.kernel().sum_axis(&x, axis);
            if self.keep_dim {
                x = graph.kernel().insert_axis(&summed, axis);
            } else {
                x = summed;
            }
            proof {
                let longer = axes.take(left as int);
                let shorter = axes.take(left - 1);
                assert(longer.last() == axis);
                assert(longer.drop_last() == shorter);
                assert(is_sum_axis(k, before, axis, summed));
                assert(is_reduced(k, before, axis, keep, x));
                assert forall|r: V| #[trigger] is_reduced_over(k, x, shorter, keep, r) implies is_reduced_over(
                    k,
                    copy,
                    axes,
                    keep,
                    r,
                ) by {
                    assert(is_reduced_over(k, before, longer, keep, r));
                }
            }
            left -= 1;
        }
        proof {
            assert(axes.take(0).len() == 0);
            assert(is_reduced_over(k, x, axes.take(0), keep, x));
            assert(is_copy(k, graph.value_of(xs@[0]), copy));
        }
        x
    }

    /// Turns the operation into the rule that is recorded with the call:
    /// the rule remembers the shape of the input.
    pub fn into_backward<V, U, K: Kernel<V>>(self, graph: &Graph<V, U, K>, xs: &[usize]) -> (rule:
        Rule<U>)
        requires
            graph.has_nodes(xs@),
            xs@.len() == 1,
        ensures
            rule is Sum,
            rule->Sum_0.summed() == self.summed(),
            rule->Sum_0.keeps_dim() == self.keeps_dim(),
            is_shape(graph.kernel_view(), graph.value_of(xs@[0]), rule->Sum_0.original_shape()),
    {
        assert(graph.has_node(xs@[0]));
        let original_shape = graph.shape(xs[0]);
        Rule::Sum(Sum { axes: self.axes, keep_dim: self.keep_dim, original_shape })
    }

    /// Sums the one input over the axes and records the call if the
    /// graph is recording.
    pub fn call<V, U, K: Kernel<V>>(self, graph: &mut Graph<V, U, K>, xs: &[usize]) -> (ys: Vec<
        usize,
    >)
        requires
            old(graph).wf(),
            old(graph).has_nodes(xs@),
            xs@.len() == 1,
        ensures
            ys@.len() == 1,
            applied(old(graph), final(graph), xs@, ys@[0], old(graph).tracing()),
            old(graph).tracing() ==> final(graph).calls().last().backward is Sum,
            old(graph).tracing() ==> {
                &&& final(graph).calls().last().backward->Sum_0.summed() == self.summed()
                &&& final(graph).calls().last().backward->Sum_0.keeps_dim() == self.keeps_dim()
            },
            is_sum_axes(
                old(graph).kernel_view(),
                old(graph).value_of(xs@[0]),
                self.summed(),
                self.keeps_dim(),
                final(graph).value_of(ys@[0]),
            ),
            old(graph).tracing() ==> is_shape(
                old(graph).kernel_view(),
                old(graph).value_of(xs@[0]),
                final(graph).calls().last().backward->Sum_0.original_shape(),
            ),
    {
        let value = self.forward(graph, xs);
        let trace = graph.is_tracing();
        let rule = self.into_backward(graph, xs);
        let y = record(graph, xs, value, rule, trace);
        vec![y]
    }

    /// The gradient of the input: the gradient of the output broadcast
    /// back to the shape of the input.
    pub fn backward<V, U, K: Kernel<V>>(
        &self,
        graph: &mut Graph<V, U, K>,
        xs: &[usize],
        ys: &[usize],
        gys: &[usize],
    ) -> (gxs: Vec<usize>)
        requires
            old(graph).wf(),
            old(graph).has_nodes(gys@),
            xs@.len() == 1,
            gys@.len() == 1,
        ensures
            final(graph).wf(),
            old(graph).extended_by(final(graph)),
            gxs@.len() == xs@.len(),
            final(graph).has_nodes(gxs@),
            old(graph).kept_but(final(graph), Set::empty()),
            given_or_new(old(graph), gxs@, gys@),
            sum_ran(old(graph), final(graph), self.original_shape(), gys@, gxs@),
            steps(old(graph), final(graph), 1),
            gxs@ == seq![old(graph).nodes().len() as usize],
            step_is(old(graph), final(graph), 0, gys@),
            old(graph).tracing() ==> {
                &&& final(graph).calls()[old(graph).calls().len() as int].backward is Broadcast
                &&& final(graph).calls()[old(graph).calls().len() as int].backward->Broadcast_0.target()
                    == self.original_shape()
            },
    {
        let gxs = Broadcast::new(to_vec(self.original_shape.as_slice())).call(graph, gys);
        assert(gxs@ =~= seq![old(graph).nodes().len() as usize]);
        gxs
    }
}

/// `axes` are, in increasing order, the axes of `from` to sum over for a
/// value of shape `shape` that was broadcast to `from`.
pub open spec fn axes_fit(from: Seq<usize>, shape: Seq<usize>, axes: Seq<usize>) -> bool {
    &&& strictly_increasing(axes)
    &&& forall|a: usize|
        axes.contains(a) <==> a < from.len() && axis_summed(from, shape, a as int)
}

/// The first stage of `sum_to`, for a gradient `g` of shape `from`: where
/// there are axes to sum over, `mid` is `before` after one sum of `g` over
/// them, not keeping them, with the result `r`; where there are none,
/// nothing happened and `r` is `g`.
pub open spec fn reduced_to<V, U, K: Kernel<V>>(
    before: &Graph<V, U, K>,
    mid: &Graph<V, U, K>,
    g: usize,
    from: Seq<usize>,
    shape: Seq<usize>,
    r: usize,
) -> bool {
    exists|axes: Seq<usize>|
        #[trigger] axes_fit(from, shape, axes) && if axes.len() == 0 {
            &&& r == g
            &&& mid.nodes() == before.nodes()
            &&& mid.calls() == before.calls()
        } else {
            &&& applied(before, mid, seq![g], r, before.tracing())
            &&& is_sum_axes(
                before.kernel_view(),
                before.value_of(g),
                axes,
                false,
                mid.value_of(r),
            )
            &&& before.tracing() ==> {
                &&& mid.calls().last().backward is Sum
                &&& mid.calls().last().backward->Sum_0.summed() == axes
                &&& !mid.calls().last().backward->Sum_0.keeps_dim()
            }
        }
}

/// The second stage of `sum_to`, for a node `r1` of shape `reduced`:
/// where that is not yet `shape`, `after` is `mid` after one reshape of
/// `r1` to `shape`, with the result `r`; where it is, nothing happened
/// and `r` is `r1`.
pub open spec fn reshaped_to<V, U, K: Kernel<V>>(
    mid: &Graph<V, U, K>,
    after: &Graph<V, U, K>,
    r1: usize,
    reduced: Seq<usize>,
    shape: Seq<usize>,
    r: usize,
) -> bool {
    if reduced == shape {
        &&& r == r1
        &&& after.nodes() == mid.nodes()
        &&& after.calls() == mid.calls()
    } else {
        &&& applied(mid, after, seq![r1], r, mid.tracing())
        &&& is_reshape(mid.kernel_view(), mid.value_of(r1), shape, after.value_of(r))
        &&& mid.tracing() ==> {
            &&& after.calls().last().backward is Reshape
            &&& after.calls().last().backward->Reshape_0.target() == shape
        }
    }
}

/// What `sum_to` does to a graph, given the shapes that the kernel
/// reports: nothing where `g` has the shape already; otherwise the first
/// stage on `g` and then the second stage on its result.
pub open spec fn summed_to<V, U, K: Kernel<V>>(
    before: &Graph<V, U, K>,
    after: &Graph<V, U, K>,
    g: usize,
    shape: Seq<usize>,
    r: usize,
) -> bool {
    exists|from: Seq<usize>|
        #[trigger] is_shape(before.kernel_view(), before.value_of(g), from) && if from == shape {
            &&& r == g
            &&& after.nodes() == before.nodes()
            &&& after.calls() == before.calls()
        } else {
            exists|mid: Graph<V, U, K>, r1: usize, reduced: Seq<usize>|
                #![trigger reduced_to(before, &mid, g, from, shape, r1), reshaped_to(&mid, after, r1, reduced, shape, r)]
                {
                    &&& reduced_to(before, &mid, g, from, shape, r1)
                    &&& mid.has_node(r1)
                    &&& is_shape(mid.kernel_view(), mid.value_of(r1), reduced)
                    &&& reshaped_to(&mid, after, r1, reduced, shape, r)
                }
        }
}

/// Reduces the gradient `g` to the given shape, for a value of that shape
/// that was broadcast: sums over the axes that `sum_axes_to_desire` names,
/// without keeping them, and reshapes the result where its shape still
/// differs. Returns `g` itself where it already has the shape. The
/// shapes are those that the kernel reports.
pub fn sum_to<V, U, K: Kernel<V>>(graph: &mut Graph<V, U, K>, g: usize, shape: &[usize]) -> (r:
    usize)
    requires
        old(graph).wf(),
        old(graph).has_node(g),
    ensures
        final(graph).wf(),
        old(graph).extended_by(final(graph)),
        final(graph).has_node(r),
        old(graph).kept_but(final(graph), Set::empty()),
        r == g || r >= old(graph).nodes().len(),
        summed_to(old(graph), final(graph), g, shape@, r),
{
    let from = graph.shape(g);
    if same_shape(from.as_slice(), shape) {
        assert(summed_to(old(graph), graph, g, shape@, g));
        return g;
    }
    let axes = sum_axes_to_desire(from.as_slice(), shape);
    let ghost chosen = axes@;
    let mut r: usize = g;
    if axes.len() > 0 {
        let xs: [usize; 1] = [g];
        assert(xs@[0] == g);
        assert(xs@ == seq![g]);
        let ys = Sum::new(axes, false).call(graph, xs.as_slice());
        r = ys[0];
    }
    let ghost mid = *graph;
    let ghost r1 = r;
    proof {
        assert(axes_fit(from@, shape@, chosen));
        assert(reduced_to(old(graph), &mid, g, from@, shape@, r1));
    }
    let reduced = graph.shape(r);
    if !same_shape(reduced.as_slice(), shape) {
        r = reshape(graph, r, to_vec(shape));
        proof {
            old(graph).lemma_extended_by_transitive(&mid, graph);
        }
    }
    proof {
        assert(reshaped_to(&mid, graph, r1, reduced@, shape@, r));
        assert(summed_to(old(graph), graph, g, shape@, r));
    }
    r
}

} // verus!
