use vstd::prelude::*;
use crate::functions::{applied, given_or_new, lemma_applied_keeps, record, step_is, steps};
use crate::graph::{to_vec, Graph, Rule};
use crate::kernel::{is_permute, Kernel};
use crate::shape::{inverse_permutation, is_permutation};

verus! {

/// The value of `x` with its axes permuted, recorded if the graph is
/// recording: axis `i` of the result is axis `axes[i]` of `x`.
pub fn transpose<V, U, K: Kernel<V>>(graph: &mut Graph<V, U, K>, x: usize, axes: Vec<usize>) -> (y:
    usize)
    requires
        old(graph).wf(),
        old(graph).has_node(x),
        is_permutation(axes@),
    ensures
        applied(old(graph), final(graph), seq![x], y, old(graph).tracing()),
        is_permute(
            old(graph).kernel_view(),
            old(graph).value_of(x),
            axes@,
            final(graph).value_of(y),
        ),
        old(graph).tracing() ==> final(graph).calls().last().backward is Transpose,
        old(graph).tracing() ==> final(graph).calls().last().backward->Transpose_0.axes()
            == axes@,
{
    let xs: [usize; 1] = [x];
    assert(xs@ == seq![x]);
    assert(xs@[0] == x);
    let ys = Transpose::new(axes).call(graph, xs.as_slice());
    ys[0]
}

/// `undo` is the permutation that undoes `axes`.
pub open spec fn undoes(undo: Seq<usize>, axes: Seq<usize>) -> bool {
    &&& undo.len() == axes.len()
    &&& forall|j: int| 0 <= j < axes.len() ==> undo[#[trigger] axes[j] as int] == j
    &&& forall|a: int| 0 <= a < axes.len() ==> axes[#[trigger] undo[a] as int] == a
}

/// What the backward rule of a permutation of axes does: one permutation
/// of the gradient `gys[0]` by the permutation that undoes `axes`, whose
/// result is the one gradient returned.
pub open spec fn transpose_ran<V, U, K: Kernel<V>>(
    before: &Graph<V, U, K>,
    after: &Graph<V, U, K>,
    axes: Seq<usize>,
    gys: Seq<usize>,
    gxs: Seq<usize>,
) -> bool {
    let n0 = before.nodes().len() as usize;
    let c0 = before.calls().len() as int;
    &&& steps(before, after, 1)
    &&& gxs == seq![n0]
    &&& step_is(before, after, 0, gys)
    &&& exists|undo: Seq<usize>|
        {
            &&& #[trigger] undoes(undo, axes)
            &&& is_permute(before.kernel_view(), before.value_of(gys[0]), undo, after.value_of(n0))
            &&& before.tracing() ==> {
                &&& after.calls()[c0].backward is Transpose
                &&& after.calls()[c0].backward->Transpose_0.axes() == undo
            }
        }
}

/// Permutation of the axes of an array.
pub struct Transpose {
    axes: Vec<usize>,
}

impl Transpose {
    #[verifier::type_invariant]
    spec fn listed_once(self) -> bool {
        is_permutation(self.axes@)
    }

    /// The permutation: axis `i` of the result is axis `axes()[i]` of the
    /// input.
    pub closed spec fn axes(&self) -> Seq<usize> {
        self.axes@
    }

    /// The permutation that makes axis `axes[i]` of the input axis `i` of
    /// the result. Every axis must be listed exactly once.
    pub fn new(axes: Vec<usize>) -> (transpose: Self)
        requires
            is_permutation(axes@),
        ensures
            transpose.axes() == axes@,
    {
        Transpose { axes }
    }

    /// A copy of this operation.
    pub fn copy(&self) -> (copy: Self)
        ensures
            copy.axes() == self.axes(),
    {
        proof {
            use_type_invariant(self);
        }
        Transpose { axes: to_vec(self.axes.as_slice()) }
    }

    /// The value of the one input with its axes permuted.
    pub fn forward<V, U, K: Kernel<V>>(&self, graph: &Graph<V, U, K>, xs: &[usize]) -> (y: V)
        requires
            graph.has_nodes(xs@),
            xs@.len() == 1,
        ensures
            is_permute(graph.kernel_view(), graph.value_of(xs@[0]), self.axes(), y),
    {
        assert(graph.has_node(xs@[0]));
        graph.kernel().permute(graph.value(xs[0]), &self.axes)
    }

    /// Permutes the axes of the one input and records the call if the
    /// graph is recording.
    pub fn call<V, U, K: Kernel<V>>(self, graph: &mut Graph<V, U, K>, xs: &[usize]) -> (ys: Vec<
        usize,
    >)
        requires
            old(graph).wf(),
            old(graph).has_nodes(xs@),
            xs@.len() == 1,
        ensures
            ys@.len() == 1,
            applied(old(graph), final(graph), xs@, ys@[0], old(graph).tracing()),
            old(graph).tracing() ==> final(graph).calls().last().backward is Transpose,
            is_permute(old(graph).kernel_view(), old(graph).value_of(xs@[0]), self.axes(), final(graph).value_of(ys@[0])),
            old(graph).tracing() ==> final(graph).calls().last().backward->Transpose_0.axes()
                == self.axes(),
    {
        let value = self.forward(graph, xs);
        let trace = graph.is_tracing();
        let y = record(graph, xs, value, Rule::Transpose(self), trace);
        vec![y]
    }

    /// The permutation that undoes this one.
    pub fn inverse(&self) -> (inverse: Self)
        ensures
            inverse.axes().len() == self.axes().len(),
            forall|j: int|
                0 <= j < self.axes().len() ==> inverse.axes()[#[trigger] self.axes()[j] as int]
                    == j,
            forall|a: int|
                0 <= a < self.axes().len() ==> self.axes()[#[trigger] inverse.axes()[a] as int]
                    == a,
    {
        proof {
            use_type_invariant(self);
        }
        Transpose::new(inverse_permutation(self.axes.as_slice()))
    }

    /// The gradient of the input: the gradient of the output with the
    /// permutation undone.
    pub fn backward<V, U, K: Kernel<V>>(
        &self,
        graph: &mut Graph<V, U, K>,
        xs: &[usize],
        ys: &[usize],
        gys: &[usize],
    ) -> (gxs: Vec<usize>)
        requires
            old(graph).wf(),
            old(graph).has_nodes(gys@),
            xs@.len() == 1,
            gys@.len() == 1,
        ensures
            final(graph).wf(),
            old(graph).extended_by(final(graph)),
            gxs@.len() == xs@.len(),
            final(graph).has_nodes(gxs@),
            old(graph).kept_but(final(graph), Set::empty()),
            given_or_new(old(graph), gxs@, gys@),
            transpose_ran(old(graph), final(graph), self.axes(), gys@, gxs@),
            steps(old(graph), final(graph), 1),
            gxs@ == seq![old(graph).nodes().len() as usize],
            step_is(old(graph), final(graph), 0, gys@),
            old(graph).tracing() ==> {
                let undo = final(graph).calls()[old(graph).calls().len() as int].backward;
                &&& undo is Transpose
                &&& undo->Transpose_0.axes().len() == self.axes().len()
                &&& forall|j: int|
                    0 <= j < self.axes().len() ==> undo->Transpose_0.axes()[#[trigger] self.axes()[j] as int]
                        == j
            },
    {
        let inverse = self.inverse();
        let ghost undo = inverse.axes();
        let gxs = inverse.call(graph, gys);
        proof {
            assert(gxs@ =~= seq![old(graph).nodes().len() as usize]);
            assert(undoes(undo, self.axes()));
        }
        gxs
    }
}

} // verus!
