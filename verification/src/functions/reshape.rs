use vstd::prelude::*;
use crate::functions::{applied, given_or_new, lemma_applied_keeps, record, step_is, steps};
use crate::graph::{to_vec, Graph, Rule};
use crate::kernel::{is_reshape, is_shape, Kernel};

verus! {

/// The value of `x` laid out in the given shape, recorded if the graph is
/// recording.
pub fn reshape<V, U, K: Kernel<V>>(graph: &mut Graph<V, U, K>, x: usize, shape: Vec<usize>) -> (y:
    usize)
    requires
        old(graph).wf(),
        old(graph).has_node(x),
    ensures
        applied(old(graph), final(graph), seq![x], y, old(graph).tracing()),
        is_reshape(
            old(graph).kernel_view(),
            old(graph).value_of(x),
            shape@,
            final(graph).value_of(y),
        ),
        old(graph).tracing() ==> final(graph).calls().last().backward is Reshape,
        old(graph).tracing() ==> final(graph).calls().last().backward->Reshape_0.target()
            == shape@,
{
    let xs: [usize; 1] = [x];
    assert(xs@ == seq![x]);
    assert(xs@[0] == x);
    let ys = Reshape::new(shape).call(graph, xs.as_slice());
    ys[0]
}

/// What the backward rule of a reshape does: one reshape of the gradient
/// `gys[0]` to `original`, the shape that was remembered for the input,
/// whose result is the one gradient returned.
pub open spec fn reshape_ran<V, U, K: Kernel<V>>(
    before: &Graph<V, U, K>,
    after: &Graph<V, U, K>,
    original: Seq<usize>,
    gys: Seq<usize>,
    gxs: Seq<usize>,
) -> bool {
    let n0 = before.nodes().len() as usize;
    let c0 = before.calls().len() as int;
    &&& steps(before, after, 1)
    &&& gxs == seq![n0]
    &&& step_is(before, after, 0, gys)
    &&& is_reshape(before.kernel_view(), before.value_of(gys[0]), original, after.value_of(n0))
    &&& before.tracing() ==> {
        &&& after.calls()[c0].backward is Reshape
        &&& after.calls()[c0].backward->Reshape_0.target() == original
    }
}

/// Change of the shape of an array, keeping its elements.
pub struct Reshape {
    /// The shape to give.
    pub shape: Vec<usize>,
    original_shape: Vec<usize>,
}

impl Reshape {
    /// A reshape to the given shape.
    pub fn new(shape: Vec<usize>) -> (reshape: Self)
        ensures
            reshape.target() == shape@,
            reshape.original_shape() == Seq::<usize>::empty(),
    {
        Reshape { shape, original_shape: Vec::new() }
    }

    /// The shape to give.
    pub closed spec fn target(&self) -> Seq<usize> {
        self.shape@
    }

    /// The shape of the input, known once the reshape has been applied.
    pub closed spec fn original_shape(&self) -> Seq<usize> {
        self.original_shape@
    }

    /// A copy of this operation.
    pub fn copy(&self) -> (copy: Self)
        ensures
            copy.target() == self.target(),
            copy.original_shape() == self.original_shape(),
    {
        Reshape {
            shape: to_vec(self.shape.as_slice()),
            original_shape: to_vec(self.original_shape.as_slice()),
        }
    }

    /// The value of the one input in the new shape.
    pub fn forward<V, U, K: Kernel<V>>(&self, graph: &Graph<V, U, K>, xs: &[usize]) -> (y: V)
        requires
            graph.has_nodes(xs@),
            xs@.len() == 1,
        ensures
            is_reshape(graph.kernel_view(), graph.value_of(xs@[0]), self.target(), y),
    {
        assert(graph.has_node(xs@[0]));
        graph.kernel().reshape(graph.value(xs[0]), &self.shape)
    }

    /// Turns the operation into the rule that is recorded with the call:
    /// the rule remembers the shape of the input.
    pub fn into_backward<V, U, K: Kernel<V>>(self, graph: &Graph<V, U, K>, xs: &[usize]) -> (rule:
        Rule<U>)
        requires
            graph.has_nodes(xs@),
            xs@.len() == 1,
        ensures
            rule is Reshape,
            rule->Reshape_0.target() == self.target(),
            is_shape(
                graph.kernel_view(),
                graph.value_of(xs@[0]),
                rule->Reshape_0.original_shape(),
            ),
    {
        assert(graph.has_node(xs@[0]));
        let original_shape = graph.shape(xs[0]);
        Rule::Reshape(Reshape { shape: self.shape, original_shape })
    }

    /// Reshapes the one input and records the call if the graph is
    /// recording.
    pub fn call<V, U, K: Kernel<V>>(self, graph: &mut Graph<V, U, K>, xs: &[usize]) -> (ys: Vec<
        usize,
    >)
        requires
            old(graph).wf(),
            old(graph).has_nodes(xs@),
            xs@.len() == 1,
        ensures
            ys@.len() == 1,
            applied(old(graph), final(graph), xs@, ys@[0], old(graph).tracing()),
            old(graph).tracing() ==> final(graph).calls().last().backward is Reshape,
            old(graph).tracing() ==> final(graph).calls().last().backward->Reshape_0.target()
                == self.target(),
            is_reshape(
                old(graph).kernel_view(),
                old(graph).value_of(xs@[0]),
                self.target(),
                final(graph).value_of(ys@[0]),
            ),
            old(graph).tracing() ==> is_shape(
                old(graph).kernel_view(),
                old(graph).value_of(xs@[0]),
                final(graph).calls().last().backward->Reshape_0.original_shape(),
            ),
    {
        let value = self.forward(graph, xs);
        let trace = graph.is_tracing();
        let rule = self.into_backward(graph, xs);
        let y = record(graph, xs, value, rule, trace);
        vec![y]
    }

    /// The gradient of the input: the gradient of the output in the shape
    /// of the input.
    pub fn backward<V, U, K: Kernel<V>>(
        &self,
        graph: &mut Graph<V, U, K>,
        xs: &[usize],
        ys: &[usize],
        gys: &[usize],
    ) -> (gxs: Vec<usize>)
        requires
            old(graph).wf(),
            old(graph).has_nodes(gys@),
            xs@.len() == 1,
            gys@.len() == 1,
        ensures
            final(graph).wf(),
            old(graph).extended_by(final(graph)),
            gxs@.len() == xs@.len(),
            final(graph).has_nodes(gxs@),
            old(graph).kept_but(final(graph), Set::empty()),
            given_or_new(old(graph), gxs@, gys@),
            reshape_ran(old(graph), final(graph), self.original_shape(), gys@, gxs@),
            steps(old(graph), final(graph), 1),
            gxs@ == seq![old(graph).nodes().len() as usize],
            step_is(old(graph), final(graph), 0, gys@),
            old(graph).tracing() ==> {
                &&& final(graph).calls()[old(graph).calls().len() as int].backward is Reshape
                &&& final(graph).calls()[old(graph).calls().len() as int].backward->Reshape_0.target()
                    == self.original_shape()
            },
    {
        let gxs = Reshape::new(to_vec(self.original_shape.as_slice())).call(graph, gys);
        assert(gxs@ =~= seq![old(graph).nodes().len() as usize]);
        gxs
    }
}

} // verus!
