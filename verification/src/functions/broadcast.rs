use vstd::prelude::*;
use crate::functions::sum::{sum_to, summed_to};
use crate::functions::{applied, given_or_new, lemma_applied_keeps, record};
use crate::graph::{to_vec, Graph, Rule};
use crate::kernel::{is_broadcast, is_shape, Kernel};

verus! {

/// What the backward rule of a broadcast does: the gradient `gys[0]` is
/// reduced to `original`, the shape that was remembered for the input
/// (see `sum_to`), and the result is the one gradient returned.
pub open spec fn broadcast_ran<V, U, K: Kernel<V>>(
    before: &Graph<V, U, K>,
    after: &Graph<V, U, K>,
    original: Seq<usize>,
    gys: Seq<usize>,
    gxs: Seq<usize>,
) -> bool {
    &&& gxs.len() == 1
    &&& summed_to(before, after, gys[0], original, gxs[0])
}

/// Broadcast of an array to a larger shape.
pub struct Broadcast {
    /// The shape to broadcast to.
    pub shape: Vec<usize>,
    original_shape: Vec<usize>,
}

impl Broadcast {
    /// A broadcast to the given shape.
    pub fn new(shape: Vec<usize>) -> (broadcast: Self)
        ensures
            broadcast.target() == shape@,
            broadcast.original_shape() == Seq::<usize>::empty(),
    {
        Broadcast { shape, original_shape: Vec::new() }
    }

    /// The shape to broadcast to.
    pub closed spec fn target(&self) -> Seq<usize> {
        self.shape@
    }

    /// The shape of the input, known once the broadcast has been applied.
    pub closed spec fn original_shape(&self) -> Seq<usize> {
        self.original_shape@
    }

    /// A copy of this operation.
    pub fn copy(&self) -> (copy: Self)
        ensures
            copy.target() == self.target(),
            copy.original_shape() == self.original_shape(),
    {
        Broadcast {
            shape: to_vec(self.shape.as_slice()),
            original_shape: to_vec(self.original_shape.as_slice()),
        }
    }

    /// The value of the one input broadcast to the shape.
    pub fn forward<V, U, K: Kernel<V>>(&self, graph: &Graph<V, U, K>, xs: &[usize]) -> (y: V)
        requires
            graph.has_nodes(xs@),
            xs@.len() == 1,
        ensures
            is_broadcast(graph.kernel_view(), graph.value_of(xs@[0]), self.target(), y),
    {
        assert(graph.has_node(xs@[0]));
        graph.kernel().broadcast_to(graph.value(xs[0]), &self.shape)
    }

    /// Broadcasts the one input and records the call if the graph is
    /// recording. The recorded rule remembers the shape of the input.
    pub fn call<V, U, K: Kernel<V>>(self, graph: &mut Graph<V, U, K>, xs: &[usize]) -> (ys: Vec<
        usize,
    >)
        requires
            old(graph).wf(),
            old(graph).has_nodes(xs@),
            xs@.len() == 1,
        ensures
            ys@.len() == 1,
            applied(old(graph), final(graph), xs@, ys@[0], old(graph).tracing()),
            old(graph).tracing() ==> final(graph).calls().last().backward is Broadcast,
            is_broadcast(
                old(graph).kernel_view(),
                old(graph).value_of(xs@[0]),
                self.target(),
                final(graph).value_of(ys@[0]),
            ),
            old(graph).tracing() ==> final(graph).calls().last().backward->Broadcast_0.target()
                == self.target(),
            old(graph).tracing() ==> is_shape(
                old(graph).kernel_view(),
                old(graph).value_of(xs@[0]),
                final(graph).calls().last().backward->Broadcast_0.original_shape(),
            ),
    {
        let value = self.forward(graph, xs);
        let trace = graph.is_tracing();
        assert(graph.has_node(xs@[0]));
        let original_shape = graph.shape(xs[0]);
        let rule = Rule::Broadcast(Broadcast { shape: self.shape, original_shape });
        let y = record(graph, xs, value, rule, trace);
        vec![y]
    }

    /// The gradient of the input: the gradient of the output summed down
    /// to the shape of the input.
    pub fn backward<V, U, K: Kernel<V>>(
        &self,
        graph: &mut Graph<V, U, K>,
        xs: &[usize],
        ys: &[usize],
        gys: &[usize],
    ) -> (gxs: Vec<usize>)
        requires
            old(graph).wf(),
            old(graph).has_nodes(gys@),
            xs@.len() == 1,
            gys@.len() == 1,
        ensures
            final(graph).wf(),
            old(graph).extended_by(final(graph)),
            gxs@.len() == xs@.len(),
            final(graph).has_nodes(gxs@),
            old(graph).kept_but(final(graph), Set::empty()),
            given_or_new(old(graph), gxs@, gys@),
            broadcast_ran(old(graph), final(graph), self.original_shape(), gys@, gxs@),
    {
        assert(graph.has_node(gys@[0]));
        let gx = sum_to(graph, gys[0], self.original_shape.as_slice());
        let gxs = vec![gx];
        assert(gxs@[0] == gx);
        gxs
    }
}

} // verus!
