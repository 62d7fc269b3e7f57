use vstd::prelude::*;
use crate::functions::{applied, given_or_new, lemma_applied_keeps, record, step_is, steps};
use crate::graph::{Graph, Rule};
use crate::kernel::{is_neg, Kernel};

verus! {

/// What the backward rule of a negation does: one negation of the
/// gradient `gys[0]`, whose result is the one gradient returned.
pub open spec fn neg_ran<V, U, K: Kernel<V>>(
    before: &Graph<V, U, K>,
    after: &Graph<V, U, K>,
    gys: Seq<usize>,
    gxs: Seq<usize>,
) -> bool {
    let n0 = before.nodes().len() as usize;
    &&& steps(before, after, 1)
    &&& gxs == seq![n0]
    &&& step_is(before, after, 0, gys)
    &&& is_neg(before.kernel_view(), before.value_of(gys[0]), after.value_of(n0))
    &&& before.tracing() ==> after.calls()[before.calls().len() as int].backward is Neg
}

/// Elementwise negation.
pub struct Neg;

impl Neg {
    /// The negated value of the one input.
    pub fn forward<V, U, K: Kernel<V>>(&self, graph: &Graph<V, U, K>, xs: &[usize]) -> (y: V)
        requires
            graph.has_nodes(xs@),
            xs@.len() == 1,
        ensures
            is_neg(graph.kernel_view(), graph.value_of(xs@[0]), y),
    {
        assert(graph.has_node(xs@[0]));
        graph.kernel().neg(graph.value(xs[0]))
    }

    /// Negates the one input and records the call if the graph is
    /// recording.
    pub fn call<V, U, K: Kernel<V>>(&self, graph: &mut Graph<V, U, K>, xs: &[usize]) -> (ys: Vec<
        usize,
    >)
        requires
            old(graph).wf(),
            old(graph).has_nodes(xs@),
            xs@.len() == 1,
        ensures
            ys@.len() == 1,
            applied(old(graph), final(graph), xs@, ys@[0], old(graph).tracing()),
            old(graph).tracing() ==> final(graph).calls().last().backward is Neg,
            is_neg(old(graph).kernel_view(), old(graph).value_of(xs@[0]), final(graph).value_of(ys@[0])),
    {
        let value = self.forward(graph, xs);
        let trace = graph.is_tracing();
        let y = record(graph, xs, value, Rule::Neg(Neg), trace);
        vec![y]
    }

    /// The gradient of the input: the negated gradient of the output.
    pub fn backward<V, U, K: Kernel<V>>(
        &self,
        graph: &mut Graph<V, U, K>,
        xs: &[usize],
        ys: &[usize],
        gys: &[usize],
    ) -> (gxs: Vec<usize>)
        requires
            old(graph).wf(),
            old(graph).has_nodes(gys@),
            xs@.len() == 1,
            gys@.len() == 1,
        ensures
            final(graph).wf(),
            old(graph).extended_by(final(graph)),
            gxs@.len() == xs@.len(),
            final(graph).has_nodes(gxs@),
            old(graph).kept_but(final(graph), Set::empty()),
            given_or_new(old(graph), gxs@, gys@),
            neg_ran(old(graph), final(graph), gys@, gxs@),
            steps(old(graph), final(graph), 1),
            gxs@ == seq![old(graph).nodes().len() as usize],
            step_is(old(graph), final(graph), 0, gys@),
            old(graph).tracing() ==> final(graph).calls()[old(graph).calls().len() as int].backward is Neg,
    {
        let gxs = Neg.call(graph, gys);
        assert(gxs@ =~= seq![old(graph).nodes().len() as usize]);
        gxs
    }
}

} // verus!
