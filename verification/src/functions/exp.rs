use vstd::prelude::*;
use crate::functions::mul::Mul;
use crate::functions::{applied, given_or_new, lemma_applied_keeps, record, step_is, steps};
use crate::graph::{Graph, Rule};
use crate::kernel::{is_exp, is_mul, Kernel};

verus! {

/// What the backward rule of an exponential does: exp of the input, then the
/// product of the gradient `gys[0]` with it, which is the one gradient
/// returned.
pub open spec fn exp_ran<V, U, K: Kernel<V>>(
    before: &Graph<V, U, K>,
    after: &Graph<V, U, K>,
    xs: Seq<usize>,
    gys: Seq<usize>,
    gxs: Seq<usize>,
) -> bool {
    let n0 = before.nodes().len() as usize;
    let n1 = (before.nodes().len() + 1) as usize;
    let c0 = before.calls().len() as int;
    &&& steps(before, after, 2)
    &&& gxs == seq![n1]
    &&& step_is(before, after, 0, xs)
    &&& is_exp(before.kernel_view(), before.value_of(xs[0]), after.value_of(n0))
    &&& step_is(before, after, 1, seq![gys[0], n0])
    &&& is_mul(
        before.kernel_view(),
        before.value_of(gys[0]),
        after.value_of(n0),
        after.value_of(n1),
    )
    &&& before.tracing() ==> {
        &&& after.calls()[c0].backward is Exp
        &&& after.calls()[c0 + 1].backward is Mul
    }
}

/// Elementwise exponential.
pub struct Exp;

impl Exp {
    /// The value of the one input, transformed element by element.
    pub fn forward<V, U, K: Kernel<V>>(&self, graph: &Graph<V, U, K>, xs: &[usize]) -> (y: V)
        requires
            graph.has_nodes(xs@),
            xs@.len() == 1,
        ensures
            is_exp(graph.kernel_view(), graph.value_of(xs@[0]), y),
    {
        assert(graph.has_node(xs@[0]));
        graph.kernel().exp(graph.value(xs[0]))
    }

    /// Applies the operation to the one input and records the call if the
    /// graph is recording.
    pub fn call<V, U, K: Kernel<V>>(&self, graph: &mut Graph<V, U, K>, xs: &[usize]) -> (ys: Vec<
        usize,
    >)
        requires
            old(graph).wf(),
            old(graph).has_nodes(xs@),
            xs@.len() == 1,
        ensures
            ys@.len() == 1,
            applied(old(graph), final(graph), xs@, ys@[0], old(graph).tracing()),
            old(graph).tracing() ==> final(graph).calls().last().backward is Exp,
            is_exp(old(graph).kernel_view(), old(graph).value_of(xs@[0]), final(graph).value_of(ys@[0])),
    {
        let value = self.forward(graph, xs);
        let trace = graph.is_tracing();
        let y = record(graph, xs, value, Rule::Exp(Exp), trace);
        vec![y]
    }

    /// The gradient of the input: the gradient of the output times the
    /// exponential of the input.
    pub fn backward<V, U, K: Kernel<V>>(
        &self,
        graph: &mut Graph<V, U, K>,
        xs: &[usize],
        ys: &[usize],
        gys: &[usize],
    ) -> (gxs: Vec<usize>)
        requires
            old(graph).wf(),
            old(graph).has_nodes(xs@),
            old(graph).has_nodes(gys@),
            xs@.len() == 1,
            gys@.len() == 1,
        ensures
            final(graph).wf(),
            old(graph).extended_by(final(graph)),
            gxs@.len() == xs@.len(),
            final(graph).has_nodes(gxs@),
            old(graph).kept_but(final(graph), Set::empty()),
            given_or_new(old(graph), gxs@, gys@),
            exp_ran(old(graph), final(graph), xs@, gys@, gxs@),
            steps(old(graph), final(graph), 2),
            gxs@ == seq![(old(graph).nodes().len() + 1) as usize],
            step_is(old(graph), final(graph), 0, xs@),
            step_is(old(graph), final(graph), 1, seq![gys@[0], old(graph).nodes().len() as usize]),
            old(graph).tracing() ==> {
                &&& final(graph).calls()[old(graph).calls().len() as int].backward is Exp
                &&& final(graph).calls()[old(graph).calls().len() as int + 1].backward is Mul
            },
    {
        assert(old(graph).has_node(gys@[0]));
        let gy: usize = gys[0];
        let inner = Exp.call(graph, xs);
        let ghost mid = *graph;
        let pair: [usize; 2] = [gy, inner[0]];
        proof {
            assert(pair@[0] == gy && pair@[1] == inner@[0]);
            assert(mid.has_node(gy));
        }
        let gxs = Mul.call(graph, pair.as_slice());
        proof {
            old(graph).lemma_extended_by_transitive(&mid, graph);
            assert(pair@ =~= seq![gys@[0], old(graph).nodes().len() as usize]);
            assert(gxs@ =~= seq![(old(graph).nodes().len() + 1) as usize]);
            assert(graph.nodes()[old(graph).nodes().len() as int] == mid.nodes()[old(
                graph,
            ).nodes().len() as int]);
            if old(graph).tracing() {
                assert(graph.calls()[old(graph).calls().len() as int] == mid.calls()[old(
                    graph,
                ).calls().len() as int]);
            }
        }
        gxs
    }
}

} // verus!
