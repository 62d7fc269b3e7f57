use vstd::prelude::*;
use crate::functions::mul::Mul;
use crate::functions::{applied, given_or_new, lemma_applied_keeps, record, step_is, steps};
use crate::graph::{Graph, Rule};
use crate::kernel::{is_add, is_mul, Kernel};

verus! {

/// What the backward rule of a square does: the product of the gradient
/// `gys[0]` with the input, then the sum of that product with itself,
/// which is the one gradient returned.
pub open spec fn square_ran<V, U, K: Kernel<V>>(
    before: &Graph<V, U, K>,
    after: &Graph<V, U, K>,
    xs: Seq<usize>,
    gys: Seq<usize>,
    gxs: Seq<usize>,
) -> bool {
    let n0 = before.nodes().len() as usize;
    let n1 = (before.nodes().len() + 1) as usize;
    let c0 = before.calls().len() as int;
    &&& steps(before, after, 2)
    &&& gxs == seq![n1]
    &&& step_is(before, after, 0, seq![gys[0], xs[0]])
    &&& is_mul(
        before.kernel_view(),
        before.value_of(gys[0]),
        before.value_of(xs[0]),
        after.value_of(n0),
    )
    &&& step_is(before, after, 1, seq![n0, n0])
    &&& is_add(before.kernel_view(), after.value_of(n0), after.value_of(n0), after.value_of(n1))
    &&& before.tracing() ==> {
        &&& after.calls()[c0].backward is Mul
        &&& after.calls()[c0 + 1].backward is Add
    }
}

/// Elementwise square.
pub struct Square;

impl Square {
    /// The value of the one input, transformed element by element.
    pub fn forward<V, U, K: Kernel<V>>(&self, graph: &Graph<V, U, K>, xs: &[usize]) -> (y: V)
        requires
            graph.has_nodes(xs@),
            xs@.len() == 1,
        ensures
            is_mul(graph.kernel_view(), graph.value_of(xs@[0]), graph.value_of(xs@[0]), y),
    {
        assert(graph.has_node(xs@[0]));
        graph.kernel().mul(graph.value(xs[0]), graph.value(xs[0]))
    }

    /// Applies the operation to the one input and records the call if the
    /// graph is recording.
    pub fn call<V, U, K: Kernel<V>>(&self, graph: &mut Graph<V, U, K>, xs: &[usize]) -> (ys: Vec<
        usize,
    >)
        requires
            old(graph).wf(),
            old(graph).has_nodes(xs@),
            xs@.len() == 1,
        ensures
            ys@.len() == 1,
            applied(old(graph), final(graph), xs@, ys@[0], old(graph).tracing()),
            old(graph).tracing() ==> final(graph).calls().last().backward is Square,
            is_mul(old(graph).kernel_view(), old(graph).value_of(xs@[0]), old(graph).value_of(xs@[0]), final(graph).value_of(ys@[0])),
    {
        let value = self.forward(graph, xs);
        let trace = graph.is_tracing();
        let y = record(graph, xs, value, Rule::Square(Square), trace);
        vec![y]
    }

    /// The gradient of the input: twice the gradient of the output times
    /// the input.
    pub fn backward<V, U, K: Kernel<V>>(
        &self,
        graph: &mut Graph<V, U, K>,
        xs: &[usize],
        ys: &[usize],
        gys: &[usize],
    ) -> (gxs: Vec<usize>)
        requires
            old(graph).wf(),
            old(graph).has_nodes(xs@),
            old(graph).has_nodes(gys@),
            xs@.len() == 1,
            gys@.len() == 1,
        ensures
            final(graph).wf(),
            old(graph).extended_by(final(graph)),
            gxs@.len() == xs@.len(),
            final(graph).has_nodes(gxs@),
            old(graph).kept_but(final(graph), Set::empty()),
            given_or_new(old(graph), gxs@, gys@),
            square_ran(old(graph), final(graph), xs@, gys@, gxs@),
            steps(old(graph), final(graph), 2),
            gxs@ == seq![(old(graph).nodes().len() + 1) as usize],
            step_is(old(graph), final(graph), 0, seq![gys@[0], xs@[0]]),
            step_is(
                old(graph),
                final(graph),
                1,
                seq![old(graph).nodes().len() as usize, old(graph).nodes().len() as usize],
            ),
            old(graph).tracing() ==> {
                &&& final(graph).calls()[old(graph).calls().len() as int].backward is Mul
                &&& final(graph).calls()[old(graph).calls().len() as int + 1].backward is Add
            },
    {
        assert(old(graph).has_node(gys@[0]));
        assert(old(graph).has_node(xs@[0]));
        let pair: [usize; 2] = [gys[0], xs[0]];
        proof {
            assert(pair@[0] == gys@[0] && pair@[1] == xs@[0]);
        }
        let once = Mul.call(graph, pair.as_slice());
        let ghost mid = *graph;
        let gx = crate::functions::add::add(graph, once[0], once[0]);
        let gxs = vec![gx];
        proof {
            old(graph).lemma_extended_by_transitive(&mid, graph);
            lemma_applied_keeps(old(graph), &mid, pair@, once@[0], old(graph).tracing());
            lemma_applied_keeps(&mid, graph, seq![once@[0], once@[0]], gx, old(graph).tracing());
            old(graph).lemma_kept_but_transitive(&mid, graph, Set::empty(), Set::empty());
            let n0 = old(graph).nodes().len() as int;
            let c0 = old(graph).calls().len() as int;
            assert(pair@ =~= seq![gys@[0], xs@[0]]);
            assert(gxs@ =~= seq![(n0 + 1) as usize]);
            assert(graph.nodes()[n0] == mid.nodes()[n0]);
            if old(graph).tracing() {
                assert(graph.calls()[c0] == mid.calls()[c0]);
            }
        }
        gxs
    }
}

} // verus!
