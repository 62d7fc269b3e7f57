use vstd::prelude::*;
use crate::functions::mul::Mul;
use crate::functions::neg::Neg;
use crate::functions::{applied, given_or_new, lemma_applied_keeps, record, step_is, steps};
use crate::graph::{Graph, Rule};
use crate::kernel::{is_cos, is_mul, is_neg, is_sin, Kernel};

verus! {

/// What the backward rule of a sine does: cos of the input, then the
/// product of the gradient `gys[0]` with it, which is the one gradient
/// returned.
pub open spec fn sin_ran<V, U, K: Kernel<V>>(
    before: &Graph<V, U, K>,
    after: &Graph<V, U, K>,
    xs: Seq<usize>,
    gys: Seq<usize>,
    gxs: Seq<usize>,
) -> bool {
    let n0 = before.nodes().len() as usize;
    let n1 = (before.nodes().len() + 1) as usize;
    let c0 = before.calls().len() as int;
    &&& steps(before, after, 2)
    &&& gxs == seq![n1]
    &&& step_is(before, after, 0, xs)
    &&& is_cos(before.kernel_view(), before.value_of(xs[0]), after.value_of(n0))
    &&& step_is(before, after, 1, seq![gys[0], n0])
    &&& is_mul(
        before.kernel_view(),
        before.value_of(gys[0]),
        after.value_of(n0),
        after.value_of(n1),
    )
    &&& before.tracing() ==> {
        &&& after.calls()[c0].backward is Cos
        &&& after.calls()[c0 + 1].backward is Mul
    }
}

/// Elementwise sine.
pub struct Sin;

impl Sin {
    /// The value of the one input, transformed element by element.
    pub fn forward<V, U, K: Kernel<V>>(&self, graph: &Graph<V, U, K>, xs: &[usize]) -> (y: V)
        requires
            graph.has_nodes(xs@),
            xs@.len() == 1,
        ensures
            is_sin(graph.kernel_view(), graph.value_of(xs@[0]), y),
    {
        assert(graph.has_node(xs@[0]));
        graph.kernel().sin(graph.value(xs[0]))
    }

    /// Applies the operation to the one input and records the call if the
    /// graph is recording.
    pub fn call<V, U, K: Kernel<V>>(&self, graph: &mut Graph<V, U, K>, xs: &[usize]) -> (ys: Vec<
        usize,
    >)
        requires
            old(graph).wf(),
            old(graph).has_nodes(xs@),
            xs@.len() == 1,
        ensures
            ys@.len() == 1,
            applied(old(graph), final(graph), xs@, ys@[0], old(graph).tracing()),
            old(graph).tracing() ==> final(graph).calls().last().backward is Sin,
            is_sin(old(graph).kernel_view(), old(graph).value_of(xs@[0]), final(graph).value_of(ys@[0])),
    {
        let value = self.forward(graph, xs);
        let trace = graph.is_tracing();
        let y = record(graph, xs, value, Rule::Sin(Sin), trace);
        vec![y]
    }

    /// The gradient of the input: the gradient of the output times the
    /// cosine of the input.
    pub fn backward<V, U, K: Kernel<V>>(
        &self,
        graph: &mut Graph<V, U, K>,
        xs: &[usize],
        ys: &[usize],
        gys: &[usize],
    ) -> (gxs: Vec<usize>)
        requires
            old(graph).wf(),
            old(graph).has_nodes(xs@),
            old(graph).has_nodes(gys@),
            xs@.len() == 1,
            gys@.len() == 1,
        ensures
            final(graph).wf(),
            old(graph).extended_by(final(graph)),
            gxs@.len() == xs@.len(),
            final(graph).has_nodes(gxs@),
            old(graph).kept_but(final(graph), Set::empty()),
            given_or_new(old(graph), gxs@, gys@),
            sin_ran(old(graph), final(graph), xs@, gys@, gxs@),
            steps(old(graph), final(graph), 2),
            gxs@ == seq![(old(graph).nodes().len() + 1) as usize],
            step_is(old(graph), final(graph), 0, xs@),
            step_is(old(graph), final(graph), 1, seq![gys@[0], old(graph).nodes().len() as usize]),
            old(graph).tracing() ==> {
                &&& final(graph).calls()[old(graph).calls().len() as int].backward is Cos
                &&& final(graph).calls()[old(graph).calls().len() as int + 1].backward is Mul
            },
    {
        assert(old(graph).has_node(gys@[0]));
        let gy: usize = gys[0];
        let inner = Cos.call(graph, xs);
        let ghost mid = *graph;
        let pair: [usize; 2] = [gy, inner[0]];
        proof {
            assert(pair@[0] == gy && pair@[1] == inner@[0]);
            assert(mid.has_node(gy));
        }
        let gxs = Mul.call(graph, pair.as_slice());
        proof {
            old(graph).lemma_extended_by_transitive(&mid, graph);
            assert(pair@ =~= seq![gys@[0], old(graph).nodes().len() as usize]);
            assert(gxs@ =~= seq![(old(graph).nodes().len() + 1) as usize]);
            assert(graph.nodes()[old(graph).nodes().len() as int] == mid.nodes()[old(
                graph,
            ).nodes().len() as int]);
            if old(graph).tracing() {
                assert(graph.calls()[old(graph).calls().len() as int] == mid.calls()[old(
                    graph,
                ).calls().len() as int]);
            }
        }
        gxs
    }
}

/// What the backward rule of a cosine does: the sine of the input, its
/// negation, then the product of the gradient `gys[0]` with that, which
/// is the one gradient returned.
pub open spec fn cos_ran<V, U, K: Kernel<V>>(
    before: &Graph<V, U, K>,
    after: &Graph<V, U, K>,
    xs: Seq<usize>,
    gys: Seq<usize>,
    gxs: Seq<usize>,
) -> bool {
    let n0 = before.nodes().len() as usize;
    let n1 = (before.nodes().len() + 1) as usize;
    let n2 = (before.nodes().len() + 2) as usize;
    let c0 = before.calls().len() as int;
    &&& steps(before, after, 3)
    &&& gxs == seq![n2]
    &&& step_is(before, after, 0, xs)
    &&& is_sin(before.kernel_view(), before.value_of(xs[0]), after.value_of(n0))
    &&& step_is(before, after, 1, seq![n0])
    &&& is_neg(before.kernel_view(), after.value_of(n0), after.value_of(n1))
    &&& step_is(before, after, 2, seq![gys[0], n1])
    &&& is_mul(
        before.kernel_view(),
        before.value_of(gys[0]),
        after.value_of(n1),
        after.value_of(n2),
    )
    &&& before.tracing() ==> {
        &&& after.calls()[c0].backward is Sin
        &&& after.calls()[c0 + 1].backward is Neg
        &&& after.calls()[c0 + 2].backward is Mul
    }
}

/// Elementwise cosine.
pub struct Cos;

impl Cos {
    /// The value of the one input, transformed element by element.
    pub fn forward<V, U, K: Kernel<V>>(&self, graph: &Graph<V, U, K>, xs: &[usize]) -> (y: V)
        requires
            graph.has_nodes(xs@),
            xs@.len() == 1,
        ensures
            is_cos(graph.kernel_view(), graph.value_of(xs@[0]), y),
    {
        assert(graph.has_node(xs@[0]));
        graph.kernel().cos(graph.value(xs[0]))
    }

    /// Applies the operation to the one input and records the call if the
    /// graph is recording.
    pub fn call<V, U, K: Kernel<V>>(&self, graph: &mut Graph<V, U, K>, xs: &[usize]) -> (ys: Vec<
        usize,
    >)
        requires
            old(graph).wf(),
            old(graph).has_nodes(xs@),
            xs@.len() == 1,
        ensures
            ys@.len() == 1,
            applied(old(graph), final(graph), xs@, ys@[0], old(graph).tracing()),
            old(graph).tracing() ==> final(graph).calls().last().backward is Cos,
            is_cos(old(graph).kernel_view(), old(graph).value_of(xs@[0]), final(graph).value_of(ys@[0])),
    {
        let value = self.forward(graph, xs);
        let trace = graph.is_tracing();
        let y = record(graph, xs, value, Rule::Cos(Cos), trace);
        vec![y]
    }

    /// The gradient of the input: the gradient of the output times the
    /// negated sine of the input.
    pub fn backward<V, U, K: Kernel<V>>(
        &self,
        graph: &mut Graph<V, U, K>,
        xs: &[usize],
        ys: &[usize],
        gys: &[usize],
    ) -> (gxs: Vec<usize>)
        requires
            old(graph).wf(),
            old(graph).has_nodes(xs@),
            old(graph).has_nodes(gys@),
            xs@.len() == 1,
            gys@.len() == 1,
        ensures
            final(graph).wf(),
            old(graph).extended_by(final(graph)),
            gxs@.len() == xs@.len(),
            final(graph).has_nodes(gxs@),
            old(graph).kept_but(final(graph), Set::empty()),
            given_or_new(old(graph), gxs@, gys@),
            cos_ran(old(graph), final(graph), xs@, gys@, gxs@),
            steps(old(graph), final(graph), 3),
            gxs@ == seq![(old(graph).nodes().len() + 2) as usize],
            step_is(old(graph), final(graph), 0, xs@),
            step_is(old(graph), final(graph), 1, seq![old(graph).nodes().len() as usize]),
            step_is(
                old(graph),
                final(graph),
                2,
                seq![gys@[0], (old(graph).nodes().len() + 1) as usize],
            ),
            old(graph).tracing() ==> {
                &&& final(graph).calls()[old(graph).calls().len() as int].backward is Sin
                &&& final(graph).calls()[old(graph).calls().len() as int + 1].backward is Neg
                &&& final(graph).calls()[old(graph).calls().len() as int + 2].backward is Mul
            },
    {
        assert(old(graph).has_node(gys@[0]));
        let gy: usize = gys[0];
        let sine = Sin.call(graph, xs);
        let ghost first = *graph;
        let inner = Neg.call(graph, sine.as_slice());
        let ghost mid = *graph;
        let pair: [usize; 2] = [gy, inner[0]];
        proof {
            old(graph).lemma_extended_by_transitive(&first, &mid);
            assert(pair@[0] == gy && pair@[1] == inner@[0]);
            assert(mid.has_node(gy));
        }
        let gxs = Mul.call(graph, pair.as_slice());
        proof {
            old(graph).lemma_extended_by_transitive(&mid, graph);
            let n0 = old(graph).nodes().len() as int;
            let c0 = old(graph).calls().len() as int;
            assert(sine@ =~= seq![n0 as usize]);
            assert(pair@ =~= seq![gys@[0], (n0 + 1) as usize]);
            assert(gxs@ =~= seq![(n0 + 2) as usize]);
            assert(mid.nodes()[n0] == first.nodes()[n0]);
            assert(graph.nodes()[n0] == mid.nodes()[n0]);
            assert(graph.nodes()[n0 + 1] == mid.nodes()[n0 + 1]);
            if old(graph).tracing() {
                assert(mid.calls()[c0] == first.calls()[c0]);
                assert(graph.calls()[c0] == mid.calls()[c0]);
                assert(graph.calls()[c0 + 1] == mid.calls()[c0 + 1]);
            }
        }
        gxs
    }
}

} // verus!
