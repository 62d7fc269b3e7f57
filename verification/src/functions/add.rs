use vstd::prelude::*;
use crate::functions::sum::{sum_to, summed_to};
use crate::functions::{applied, given_or_new, lemma_applied_keeps, record};
use crate::graph::{Graph, Rule};
use crate::kernel::{is_add, is_shape, is_sum_of, Kernel};

verus! {

/// One stage of the backward rule of a sum: between `a` and `b` the
/// gradient `gy` was reduced to a shape that the kernel reports for the
/// input `x` (see `sum_to`), and `gx` is the result.
pub open spec fn add_stage<V, U, K: Kernel<V>>(
    before: &Graph<V, U, K>,
    a: &Graph<V, U, K>,
    b: &Graph<V, U, K>,
    x: usize,
    gy: usize,
    gx: usize,
) -> bool {
    exists|shape: Seq<usize>|
        #[trigger] is_shape(before.kernel_view(), before.value_of(x), shape) && summed_to(
            a,
            b,
            gy,
            shape,
            gx,
        )
}

/// What the backward rule of a sum does: one stage for each input, in
/// order; the gradient of an input is the gradient `gys[0]` itself where
/// the shapes agree, and `gys[0]` reduced to the shape of the input
/// where the input was broadcast.
pub open spec fn add_ran<V, U, K: Kernel<V>>(
    before: &Graph<V, U, K>,
    after: &Graph<V, U, K>,
    xs: Seq<usize>,
    gys: Seq<usize>,
    gxs: Seq<usize>,
) -> bool {
    &&& gxs.len() == xs.len()
    &&& exists|stages: Seq<Graph<V, U, K>>|
        {
            &&& #[trigger] stages.len() == xs.len() + 1
            &&& stages[0] == *before
            &&& stages.last() == *after
            &&& forall|j: int|
                0 <= j < xs.len() ==> add_stage(
                    before,
                    &stages[j],
                    &stages[j + 1],
                    xs[j],
                    gys[0],
                    #[trigger] gxs[j],
                )
        }
}

/// Elementwise sum of one or more arrays, with broadcasting.
pub struct Add;

impl Add {
    /// The sum of the values of `xs`.
    pub fn forward<V, U, K: Kernel<V>>(&self, graph: &Graph<V, U, K>, xs: &[usize]) -> (y: V)
        requires
            graph.has_nodes(xs@),
            xs@.len() >= 1,
        ensures
            is_sum_of(graph.kernel_view(), graph.values_of(xs@), y),
    {
        let ghost values = graph.values_of(xs@);
        assert(graph.has_node(xs@[0]));
        let mut y = graph.kernel().copy(graph.value(xs[0]));
        let mut i: usize = 1;
        proof {
            assert(values.take(1).len() == 1);
            assert(values.take(1)[0] == graph.value_of(xs@[0]));
        }
        while i < xs.len()
            invariant
                1 <= i <= xs@.len(),
                graph.has_nodes(xs@),
                values == graph.values_of(xs@),
                is_sum_of(graph.kernel_view(), values.take(i as int), y),
            decreases xs@.len() - i,
        {
            assert(graph.has_node(xs@[i as int]));
            let ghost part = y;
            y = graph.kernel().add(&y, graph.value(xs[i]));
            proof {
                let longer = values.take(i + 1);
                assert(longer.drop_last() == values.take(i as int));
                assert(longer.last() == graph.value_of(xs@[i as int]));
                assert(is_add(graph.kernel_view(), part, longer.last(), y));
            }
            i += 1;
        }
        proof {
            assert(values.take(i as int) == values);
        }
        y
    }

    /// Adds up `xs` and records the call if the graph is recording.
    pub fn call<V, U, K: Kernel<V>>(&self, graph: &mut Graph<V, U, K>, xs: &[usize]) -> (ys: Vec<
        usize,
    >)
        requires
            old(graph).wf(),
            old(graph).has_nodes(xs@),
            xs@.len() >= 1,
        ensures
            ys@.len() == 1,
            applied(old(graph), final(graph), xs@, ys@[0], old(graph).tracing()),
            old(graph).tracing() ==> final(graph).calls().last().backward is Add,
            is_sum_of(
                old(graph).kernel_view(),
                old(graph).values_of(xs@),
                final(graph).value_of(ys@[0]),
            ),
    {
        let y = multi_add(graph, xs);
        vec![y]
    }

    /// One gradient per input: the gradient of the output, summed down
    /// to the shape of the input where the input was broadcast.
    pub fn backward<V, U, K: Kernel<V>>(
        &self,
        graph: &mut Graph<V, U, K>,
        xs: &[usize],
        ys: &[usize],
        gys: &[usize],
    ) -> (gxs: Vec<usize>)
        requires
            old(graph).wf(),
            old(graph).has_nodes(xs@),
            old(graph).has_nodes(gys@),
            gys@.len() == 1,
        ensures
            final(graph).wf(),
            old(graph).extended_by(final(graph)),
            gxs@.len() == xs@.len(),
            final(graph).has_nodes(gxs@),
            old(graph).kept_but(final(graph), Set::empty()),
            given_or_new(old(graph), gxs@, gys@),
            add_ran(old(graph), final(graph), xs@, gys@, gxs@),
    {
        let mut gxs: Vec<usize> = Vec::new();
        let gy: usize = gys[0];
        assert(graph.has_node(gys@[0]));
        let mut i: usize = 0;
        let ghost mut stages: Seq<Graph<V, U, K>> = seq![*graph];
        while i < xs.len()
            invariant
                stages.len() == i + 1,
                stages[0] == *old(graph),
                stages[i as int] == *graph,
                forall|j: int|
                    0 <= j < i ==> add_stage(
                        old(graph),
                        &stages[j],
                        &stages[j + 1],
                        xs@[j],
                        gy,
                        #[trigger] gxs@[j],
                    ),
                i <= xs@.len(),
                graph.wf(),
                old(graph).extended_by(graph),
                old(graph).has_nodes(xs@),
                old(graph).has_node(gy),
                gys@.len() == 1,
                gy == gys@[0],
                gxs@.len() == i,
                graph.has_nodes(gxs@),
                old(graph).kept_but(graph, Set::empty()),
                given_or_new(old(graph), gxs@, gys@),
            decreases xs@.len() - i,
        {
            assert(old(graph).has_node(xs@[i as int]));
            let shape = graph.shape(xs[i]);
            let ghost before = *graph;
            let gx = sum_to(graph, gy, shape.as_slice());
            proof {
                old(graph).lemma_extended_by_transitive(&before, graph);
                old(graph).lemma_kept_but_transitive(&before, graph, Set::empty(), Set::empty());
                assert forall|j: int| 0 <= j < gxs@.len() implies graph.has_node(
                    #[trigger] gxs@[j],
                ) by {
                    assert(before.has_node(gxs@[j]));
                }
                assert(gys@.contains(gy));
            }
            let ghost so_far = gxs@;
            let ghost earlier = stages;
            gxs.push(gx);
            proof {
                stages = stages.push(*graph);
                assert(before.value_of(xs@[i as int]) == old(graph).value_of(xs@[i as int])) by {
                    assert(before.nodes()[xs@[i as int] as int].value == old(
                        graph,
                    ).nodes()[xs@[i as int] as int].value);
                }
                assert(is_shape(
                    old(graph).kernel_view(),
                    old(graph).value_of(xs@[i as int]),
                    shape@,
                ));
                assert(add_stage(old(graph), &before, graph, xs@[i as int], gy, gx));
                assert forall|j: int| 0 <= j < i + 1 implies add_stage(
                    old(graph),
                    &stages[j],
                    &stages[j + 1],
                    xs@[j],
                    gy,
                    #[trigger] gxs@[j],
                ) by {
                    if j < i {
                        assert(stages[j] == earlier[j]);
                        assert(stages[j + 1] == earlier[j + 1]);
                        assert(gxs@[j] == so_far[j]);
                        assert(add_stage(
                            old(graph),
                            &earlier[j],
                            &earlier[j + 1],
                            xs@[j],
                            gy,
                            so_far[j],
                        ));
                    } else {
                        assert(stages[j] == before);
                        assert(stages[j + 1] == *graph);
                    }
                }
                assert forall|j: int| 0 <= j < gxs@.len() implies gys@.contains(
                    #[trigger] gxs@[j],
                ) || gxs@[j] >= old(graph).nodes().len() by {
                    if j < so_far.len() {
                        assert(gxs@[j] == so_far[j]);
                    }
                }
            }
            i += 1;
        }
        proof {
            assert(stages.last() == *graph);
            assert(add_ran(old(graph), graph, xs@, gys@, gxs@));
        }
        gxs
    }
}

/// The elementwise sum of `a` and `b`, recorded if the graph is
/// recording.
pub fn add<V, U, K: Kernel<V>>(graph: &mut Graph<V, U, K>, a: usize, b: usize) -> (y: usize)
    requires
        old(graph).wf(),
        old(graph).has_node(a),
        old(graph).has_node(b),
    ensures
        applied(old(graph), final(graph), seq![a, b], y, old(graph).tracing()),
        old(graph).tracing() ==> final(graph).calls().last().backward is Add,
        is_add(
            old(graph).kernel_view(),
            old(graph).value_of(a),
            old(graph).value_of(b),
            final(graph).value_of(y),
        ),
{
    let trace = graph.is_tracing();
    add_traced(graph, a, b, trace)
}

/// The elementwise sum of `a` and `b`, recorded if `trace` is set.
pub fn add_traced<V, U, K: Kernel<V>>(
    graph: &mut Graph<V, U, K>,
    a: usize,
    b: usize,
    trace: bool,
) -> (y: usize)
    requires
        old(graph).wf(),
        old(graph).has_node(a),
        old(graph).has_node(b),
    ensures
        applied(old(graph), final(graph), seq![a, b], y, trace),
        trace ==> final(graph).calls().last().backward is Add,
        is_add(
            old(graph).kernel_view(),
            old(graph).value_of(a),
            old(graph).value_of(b),
            final(graph).value_of(y),
        ),
{
    let xs: [usize; 2] = [a, b];
    assert(xs@ == seq![a, b]);
    let value = graph.kernel().add(graph.value(a), graph.value(b));
    record(graph, xs.as_slice(), value, Rule::Add(Add), trace)
}

/// The elementwise sum of all of `xs`, recorded as one call if the graph
/// is recording.
pub fn multi_add<V, U, K: Kernel<V>>(graph: &mut Graph<V, U, K>, xs: &[usize]) -> (y: usize)
    requires
        old(graph).wf(),
        old(graph).has_nodes(xs@),
        xs@.len() >= 1,
    ensures
        applied(old(graph), final(graph), xs@, y, old(graph).tracing()),
        old(graph).tracing() ==> final(graph).calls().last().backward is Add,
        is_sum_of(old(graph).kernel_view(), old(graph).values_of(xs@), final(graph).value_of(y)),
{
    let value = Add.forward(graph, xs);
    let trace = graph.is_tracing();
    record(graph, xs, value, Rule::Add(Add), trace)
}

} // verus!
