use vstd::prelude::*;
use crate::functions::sum::{sum_to, summed_to};
use crate::functions::{applied, given_or_new, lemma_applied_keeps, record};
use crate::graph::{Graph, Rule};
use crate::kernel::{is_mul, is_shape, Kernel};

verus! {

/// Between `a` and `b`, through `mid`: the product `p` of the gradient
/// `gy` and the input `other` was added, and then reduced to `shape`
/// (see `sum_to`), with the result `gx`.
pub open spec fn mul_step<V, U, K: Kernel<V>>(
    before: &Graph<V, U, K>,
    a: &Graph<V, U, K>,
    mid: &Graph<V, U, K>,
    b: &Graph<V, U, K>,
    gy: usize,
    other: usize,
    x: usize,
    shape: Seq<usize>,
    p: usize,
    gx: usize,
) -> bool {
    &&& applied(a, mid, seq![gy, other], p, a.tracing())
    &&& is_mul(
        before.kernel_view(),
        before.value_of(gy),
        before.value_of(other),
        mid.value_of(p),
    )
    &&& a.tracing() ==> mid.calls().last().backward is Mul
    &&& is_shape(before.kernel_view(), before.value_of(x), shape)
    &&& summed_to(mid, b, p, shape, gx)
}

/// One half of the backward rule of a product, between `a` and `b`: the
/// gradient of the input `x` is the product of the gradient `gy` with the
/// other input, reduced to a shape that the kernel reports for `x`.
pub open spec fn mul_side<V, U, K: Kernel<V>>(
    before: &Graph<V, U, K>,
    a: &Graph<V, U, K>,
    b: &Graph<V, U, K>,
    gy: usize,
    other: usize,
    x: usize,
    gx: usize,
) -> bool {
    exists|mid: Graph<V, U, K>, shape: Seq<usize>, p: usize| #[trigger]
        mul_step(before, a, &mid, b, gy, other, x, shape, p, gx)
}

/// The two halves of the backward rule of a product, with the graph
/// `half` between them.
pub open spec fn mul_halves<V, U, K: Kernel<V>>(
    before: &Graph<V, U, K>,
    half: &Graph<V, U, K>,
    after: &Graph<V, U, K>,
    xs: Seq<usize>,
    gys: Seq<usize>,
    gxs: Seq<usize>,
) -> bool {
    &&& mul_side(before, before, half, gys[0], xs[1], xs[0], gxs[0])
    &&& mul_side(before, half, after, gys[0], xs[0], xs[1], gxs[1])
}

/// What the backward rule of a product does: first the gradient of the
/// first input, then that of the second, each the product of the
/// gradient `gys[0]` with the other input, reduced to the shape of the
/// input where the input was broadcast.
pub open spec fn mul_ran<V, U, K: Kernel<V>>(
    before: &Graph<V, U, K>,
    after: &Graph<V, U, K>,
    xs: Seq<usize>,
    gys: Seq<usize>,
    gxs: Seq<usize>,
) -> bool {
    &&& gxs.len() == 2
    &&& exists|half: Graph<V, U, K>| #[trigger] mul_halves(before, &half, after, xs, gys, gxs)
}

/// Elementwise product of two arrays, with broadcasting.
pub struct Mul;

impl Mul {
    /// The product of the values of the two inputs.
    pub fn forward<V, U, K: Kernel<V>>(&self, graph: &Graph<V, U, K>, xs: &[usize]) -> (y: V)
        requires
            graph.has_nodes(xs@),
            xs@.len() == 2,
        ensures
            is_mul(graph.kernel_view(), graph.value_of(xs@[0]), graph.value_of(xs@[1]), y),
    {
        assert(graph.has_node(xs@[0]));
        assert(graph.has_node(xs@[1]));
        graph.kernel().mul(graph.value(xs[0]), graph.value(xs[1]))
    }

    /// Multiplies the two inputs and records the call if the graph is
    /// recording.
    pub fn call<V, U, K: Kernel<V>>(&self, graph: &mut Graph<V, U, K>, xs: &[usize]) -> (ys: Vec<
        usize,
    >)
        requires
            old(graph).wf(),
            old(graph).has_nodes(xs@),
            xs@.len() == 2,
        ensures
            ys@.len() == 1,
            applied(old(graph), final(graph), xs@, ys@[0], old(graph).tracing()),
            old(graph).tracing() ==> final(graph).calls().last().backward is Mul,
            is_mul(old(graph).kernel_view(), old(graph).value_of(xs@[0]), old(graph).value_of(xs@[1]), final(graph).value_of(ys@[0])),
    {
        let value = self.forward(graph, xs);
        let trace = graph.is_tracing();
        let y = record(graph, xs, value, Rule::Mul(Mul), trace);
        vec![y]
    }

    /// One gradient per input: the gradient of the output times the other
    /// input, summed down to the shape of the input where the input was
    /// broadcast.
    pub fn backward<V, U, K: Kernel<V>>(
        &self,
        graph: &mut Graph<V, U, K>,
        xs: &[usize],
        ys: &[usize],
        gys: &[usize],
    ) -> (gxs: Vec<usize>)
        requires
            old(graph).wf(),
            old(graph).has_nodes(xs@),
            old(graph).has_nodes(gys@),
            xs@.len() == 2,
            gys@.len() == 1,
        ensures
            final(graph).wf(),
            old(graph).extended_by(final(graph)),
            gxs@.len() == xs@.len(),
            final(graph).has_nodes(gxs@),
            old(graph).kept_but(final(graph), Set::empty()),
            given_or_new(old(graph), gxs@, gys@),
            mul_ran(old(graph), final(graph), xs@, gys@, gxs@),
    {
        assert(old(graph).has_node(gys@[0]));
        assert(old(graph).has_node(xs@[0]));
        assert(old(graph).has_node(xs@[1]));
        let gy: usize = gys[0];
        let a: usize = xs[0];
        let b: usize = xs[1];
        let mut gxs: Vec<usize> = Vec::new();

        let with_b: [usize; 2] = [gy, b];
        assert(with_b@[0] == gy && with_b@[1] == b);
        let ga = Mul.call(graph, with_b.as_slice());
        let ghost first = *graph;
        let ghost pa = ga@[0];
        let shape_a = graph.shape(a);
        let ga = sum_to(graph, ga[0], shape_a.as_slice());
        let ghost second = *graph;
        gxs.push(ga);
        proof {
            assert(with_b@ =~= seq![gy, b]);
            assert(first.value_of(a) == old(graph).value_of(a));
            assert(is_shape(old(graph).kernel_view(), old(graph).value_of(a), shape_a@));
            assert(mul_side(old(graph), old(graph), &second, gy, b, a, ga)) by {
                assert(mul_step(old(graph), old(graph), &first, &second, gy, b, a, shape_a@, pa, ga));
            }
        }

        let with_a: [usize; 2] = [gy, a];
        proof {
            old(graph).lemma_extended_by_transitive(&first, &second);
            assert(with_a@[0] == gy && with_a@[1] == a);
            assert(second.has_node(gy) && second.has_node(a));
        }
        let gb = Mul.call(graph, with_a.as_slice());
        let ghost third = *graph;
        let ghost pb = gb@[0];
        let shape_b = graph.shape(b);
        let gb = sum_to(graph, gb[0], shape_b.as_slice());
        proof {
            old(graph).lemma_extended_by_transitive(&second, &third);
            old(graph).lemma_extended_by_transitive(&third, graph);
            assert(graph.has_node(ga)) by {
                assert(second.has_node(ga));
            }
            assert(with_a@ =~= seq![gy, a]);
            assert(second.value_of(gy) == old(graph).value_of(gy));
            assert(second.value_of(a) == old(graph).value_of(a));
            assert(third.value_of(b) == old(graph).value_of(b));
            assert(is_shape(old(graph).kernel_view(), old(graph).value_of(b), shape_b@));
            assert(mul_side(old(graph), &second, graph, gy, a, b, gb)) by {
                assert(mul_step(old(graph), &second, &third, graph, gy, a, b, shape_b@, pb, gb));
            }
        }
        gxs.push(gb);
        proof {
            assert(gxs@[0] == ga && gxs@[1] == gb);
            assert(mul_ran(old(graph), graph, xs@, gys@, gxs@)) by {
                assert(mul_halves(old(graph), &second, graph, xs@, gys@, gxs@));
            }
        }
        gxs
    }
}

} // verus!
