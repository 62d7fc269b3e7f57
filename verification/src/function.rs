use vstd::prelude::*;
use crate::functions::add::{add_ran, Add};
use crate::functions::broadcast::broadcast_ran;
use crate::functions::exp::{exp_ran, Exp};
use crate::functions::mul::{mul_ran, Mul};
use crate::functions::neg::{neg_ran, Neg};
use crate::functions::reshape::reshape_ran;
use crate::functions::sin::{cos_ran, sin_ran, Cos, Sin};
use crate::functions::square::{square_ran, Square};
use crate::functions::sum::sum_ran;
use crate::functions::transpose::transpose_ran;
use crate::functions::{given_or_new, record_many, recorded_many};
use crate::graph::{Graph, Rule};
use crate::kernel::Kernel;

verus! {

/// A differentiable operation supplied by the user of the library.
///
/// The library decides nothing about what such an operation computes.
/// What an implementation must keep to is the contract of `backward`: it
/// returns one gradient per input, each a live node that it was given as
/// a gradient or that it has added, and it leaves the nodes and calls
/// that were there as they were.
pub trait Function<V, K>: Sized {
    /// Computes the values of the outputs from the input nodes `xs`.
    fn forward(&self, graph: &Graph<V, Self, K>, xs: &[usize]) -> (values: Vec<V>)
        requires
            graph.wf(),
            graph.has_nodes(xs@),
    ;

    /// Given the inputs `xs` and outputs `ys` of a call and the gradients
    /// `gys` of its outputs, one per output, builds the gradients of the
    /// inputs with operations on the graph (so that they can themselves be
    /// differentiated) and returns them, one per input.
    fn backward(
        &self,
        graph: &mut Graph<V, Self, K>,
        xs: &[usize],
        ys: &[usize],
        gys: &[usize],
    ) -> (gxs: Vec<usize>)
        requires
            old(graph).wf(),
            old(graph).has_nodes(xs@),
            old(graph).has_nodes(ys@),
            old(graph).has_nodes(gys@),
            gys@.len() == ys@.len(),
        ensures
            final(graph).wf(),
            old(graph).extended_by(final(graph)),
            old(graph).kept_but(final(graph), Set::empty()),
            gxs@.len() == xs@.len(),
            final(graph).has_nodes(gxs@),
            given_or_new(old(graph), gxs@, gys@),
    ;

    /// Whether calls of this operation are recorded even when the graph is
    /// not recording.
    fn is_force_create_graph(&self) -> bool;
}

/// Whether a call is recorded: the operation asks for it, or the graph is
/// recording.
pub open spec fn recorded_if(force: bool, recording: bool) -> bool {
    force || recording
}

/// Applies `func` to `xs`: computes the outputs, adds one node for each
/// and, if the graph is recording or the operation asks for it, records
/// the call with `func` as its backward rule and makes it the creator of
/// the new nodes (see `record_many`). Returns the new nodes in the order
/// of the outputs.
pub fn call_many<V, U: Function<V, K>, K>(graph: &mut Graph<V, U, K>, func: U, xs: &[usize]) -> (ys:
    Vec<usize>)
    requires
        old(graph).wf(),
        old(graph).has_nodes(xs@),
    ensures
        final(graph).wf(),
        old(graph).extended_by(final(graph)),
        final(graph).nodes().len() == old(graph).nodes().len() + ys@.len(),
        forall|i: int| 0 <= i < ys@.len() ==> #[trigger] ys@[i] == old(graph).nodes().len() + i,
        forall|n: int|
            0 <= n < old(graph).nodes().len() ==> #[trigger] final(graph).nodes()[n] == old(
                graph,
            ).nodes()[n],
        final(graph).calls().len() == old(graph).calls().len() || final(graph).calls().len()
            == old(graph).calls().len() + 1,
        old(graph).tracing() ==> final(graph).calls().len() == old(graph).calls().len() + 1,
        final(graph).calls().len() == old(graph).calls().len() ==> {
            &&& final(graph).calls() == old(graph).calls()
            &&& forall|i: int|
                0 <= i < ys@.len() ==> (#[trigger] final(graph).nodes()[old(graph).nodes().len() + i]).creator is None
        },
        final(graph).calls().len() == old(graph).calls().len() + 1 ==> {
            &&& final(graph).calls().last().backward == Rule::Custom(func)
            &&& final(graph).calls().last().xs@ == xs@
            &&& final(graph).calls().last().ys@ == ys@
            &&& forall|i: int|
                0 <= i < ys@.len() ==> (#[trigger] final(graph).nodes()[old(graph).nodes().len() + i]).creator
                    == Some(old(graph).calls().len() as usize)
        },
        exists|values: Vec<V>, force: bool|
            {
                &&& U::forward.ensures((&func, &*old(graph), xs), values)
                &&& U::is_force_create_graph.ensures((&func,), force)
                &&& #[trigger] recorded_many(
                    old(graph),
                    final(graph),
                    xs@,
                    values@,
                    Rule::Custom(func),
                    recorded_if(force, old(graph).tracing()),
                    ys@,
                )
            },
{
    let values = func.forward(graph, xs);
    let ghost given = values;
    let force = func.is_force_create_graph();
    let trace = force || graph.is_tracing();
    let ys = record_many(graph, xs, values, Rule::Custom(func), trace);
    proof {
        assert(recorded_many(
            old(graph),
            graph,
            xs@,
            given@,
            Rule::Custom(func),
            recorded_if(force, old(graph).tracing()),
            ys@,
        ));
    }
    ys
}

/// The operation `func` returns at least one output for the inputs `xs`,
/// whatever it returns.
pub open spec fn has_output<V, U: Function<V, K>, K>(
    graph: &Graph<V, U, K>,
    func: U,
    xs: &[usize],
) -> bool {
    forall|values: Vec<V>| #[trigger]
        U::forward.ensures((&func, graph, xs), values) ==> values@.len() > 0
}

/// Applies `func` to `xs` as `call_many` does and returns its last output,
/// for an operation that has an output. An operation without outputs has
/// no last output: to ask for it is a defect; `call_many` applies such an
/// operation.
pub fn call<V, U: Function<V, K>, K>(graph: &mut Graph<V, U, K>, func: U, xs: &[usize]) -> (y:
    usize)
    requires
        old(graph).wf(),
        old(graph).has_nodes(xs@),
        has_output(old(graph), func, xs),
    ensures
        final(graph).wf(),
        old(graph).extended_by(final(graph)),
        final(graph).nodes().len() > old(graph).nodes().len(),
        y == final(graph).nodes().len() - 1,
        exists|values: Vec<V>, force: bool, ys: Seq<usize>|
            {
                &&& U::forward.ensures((&func, &*old(graph), xs), values)
                &&& U::is_force_create_graph.ensures((&func,), force)
                &&& #[trigger] recorded_many(
                    old(graph),
                    final(graph),
                    xs@,
                    values@,
                    Rule::Custom(func),
                    recorded_if(force, old(graph).tracing()),
                    ys,
                )
                &&& ys.len() > 0
                &&& y == ys.last()
            },
{
    let mut ys = call_many(graph, func, xs);
    let ghost all = ys@;
    let y = ys.pop();
    proof {
        let (values, force) = choose|values: Vec<V>, force: bool|
            {
                &&& U::forward.ensures((&func, &*old(graph), xs), values)
                &&& U::is_force_create_graph.ensures((&func,), force)
                &&& #[trigger] recorded_many(
                    old(graph),
                    graph,
                    xs@,
                    values@,
                    Rule::Custom(func),
                    recorded_if(force, old(graph).tracing()),
                    all,
                )
            };
        assert(recorded_many(
            old(graph),
            graph,
            xs@,
            values@,
            Rule::Custom(func),
            recorded_if(force, old(graph).tracing()),
            all,
        ));
    }
    y.unwrap()
}

/// What the backward rule of the recorded call `e` of `before` does with
/// the gradients `gys` of its outputs: for each rule of the library, what
/// its `backward` does; a mark returns no gradients and leaves the graph
/// alone; of a user-supplied rule nothing more is said here than its
/// contract.
pub open spec fn rule_ran<V, U, K: Kernel<V>>(
    before: &Graph<V, U, K>,
    after: &Graph<V, U, K>,
    e: usize,
    gys: Seq<usize>,
    gxs: Seq<usize>,
) -> bool {
    let call = before.calls()[e as int];
    match call.backward {
        Rule::Leaf | Rule::Parameter(_) | Rule::Bridge => {
            &&& gxs.len() == 0
            &&& after.nodes() == before.nodes()
            &&& after.calls() == before.calls()
        },
        Rule::Add(_) => add_ran(before, after, call.xs@, gys, gxs),
        Rule::Mul(_) => mul_ran(before, after, call.xs@, gys, gxs),
        Rule::Neg(_) => neg_ran(before, after, gys, gxs),
        Rule::Exp(_) => exp_ran(before, after, call.xs@, gys, gxs),
        Rule::Sin(_) => sin_ran(before, after, call.xs@, gys, gxs),
        Rule::Cos(_) => cos_ran(before, after, call.xs@, gys, gxs),
        Rule::Square(_) => square_ran(before, after, call.xs@, gys, gxs),
        Rule::Sum(op) => sum_ran(before, after, op.original_shape(), gys, gxs),
        Rule::Broadcast(op) => broadcast_ran(before, after, op.original_shape(), gys, gxs),
        Rule::Reshape(op) => reshape_ran(before, after, op.original_shape(), gys, gxs),
        Rule::Transpose(op) => transpose_ran(before, after, op.axes(), gys, gxs),
        Rule::Custom(_) => true,
    }
}

/// Runs the backward rule of the recorded call `e` on the gradients `gys`
/// of its outputs and returns the gradients of its inputs: one per input,
/// each a live node that was given as a gradient or was added. The nodes
/// and calls that were there stay as they were.
pub fn backward_of<V, U: Function<V, K> + Clone, K: Kernel<V>>(
    graph: &mut Graph<V, U, K>,
    e: usize,
    gys: &[usize],
) -> (gxs: Vec<usize>)
    requires
        old(graph).wf(),
        old(graph).call_alive(e),
        old(graph).has_nodes(gys@),
        gys@.len() == old(graph).calls()[e as int].ys@.len(),
    ensures
        final(graph).wf(),
        old(graph).extended_by(final(graph)),
        gxs@.len() == old(graph).calls()[e as int].xs@.len(),
        final(graph).has_nodes(gxs@),
        old(graph).kept_but(final(graph), Set::empty()),
        given_or_new(old(graph), gxs@, gys@),
        rule_ran(old(graph), final(graph), e, gys@, gxs@),
{
    proof {
        assert(graph.call_ok(e as int));
    }
    let call = graph.function_call(e);
    let xs = call.get_xs();
    let ys = call.get_ys(graph);
    match &call.backward {
        Rule::Leaf | Rule::Parameter(_) | Rule::Bridge => Vec::new(),
        Rule::Add(_) => Add.backward(graph, xs.as_slice(), ys.as_slice(), gys),
        Rule::Mul(_) => Mul.backward(graph, xs.as_slice(), ys.as_slice(), gys),
        Rule::Neg(_) => Neg.backward(graph, xs.as_slice(), ys.as_slice(), gys),
        Rule::Exp(_) => Exp.backward(graph, xs.as_slice(), ys.as_slice(), gys),
        Rule::Sin(_) => Sin.backward(graph, xs.as_slice(), ys.as_slice(), gys),
        Rule::Cos(_) => Cos.backward(graph, xs.as_slice(), ys.as_slice(), gys),
        Rule::Square(_) => Square.backward(graph, xs.as_slice(), ys.as_slice(), gys),
        Rule::Sum(op) => {
            let op = op.copy();
            op.backward(graph, xs.as_slice(), ys.as_slice(), gys)
        },
        Rule::Broadcast(op) => {
            let op = op.copy();
            op.backward(graph, xs.as_slice(), ys.as_slice(), gys)
        },
        Rule::Reshape(op) => {
            let op = op.copy();
            op.backward(graph, xs.as_slice(), ys.as_slice(), gys)
        },
        Rule::Transpose(op) => {
            let op = op.copy();
            op.backward(graph, xs.as_slice(), ys.as_slice(), gys)
        },
        Rule::Custom(func) => {
            let func = func.clone();
            func.backward(graph, xs.as_slice(), ys.as_slice(), gys)
        },
    }
}

} // verus!
