use vstd::prelude::*;
use crate::backward::{
    gradients_outcome, success_owed, try_gradients, viewed, BackwardError,
};
use crate::function::Function;
use crate::functions::{applied, record};
use crate::graph::{Graph, Rule};
use crate::kernel::Kernel;
use crate::walk::collect_function_calls;

verus! {

/// The handle of a trainable parameter: a piece of state, kept by the
/// user of the library, that has a current value and can be updated with
/// a gradient.
#[derive(Debug, Clone, Copy, PartialEq, Eq)]
pub struct Optimizee {
    /// The handle under which the user keeps the state.
    pub handle: usize,
}

impl Optimizee {
    /// The optimizee that the user keeps under `handle`.
    pub fn new(handle: usize) -> (optimizee: Self)
        ensures
            optimizee.handle == handle,
    {
        Optimizee { handle }
    }

    /// Adds a node that holds `value`, the current value of the
    /// parameter, and marks it as backed by this optimizee: its creator is
    /// a call without inputs that carries the handle. The mark is made
    /// whether or not the graph is recording.
    pub fn get<V, U, K>(&self, graph: &mut Graph<V, U, K>, value: V) -> (node: usize)
        requires
            old(graph).wf(),
        ensures
            applied(old(graph), final(graph), Seq::<usize>::empty(), node, true),
            final(graph).nodes()[node as int].value == Some(value),
            final(graph).calls().last().backward == Rule::<U>::Parameter(self.handle),
    {
        let xs: [usize; 0] = [];
        assert(xs@ == Seq::<usize>::empty());
        record(graph, xs.as_slice(), value, Rule::Parameter(self.handle), true)
    }
}

/// One update that `optimize` asks for.
#[derive(Debug, Clone, Copy, PartialEq, Eq)]
pub struct Update {
    /// The handle of the optimizee to update.
    pub optimizee: usize,
    /// The node that holds the gradient to update it with.
    pub gradient: usize,
    /// The node that holds the parameter's value in this graph.
    pub parameter: usize,
}

/// The parameters among `calls`, in order: for each call that marks a
/// trainable parameter, the handle of its optimizee and the node it
/// created.
pub open spec fn parameters<V, U, K>(graph: &Graph<V, U, K>, calls: Seq<usize>) -> Seq<
    (usize, usize),
>
    decreases calls.len(),
{
    if calls.len() == 0 {
        Seq::empty()
    } else {
        let head = parameters(graph, calls.drop_last());
        let call = graph.calls()[calls.last() as int];
        match call.backward {
            Rule::Parameter(handle) => head.push((handle, call.ys@[0])),
            _ => head,
        }
    }
}

/// The nodes that the parameters among `calls` created, in order: the
/// targets of the pass that `optimize` runs.
pub open spec fn parameter_nodes<V, U, K>(graph: &Graph<V, U, K>, calls: Seq<usize>) -> Seq<usize> {
    parameters(graph, calls).map_values(|p: (usize, usize)| p.1)
}

/// The result of `optimize` as the result of the pass that it runs: the
/// gradients of the updates, or the error.
pub open spec fn asked(result: Result<Vec<Update>, BackwardError>) -> Result<
    Seq<usize>,
    BackwardError,
> {
    match result {
        Ok(updates) => Ok(updates@.map_values(|u: Update| u.gradient)),
        Err(error) => Err(error),
    }
}

/// What `optimize` comes to, given the calls behind `loss` in the order
/// in which they were collected: the result is that of a backward pass
/// from `loss`, without `create_graph`, whose targets are the nodes of
/// the parameters among `calls`; where the pass succeeds there is one
/// update for each of these parameters, in order, with the handle of its
/// optimizee, its node and the gradient that the pass returned for it.
pub open spec fn optimize_outcome<V, U, K: Kernel<V>>(
    before: &Graph<V, U, K>,
    after: &Graph<V, U, K>,
    calls: Seq<usize>,
    loss: usize,
    result: Result<Vec<Update>, BackwardError>,
) -> bool {
    let found = parameters(before, calls);
    let targets = parameter_nodes(before, calls);
    &&& exists|pass: Seq<usize>|
        {
            &&& #[trigger] before.wiring().collects(seq![loss], pass)
            &&& gradients_outcome(
                before,
                after,
                before.wiring().backward_order(pass),
                seq![loss],
                targets,
                false,
                asked(result),
            )
            &&& success_owed(before, before.wiring().backward_order(pass), seq![loss], targets)
                ==> result is Ok
        }
    &&& result matches Ok(updates) ==> {
        &&& updates@.len() == found.len()
        &&& forall|i: int|
            0 <= i < updates@.len() ==> {
                &&& (#[trigger] updates@[i]).optimizee == found[i].0
                &&& updates@[i].parameter == found[i].1
            }
    }
}

/// Finds the trainable parameters that the node `loss` depends on and
/// computes the gradient of `loss` with respect to each of them in one
/// backward pass, without recording it.
///
/// Returns one update per parameter mark that can be reached backward
/// from `loss`, however often the marked node is used: the gradients of
/// all its uses are summed by the pass. Fails where the pass fails, with
/// its error.
pub fn optimize<V, U: Function<V, K> + Clone, K: Kernel<V>>(graph: &mut Graph<V, U, K>, loss: usize) -> (result:
    Result<Vec<Update>, BackwardError>)
    requires
        old(graph).wf(),
        old(graph).has_node(loss),
    ensures
        final(graph).wf(),
        old(graph).extended_by(final(graph)),
        match result {
            Err(BackwardError::Released { call, node }) => {
                &&& old(graph).wiring().call_reached(seq![loss], call)
                &&& old(graph).has_call(call)
                &&& old(graph).calls()[call as int].ys@.contains(node)
                &&& !old(graph).has_node(node)
            },
            _ => {
                &&& old(graph).wiring().intact(seq![loss])
                &&& exists|calls: Seq<usize>|
                    #[trigger] old(graph).wiring().collects(seq![loss], calls) && optimize_outcome(
                        old(graph),
                        final(graph),
                        calls,
                        loss,
                        result,
                    )
            },
        },
{
    let mut roots: Vec<usize> = Vec::new();
    roots.push(loss);
    let ys: [usize; 1] = [loss];
    proof {
        assert(roots@ == seq![loss]);
        assert(ys@ == seq![loss]);
        assert(ys@[0] == loss);
    }
    let calls = match collect_function_calls(graph, roots) {
        Ok(calls) => calls,
        Err(released) => {
            return Err(BackwardError::Released { call: released.call, node: released.node });
        },
    };
    let mut optimizees: Vec<usize> = Vec::new();
    let mut trainables: Vec<usize> = Vec::new();
    let mut i: usize = 0;
    while i < calls.len()
        invariant
            i <= calls@.len(),
            graph.wf(),
            graph.calls_alive(calls@),
            graph.has_nodes(trainables@),
            optimizees@.len() == trainables@.len(),
            trainables@.len() == parameters(graph, calls@.take(i as int)).len(),
            forall|j: int|
                0 <= j < trainables@.len() ==> (optimizees@[j], trainables@[j]) == parameters(
                    graph,
                    calls@.take(i as int),
                )[j],
        decreases calls@.len() - i,
    {
        let e: usize = calls[i];
        proof {
            assert(graph.call_alive(calls@[i as int]));
            assert(graph.call_ok(e as int));
            assert(calls@.take(i + 1).drop_last() == calls@.take(i as int));
            assert(calls@.take(i + 1).last() == e);
        }
        let call = graph.function_call(e);
        match call.backward.get_optimizee() {
            Some(handle) => {
                assert(graph.has_node(call.ys@[0]));
                optimizees.push(handle);
                trainables.push(call.ys[0]);
            },
            None => {},
        }
        i += 1;
    }
    proof {
        assert(calls@.take(i as int) == calls@);
    }
    let ghost found = parameters(graph, calls@);
    let ghost targets = parameter_nodes(graph, calls@);
    proof {
        assert(trainables@ =~= targets);
        assert(old(graph).wiring().collects(seq![loss], calls@));
    }
    let outcome = try_gradients(graph, ys.as_slice(), trainables.as_slice(), false);
    let gxs = match outcome {
        Ok(gxs) => gxs,
        Err(error) => {
            proof {
                if !(error is Released) {
                    assert(asked(Err::<Vec<Update>, BackwardError>(error)) == viewed(outcome));
                    assert(optimize_outcome(
                        old(graph),
                        graph,
                        calls@,
                        loss,
                        Err::<Vec<Update>, BackwardError>(error),
                    ));
                }
            }
            return Err(error);
        },
    };
    let mut updates: Vec<Update> = Vec::new();
    let mut k: usize = 0;
    while k < gxs.len()
        invariant
            k <= gxs@.len(),
            gxs@.len() == trainables@.len(),
            optimizees@.len() == trainables@.len(),
            updates@.len() == k,
            forall|j: int|
                0 <= j < k ==> {
                    &&& (#[trigger] updates@[j]).optimizee == optimizees@[j]
                    &&& updates@[j].parameter == trainables@[j]
                    &&& updates@[j].gradient == gxs@[j]
                },
        decreases gxs@.len() - k,
    {
        updates.push(Update { optimizee: optimizees[k], gradient: gxs[k], parameter: trainables[k] });
        k += 1;
    }
    proof {
        assert forall|j: int| 0 <= j < updates@.len() implies {
            &&& (#[trigger] updates@[j]).optimizee == found[j].0
            &&& updates@[j].parameter == found[j].1
        } by {
            assert((optimizees@[j], trainables@[j]) == found[j]);
        }
        assert(updates@.map_values(|u: Update| u.gradient) =~= gxs@);
        assert(asked(Ok::<Vec<Update>, BackwardError>(updates)) == viewed(outcome));
        assert(optimize_outcome(
            old(graph),
            graph,
            calls@,
            loss,
            Ok::<Vec<Update>, BackwardError>(updates),
        ));
    }
    Ok(updates)
}

} // verus!
