use vstd::prelude::*;
use crate::functions::{applied, record};
use crate::graph::{Graph, Rule};

verus! {

/// Splices a value that was produced elsewhere into the graph. The call
/// is recorded even when the graph is not recording.
pub struct CreateGraph<V> {
    y: V,
}

impl<V> CreateGraph<V> {
    /// An operation that splices in the value `y`.
    pub fn new(y: V) -> (bridge: Self)
        ensures
            bridge.value() == y,
    {
        Self { y }
    }

    /// The value that will be spliced in.
    pub closed spec fn value(&self) -> V {
        self.y
    }

    /// The value, as the single output.
    pub fn forward(self) -> (y: V)
        ensures
            y == self.value(),
    {
        self.y
    }

    /// No gradients: the call has no inputs.
    pub fn backward(gys: &[usize]) -> (gxs: Vec<usize>)
        ensures
            gxs@.len() == 0,
    {
        Vec::new()
    }

    /// Adds a node with the value and records a call without inputs as
    /// its creator, whether or not the graph is recording.
    pub fn call<U, K>(self, graph: &mut Graph<V, U, K>) -> (ys: Vec<usize>)
        requires
            old(graph).wf(),
        ensures
            ys@.len() == 1,
            applied(old(graph), final(graph), Seq::<usize>::empty(), ys@[0], true),
            final(graph).nodes()[ys@[0] as int].value == Some(self.value()),
            final(graph).calls().last().backward is Bridge,
    {
        let xs: [usize; 0] = [];
        assert(xs@ == Seq::<usize>::empty());
        let y = record(graph, xs.as_slice(), self.forward(), Rule::Bridge, true);
        vec![y]
    }
}

} // verus!
