use vstd::prelude::*;
use crate::functions::add::Add;
use crate::functions::broadcast::Broadcast;
use crate::functions::exp::Exp;
use crate::functions::mul::Mul;
use crate::functions::neg::Neg;
use crate::functions::reshape::Reshape;
use crate::functions::sin::{Cos, Sin};
use crate::functions::square::Square;
use crate::functions::sum::Sum;
use crate::functions::transpose::Transpose;
use crate::kernel::{is_shape, Kernel};

verus! {

/// How gradients flow backward through one recorded call.
pub enum Rule<U> {
    /// Marks a node as a traced root. No inputs, no gradients.
    Leaf,
    /// Marks a node as a trainable parameter backed by the optimizee with
    /// the given handle. No inputs, no gradients.
    Parameter(usize),
    /// Marks a value that was spliced into the graph. No inputs, no
    /// gradients.
    Bridge,
    /// Elementwise sum of one or more inputs.
    Add(Add),
    /// Elementwise product of two inputs.
    Mul(Mul),
    /// Elementwise negation.
    Neg(Neg),
    /// Elementwise exponential.
    Exp(Exp),
    /// Elementwise sine.
    Sin(Sin),
    /// Elementwise cosine.
    Cos(Cos),
    /// Elementwise square.
    Square(Square),
    /// Sum over axes.
    Sum(Sum),
    /// Broadcast to a larger shape.
    Broadcast(Broadcast),
    /// Change of shape.
    Reshape(Reshape),
    /// Permutation of axes.
    Transpose(Transpose),
    /// A rule supplied by the user of the library.
    Custom(U),
}

impl<U> Rule<U> {
    /// Whether a call with this rule may have `n_in` inputs and `n_out`
    /// outputs.
    pub open spec fn fits(&self, n_in: nat, n_out: nat) -> bool {
        match self {
            Rule::Leaf | Rule::Bridge => n_in == 0,
            Rule::Parameter(_) => n_in == 0 && n_out == 1,
            Rule::Add(_) => n_in >= 1 && n_out == 1,
            Rule::Mul(_) => n_in == 2 && n_out == 1,
            Rule::Neg(_)
            | Rule::Exp(_)
            | Rule::Sin(_)
            | Rule::Cos(_)
            | Rule::Square(_)
            | Rule::Sum(_)
            | Rule::Broadcast(_)
            | Rule::Reshape(_)
            | Rule::Transpose(_) => n_in == 1 && n_out == 1,
            Rule::Custom(_) => true,
        }
    }

    /// Executable form of [`Rule::fits`].
    pub fn check_fits(&self, n_in: usize, n_out: usize) -> (ok: bool)
        ensures
            ok == self.fits(n_in as nat, n_out as nat),
    {
        match self {
            Rule::Leaf | Rule::Bridge => n_in == 0,
            Rule::Parameter(_) => n_in == 0 && n_out == 1,
            Rule::Add(_) => n_in >= 1 && n_out == 1,
            Rule::Mul(_) => n_in == 2 && n_out == 1,
            Rule::Neg(_)
            | Rule::Exp(_)
            | Rule::Sin(_)
            | Rule::Cos(_)
            | Rule::Square(_)
            | Rule::Sum(_)
            | Rule::Broadcast(_)
            | Rule::Reshape(_)
            | Rule::Transpose(_) => n_in == 1 && n_out == 1,
            Rule::Custom(_) => true,
        }
    }

    /// The handle of the optimizee behind this rule, if it marks a
    /// trainable parameter.
    pub fn get_optimizee(&self) -> (handle: Option<usize>)
        ensures
            handle == self.optimizee(),
    {
        match self {
            Rule::Parameter(h) => Some(*h),
            _ => None,
        }
    }

    /// The handle of the optimizee behind this rule, if it marks a
    /// trainable parameter.
    pub open spec fn optimizee(&self) -> Option<usize> {
        match self {
            Rule::Parameter(h) => Some(*h),
            _ => None,
        }
    }
}

/// A value holder: one vertex of the graph.
pub struct Node<V> {
    /// The computed array value. It never changes while the node lives and
    /// is gone once the node has been released.
    pub value: Option<V>,
    /// The node that holds this node's gradient, if one was stored.
    pub gradient: Option<usize>,
    /// A label for diagnostics.
    pub name: Option<String>,
    /// The call that produced this node. A node without one is a leaf.
    pub creator: Option<usize>,
}

/// The record of one invocation of an operation: one edge of the graph.
pub struct FunctionCall<U> {
    /// The rule that turns output gradients into input gradients.
    pub backward: Rule<U>,
    /// The input nodes, in order.
    pub xs: Vec<usize>,
    /// The output nodes, in order. The call does not own them.
    pub ys: Vec<usize>,
}

/// Copies a slice of handles into a vector.
pub fn to_vec(items: &[usize]) -> (copy: Vec<usize>)
    ensures
        copy@ == items@,
{
    let mut copy: Vec<usize> = Vec::new();
    let mut i: usize = 0;
    while i < items.len()
        invariant
            i <= items@.len(),
            copy@ == items@.take(i as int),
        decreases items@.len() - i,
    {
        copy.push(items[i]);
        i += 1;
        assert(items@.take(i as int) == items@.take(i - 1).push(items@[i - 1]));
    }
    assert(items@.take(i as int) == items@);
    copy
}

impl<U> FunctionCall<U> {
    /// The record of a call with the given rule from `xs` to `ys`.
    pub fn new(backward: Rule<U>, xs: Vec<usize>, ys: &[usize]) -> (call: Self)
        ensures
            call.backward == backward,
            call.xs == xs,
            call.ys@ == ys@,
    {
        FunctionCall { backward, xs, ys: to_vec(ys) }
    }

    /// The output nodes of this call, in order, for a call whose outputs
    /// all live in `graph`. A call does not keep its outputs alive: to
    /// read the outputs of a call that has lost one is a defect, which
    /// the walks of the graph report.
    pub fn get_ys<V, K>(&self, graph: &Graph<V, U, K>) -> (ys: Vec<usize>)
        requires
            graph.has_nodes(self.ys@),
        ensures
            ys@ == self.ys@,
            graph.has_nodes(ys@),
    {
        to_vec(self.ys.as_slice())
    }

    /// The input nodes of this call, in order.
    pub fn get_xs(&self) -> (xs: Vec<usize>)
        ensures
            xs@ == self.xs@,
    {
        to_vec(self.xs.as_slice())
    }
}

/// The structure of a graph without its values and rules: which nodes
/// live, who created each node, and what each call reads and writes.
pub struct Wiring {
    /// For each node, whether it still lives.
    pub alive: Seq<bool>,
    /// For each node, the call that created it.
    pub creators: Seq<Option<usize>>,
    /// For each call, its input nodes.
    pub inputs: Seq<Seq<usize>>,
    /// For each call, its output nodes.
    pub outputs: Seq<Seq<usize>>,
}

/// The arena that owns every node and every recorded call.
///
/// `V` is the array type, `U` the type of user-supplied backward rules and
/// `K` the numeric kernel.
pub struct Graph<V, U, K> {
    kernel: K,
    tracing: bool,
    nodes: Vec<Node<V>>,
    calls: Vec<FunctionCall<U>>,
}

impl<V, U, K> Graph<V, U, K> {
    /// The nodes, indexed by handle.
    pub closed spec fn nodes(&self) -> Seq<Node<V>> {
        self.nodes@
    }

    /// The recorded calls, indexed by handle.
    pub closed spec fn calls(&self) -> Seq<FunctionCall<U>> {
        self.calls@
    }

    /// Whether calls are recorded when not forced.
    pub closed spec fn tracing(&self) -> bool {
        self.tracing
    }

    /// The numeric kernel of the graph.
    pub closed spec fn kernel_view(&self) -> K {
        self.kernel
    }

    /// The array value of the node `n`, where it lives.
    pub open spec fn value_of(&self, n: usize) -> V {
        self.nodes()[n as int].value->0
    }

    /// The array values of the nodes `ns`, where they live.
    pub open spec fn values_of(&self, ns: Seq<usize>) -> Seq<V> {
        Seq::new(ns.len(), |i: int| self.value_of(ns[i]))
    }

    /// `n` is a handle that this graph has given out.
    pub open spec fn is_slot(&self, n: usize) -> bool {
        n < self.nodes().len()
    }

    /// `n` is a node of this graph that has not been released.
    pub open spec fn has_node(&self, n: usize) -> bool {
        n < self.nodes().len() && self.nodes()[n as int].value is Some
    }

    /// Each of `ns` is a handle that this graph has given out.
    pub open spec fn are_slots(&self, ns: Seq<usize>) -> bool {
        forall|i: int| 0 <= i < ns.len() ==> self.is_slot(#[trigger] ns[i])
    }

    /// `e` is the handle of a recorded call.
    pub open spec fn has_call(&self, e: usize) -> bool {
        e < self.calls().len()
    }

    /// Each of `ns` is a node that has not been released.
    pub open spec fn has_nodes(&self, ns: Seq<usize>) -> bool {
        forall|i: int| 0 <= i < ns.len() ==> self.has_node(#[trigger] ns[i])
    }

    /// Each of `es` is the handle of a recorded call.
    pub open spec fn has_calls(&self, es: Seq<usize>) -> bool {
        forall|i: int| 0 <= i < es.len() ==> self.has_call(#[trigger] es[i])
    }

    /// The call `e` is recorded and all its inputs and outputs live.
    pub open spec fn call_alive(&self, e: usize) -> bool {
        &&& self.has_call(e)
        &&& self.has_nodes(self.calls()[e as int].xs@)
        &&& self.has_nodes(self.calls()[e as int].ys@)
    }

    /// Each of `es` is recorded, and all their inputs and outputs live.
    pub open spec fn calls_alive(&self, es: Seq<usize>) -> bool {
        forall|i: int| 0 <= i < es.len() ==> self.call_alive(#[trigger] es[i])
    }

    /// What well-formedness asks of the node `n`.
    pub open spec fn node_ok(&self, n: int) -> bool {
        let node = self.nodes()[n];
        &&& node.creator matches Some(c) ==> {
            &&& node.value is Some
            &&& self.has_call(c)
            &&& self.calls()[c as int].ys@.contains(n as usize)
            &&& self.has_nodes(self.calls()[c as int].xs@)
        }
        &&& node.gradient matches Some(g) ==> node.value is Some && self.has_node(g)
    }

    /// What well-formedness asks of the call `e`.
    pub open spec fn call_ok(&self, e: int) -> bool {
        let call = self.calls()[e];
        &&& self.are_slots(call.xs@)
        &&& self.are_slots(call.ys@)
        &&& call.backward.fits(call.xs@.len(), call.ys@.len())
    }

    /// Every handle stored in the graph points into the graph, and the
    /// arity of every call fits its rule. A node with a creator lives, is
    /// listed among the outputs of the creator, and keeps the inputs of the
    /// creator alive; a node with a gradient lives and keeps the gradient
    /// alive. A released node has neither.
    pub open spec fn wf(&self) -> bool {
        &&& forall|n: int| 0 <= n < self.nodes().len() ==> #[trigger] self.node_ok(n)
        &&& forall|e: int| 0 <= e < self.calls().len() ==> #[trigger] self.call_ok(e)
    }

    /// `later` is this graph after more work: nothing was removed, and
    /// neither a recorded call nor the value of a node was changed. The
    /// kernel and the recording mode are the same.
    pub open spec fn extended_by(&self, later: &Self) -> bool {
        &&& self.nodes().len() <= later.nodes().len()
        &&& self.calls().len() <= later.calls().len()
        &&& later.tracing() == self.tracing()
        &&& later.kernel_view() == self.kernel_view()
        &&& forall|n: int|
            0 <= n < self.nodes().len() ==> (#[trigger] later.nodes()[n]).value
                == self.nodes()[n].value
        &&& forall|e: int|
            0 <= e < self.calls().len() ==> #[trigger] later.calls()[e] == self.calls()[e]
    }

    /// Extension is transitive.
    pub proof fn lemma_extended_by_transitive(&self, mid: &Self, later: &Self)
        requires
            self.extended_by(mid),
            mid.extended_by(later),
        ensures
            self.extended_by(later),
    {
        assert forall|n: int| 0 <= n < self.nodes().len() implies (#[trigger] later.nodes()[n]).value
            == self.nodes()[n].value by {
            assert(mid.nodes()[n].value == self.nodes()[n].value);
        }
        assert forall|e: int| 0 <= e < self.calls().len() implies #[trigger] later.calls()[e]
            == self.calls()[e] by {
            assert(mid.calls()[e] == self.calls()[e]);
        }
    }

    /// Since this graph, nothing has happened to its nodes but that some
    /// of `loose` have lost their creators, and the nodes that were added
    /// hold no gradient.
    pub open spec fn kept_but(&self, later: &Self, loose: Set<usize>) -> bool {
        &&& self.nodes().len() <= later.nodes().len()
        &&& forall|n: usize|
            n < self.nodes().len() ==> {
                ||| #[trigger] later.nodes()[n as int] == self.nodes()[n as int]
                ||| loose.contains(n) && later.nodes()[n as int] == (Node {
                    creator: None,
                    ..self.nodes()[n as int]
                })
            }
        &&& forall|n: usize|
            self.nodes().len() <= n < later.nodes().len() ==> (#[trigger] later.nodes()[n as int]).gradient is None
    }

    /// What holds of two stretches of work holds of both together.
    pub proof fn lemma_kept_but_transitive(
        &self,
        mid: &Self,
        later: &Self,
        loose: Set<usize>,
        more: Set<usize>,
    )
        requires
            self.kept_but(mid, loose),
            mid.kept_but(later, more),
            forall|n: usize| more.contains(n) && n < self.nodes().len() ==> loose.contains(n),
        ensures
            self.kept_but(later, loose),
    {
        assert forall|n: usize| n < self.nodes().len() implies {
            ||| #[trigger] later.nodes()[n as int] == self.nodes()[n as int]
            ||| loose.contains(n) && later.nodes()[n as int] == (Node {
                creator: None,
                ..self.nodes()[n as int]
            })
        } by {
            assert(mid.nodes()[n as int] == self.nodes()[n as int] || (loose.contains(n)
                && mid.nodes()[n as int] == (Node { creator: None, ..self.nodes()[n as int] })));
            assert(later.nodes()[n as int] == mid.nodes()[n as int] || (more.contains(n)
                && later.nodes()[n as int] == (Node { creator: None, ..mid.nodes()[n as int] })));
        }
        assert forall|n: usize|
            self.nodes().len() <= n < later.nodes().len() implies (#[trigger] later.nodes()[n as int]).gradient is None by {
            if n < mid.nodes().len() {
                assert(mid.nodes()[n as int].gradient is None);
                assert(later.nodes()[n as int] == mid.nodes()[n as int] || (more.contains(n)
                    && later.nodes()[n as int] == (Node {
                    creator: None,
                    ..mid.nodes()[n as int]
                })));
            }
        }
    }

    /// What lives in a graph lives in every extension of it.
    pub proof fn lemma_extension_keeps_alive(&self, later: &Self)
        requires
            self.extended_by(later),
        ensures
            forall|n: usize| self.has_node(n) ==> #[trigger] later.has_node(n),
            forall|ns: Seq<usize>| self.has_nodes(ns) ==> #[trigger] later.has_nodes(ns),
            forall|e: usize| self.call_alive(e) ==> #[trigger] later.call_alive(e),
            forall|es: Seq<usize>| self.calls_alive(es) ==> #[trigger] later.calls_alive(es),
    {
        assert forall|n: usize| self.has_node(n) implies #[trigger] later.has_node(n) by {
            assert(later.nodes()[n as int].value == self.nodes()[n as int].value);
        }
        assert forall|ns: Seq<usize>| self.has_nodes(ns) implies #[trigger] later.has_nodes(ns) by {
            assert forall|i: int| 0 <= i < ns.len() implies later.has_node(#[trigger] ns[i]) by {
                assert(self.has_node(ns[i]));
            }
        }
        assert forall|e: usize| self.call_alive(e) implies #[trigger] later.call_alive(e) by {
            assert(later.calls()[e as int] == self.calls()[e as int]);
            assert(self.has_nodes(self.calls()[e as int].xs@));
            assert(self.has_nodes(self.calls()[e as int].ys@));
        }
        assert forall|es: Seq<usize>| self.calls_alive(es) implies #[trigger] later.calls_alive(
            es,
        ) by {
            assert forall|i: int| 0 <= i < es.len() implies later.call_alive(#[trigger] es[i]) by {
                assert(self.call_alive(es[i]));
            }
        }
    }

    /// The structure of the graph.
    pub open spec fn wiring(&self) -> Wiring {
        Wiring {
            alive: Seq::new(self.nodes().len(), |n: int| self.nodes()[n].value is Some),
            creators: Seq::new(self.nodes().len(), |n: int| self.nodes()[n].creator),
            inputs: Seq::new(self.calls().len(), |e: int| self.calls()[e].xs@),
            outputs: Seq::new(self.calls().len(), |e: int| self.calls()[e].ys@),
        }
    }

    /// An empty graph that records calls.
    pub fn new(kernel: K) -> (graph: Self)
        ensures
            graph.wf(),
            graph.nodes().len() == 0,
            graph.calls().len() == 0,
            graph.tracing(),
            graph.kernel_view() == kernel,
    {
        Graph { kernel, tracing: true, nodes: Vec::new(), calls: Vec::new() }
    }

    /// Whether calls are recorded when not forced.
    pub fn is_tracing(&self) -> (on: bool)
        ensures
            on == self.tracing(),
    {
        self.tracing
    }

    /// Switches the recording of calls on or off.
    pub fn set_tracing(&mut self, on: bool)
        ensures
            final(self).tracing() == on,
            final(self).nodes() == old(self).nodes(),
            final(self).calls() == old(self).calls(),
    {
        self.tracing = on;
    }

    /// The number of handles given out for nodes.
    pub fn node_count(&self) -> (count: usize)
        ensures
            count == self.nodes().len(),
    {
        self.nodes.len()
    }

    /// The number of handles given out for calls.
    pub fn call_count(&self) -> (count: usize)
        ensures
            count == self.calls().len(),
    {
        self.calls.len()
    }

    /// The numeric kernel of the graph.
    pub fn kernel(&self) -> (kernel: &K)
        ensures
            *kernel == self.kernel_view(),
    {
        &self.kernel
    }

    /// The node behind the handle `n`.
    pub fn node(&self, n: usize) -> (node: &Node<V>)
        requires
            self.is_slot(n),
        ensures
            *node == self.nodes()[n as int],
    {
        &self.nodes[n]
    }

    /// The recorded call behind the handle `e`.
    pub fn function_call(&self, e: usize) -> (call: &FunctionCall<U>)
        requires
            self.has_call(e),
        ensures
            *call == self.calls()[e as int],
    {
        &self.calls[e]
    }

    /// The array value of a node that has not been released.
    pub fn value(&self, n: usize) -> (value: &V)
        requires
            self.has_node(n),
        ensures
            Some(*value) == self.nodes()[n as int].value,
    {
        self.nodes[n].value.as_ref().unwrap()
    }

    /// Whether the node has not been released.
    pub fn is_alive(&self, n: usize) -> (alive: bool)
        ensures
            alive == self.has_node(n),
    {
        n < self.nodes.len() && self.nodes[n].value.is_some()
    }

    /// The call that produced the node, if there is one.
    pub fn creator(&self, n: usize) -> (creator: Option<usize>)
        requires
            self.is_slot(n),
        ensures
            creator == self.nodes()[n as int].creator,
    {
        self.nodes[n].creator
    }

    /// Whether the node has no creator.
    pub fn is_leaf(&self, n: usize) -> (leaf: bool)
        requires
            self.is_slot(n),
        ensures
            leaf == (self.nodes()[n as int].creator is None),
    {
        self.nodes[n].creator.is_none()
    }

    /// The node that holds the gradient stored for `n`, if one was
    /// stored.
    pub fn get_gradient(&self, n: usize) -> (gradient: Option<usize>)
        requires
            self.is_slot(n),
        ensures
            gradient == self.nodes()[n as int].gradient,
    {
        self.nodes[n].gradient
    }

    /// The label of the node, if it has one.
    pub fn get_name(&self, n: usize) -> (name: &Option<String>)
        requires
            self.is_slot(n),
        ensures
            *name == self.nodes()[n as int].name,
    {
        &self.nodes[n].name
    }

    /// Adds a leaf that holds `value`.
    pub fn new_node(&mut self, value: V) -> (n: usize)
        requires
            old(self).wf(),
        ensures
            final(self).wf(),
            old(self).extended_by(final(self)),
            n == old(self).nodes().len(),
            final(self).nodes() == old(self).nodes().push(
                Node { value: Some(value), gradient: None, name: None, creator: None },
            ),
            final(self).calls() == old(self).calls(),
    {
        let n: usize = self.nodes.len();
        self.nodes.push(Node { value: Some(value), gradient: None, name: None, creator: None });
        proof {
            assert forall|i: int| 0 <= i < self.nodes().len() implies #[trigger] self.node_ok(
                i,
            ) by {
                if i < n {
                    assert(old(self).node_ok(i));
                }
            }
            assert forall|e: int| 0 <= e < self.calls().len() implies #[trigger] self.call_ok(
                e,
            ) by {
                assert(old(self).call_ok(e));
            }
        }
        n
    }

    /// Stores `g` as the gradient of `n`, replacing what was there.
    pub fn set_gradient(&mut self, n: usize, g: usize)
        requires
            old(self).wf(),
            old(self).has_node(n),
            old(self).has_node(g),
        ensures
            final(self).wf(),
            old(self).extended_by(final(self)),
            final(self).nodes().len() == old(self).nodes().len(),
            final(self).calls() == old(self).calls(),
            final(self).nodes()[n as int] == (Node { gradient: Some(g), ..old(self).nodes()[n as int] }),
            final(self).wiring() == old(self).wiring(),
            forall|i: int|
                0 <= i < old(self).nodes().len() && i != n ==> #[trigger] final(self).nodes()[i]
                    == old(self).nodes()[i],
    {
        self.nodes[n].gradient = Some(g);
        proof {
            assert forall|i: int| 0 <= i < self.nodes().len() implies #[trigger] self.node_ok(
                i,
            ) by {
                assert(old(self).node_ok(i));
            }
            assert forall|e: int| 0 <= e < self.calls().len() implies #[trigger] self.call_ok(
                e,
            ) by {
                assert(old(self).call_ok(e));
            }
            assert(self.wiring().creators =~= old(self).wiring().creators);
            assert(self.wiring().alive =~= old(self).wiring().alive);
        }
    }

    /// Labels the node.
    pub fn set_name(&mut self, n: usize, name: String)
        requires
            old(self).wf(),
            old(self).has_node(n),
        ensures
            final(self).wf(),
            old(self).extended_by(final(self)),
            final(self).nodes().len() == old(self).nodes().len(),
            final(self).calls() == old(self).calls(),
            final(self).nodes()[n as int].name == Some(name),
            final(self).wiring() == old(self).wiring(),
            forall|i: int|
                0 <= i < old(self).nodes().len() && i != n ==> #[trigger] final(self).nodes()[i]
                    == old(self).nodes()[i],
    {
        self.nodes[n].name = Some(name);
        proof {
            assert forall|i: int| 0 <= i < self.nodes().len() implies #[trigger] self.node_ok(
                i,
            ) by {
                assert(old(self).node_ok(i));
            }
            assert forall|e: int| 0 <= e < self.calls().len() implies #[trigger] self.call_ok(
                e,
            ) by {
                assert(old(self).call_ok(e));
            }
            assert(self.wiring().creators =~= old(self).wiring().creators);
            assert(self.wiring().alive =~= old(self).wiring().alive);
        }
    }

    /// Detaches the node from its creator: the node becomes a leaf and no
    /// gradient flows through it any more.
    pub fn unchain(&mut self, n: usize)
        requires
            old(self).wf(),
            old(self).is_slot(n),
        ensures
            final(self).wf(),
            old(self).extended_by(final(self)),
            final(self).nodes().len() == old(self).nodes().len(),
            final(self).calls() == old(self).calls(),
            final(self).nodes()[n as int] == (Node { creator: None, ..old(self).nodes()[n as int] }),
            forall|i: int|
                0 <= i < old(self).nodes().len() && i != n ==> #[trigger] final(self).nodes()[i]
                    == old(self).nodes()[i],
    {
        self.nodes[n].creator = None;
        proof {
            assert forall|i: int| 0 <= i < self.nodes().len() implies #[trigger] self.node_ok(
                i,
            ) by {
                assert(old(self).node_ok(i));
            }
            assert forall|e: int| 0 <= e < self.calls().len() implies #[trigger] self.call_ok(
                e,
            ) by {
                assert(old(self).call_ok(e));
            }
        }
    }

    /// Records a call from `xs` to `ys` and makes it the creator of every
    /// node of `ys`, unless recording is off and `force` is not set: then
    /// nothing changes and the outputs stay as they were.
    ///
    /// Returns the handle of the recorded call.
    pub fn chain(&mut self, xs: &[usize], ys: &[usize], force: bool, backward: Rule<U>) -> (recorded:
        Option<usize>)
        requires
            old(self).wf(),
            old(self).has_nodes(xs@),
            old(self).has_nodes(ys@),
            backward.fits(xs@.len(), ys@.len()),
        ensures
            final(self).wf(),
            old(self).extended_by(final(self)),
            final(self).nodes().len() == old(self).nodes().len(),
            !(force || old(self).tracing()) ==> {
                &&& recorded is None
                &&& final(self).nodes() == old(self).nodes()
                &&& final(self).calls() == old(self).calls()
            },
            (force || old(self).tracing()) ==> {
                &&& recorded == Some(old(self).calls().len() as usize)
                &&& final(self).calls().len() == old(self).calls().len() + 1
                &&& final(self).calls().last().backward == backward
                &&& final(self).calls().last().xs@ == xs@
                &&& final(self).calls().last().ys@ == ys@
                &&& forall|n: usize|
                    n < old(self).nodes().len() ==> #[trigger] final(self).nodes()[n as int] == (
                    if ys@.contains(n) {
                        Node { creator: recorded, ..old(self).nodes()[n as int] }
                    } else {
                        old(self).nodes()[n as int]
                    })
            },
    {
        if !(force || self.tracing) {
            return None;
        }
        let e: usize = self.calls.len();
        self.calls.push(FunctionCall::new(backward, to_vec(xs), ys));
        proof {
            assert forall|i: int| 0 <= i < self.nodes().len() implies #[trigger] self.node_ok(
                i,
            ) by {
                assert(old(self).node_ok(i));
            }
            assert forall|c: int| 0 <= c < self.calls().len() implies #[trigger] self.call_ok(
                c,
            ) by {
                if c < e {
                    assert(old(self).call_ok(c));
                }
            }
        }
        let mut i: usize = 0;
        while i < ys.len()
            invariant
                i <= ys@.len(),
                e + 1 == self.calls().len(),
                self.calls() == old(self).calls().push(self.calls().last()),
                self.calls().last().backward == backward,
                self.calls().last().xs@ == xs@,
                self.calls().last().ys@ == ys@,
                self.nodes().len() == old(self).nodes().len(),
                self.tracing() == old(self).tracing(),
                self.kernel_view() == old(self).kernel_view(),
                self.wf(),
                old(self).has_nodes(ys@),
                old(self).has_nodes(xs@),
                forall|n: usize|
                    n < old(self).nodes().len() ==> #[trigger] self.nodes()[n as int] == (if ys@.take(
                        i as int,
                    ).contains(n) {
                        Node { creator: Some(e), ..old(self).nodes()[n as int] }
                    } else {
                        old(self).nodes()[n as int]
                    }),
            decreases ys@.len() - i,
        {
            let y: usize = ys[i];
            let ghost before = *self;
            self.nodes[y].creator = Some(e);
            proof {
                assert(ys@.take(i + 1) == ys@.take(i as int).push(y));
                assert forall|n: int| 0 <= n < self.nodes().len() implies #[trigger] self.node_ok(
                    n,
                ) by {
                    assert(before.node_ok(n));
                    if n == y {
                        assert(ys@[i as int] == y);
                        assert(old(self).has_node(ys@[i as int]));
                        assert forall|j: int| 0 <= j < xs@.len() implies self.has_node(
                            #[trigger] xs@[j],
                        ) by {
                            assert(old(self).has_node(xs@[j]));
                            assert(before.nodes()[xs@[j] as int].value == old(self).nodes()[xs@[j] as int].value);
                        }
                    }
                }
                assert forall|c: int| 0 <= c < self.calls().len() implies #[trigger] self.call_ok(
                    c,
                ) by {
                    assert(before.call_ok(c));
                }
                let shorter = ys@.take(i as int);
                let longer = ys@.take(i + 1);
                assert(longer == shorter.push(y));
                assert forall|n: usize| n < old(self).nodes().len() implies #[trigger] self.nodes()[n as int]
                    == (if longer.contains(n) {
                    Node { creator: Some(e), ..old(self).nodes()[n as int] }
                } else {
                    old(self).nodes()[n as int]
                }) by {
                    assert(before.nodes()[n as int] == (if shorter.contains(n) {
                        Node { creator: Some(e), ..old(self).nodes()[n as int] }
                    } else {
                        old(self).nodes()[n as int]
                    }));
                    if n == y {
                        assert(longer.last() == y);
                    } else {
                        if shorter.contains(n) {
                            let k = choose|k: int| 0 <= k < shorter.len() && shorter[k] == n;
                            assert(longer[k] == n);
                        } else if longer.contains(n) {
                            let k = choose|k: int| 0 <= k < longer.len() && longer[k] == n;
                            if k < shorter.len() {
                                assert(shorter[k] == n);
                            }
                        }
                    }
                }
            }
            i += 1;
        }
        let count: usize = self.nodes.len();
        proof {
            assert(ys@.take(i as int) == ys@);
            assert forall|n: int| 0 <= n < old(self).nodes().len() implies (#[trigger] self.nodes()[n]).value
                == old(self).nodes()[n].value by {
                let m = n as usize;
                assert(self.nodes()[m as int].value == old(self).nodes()[m as int].value);
            }
        }
        Some(e)
    }
}

/// What is left of a node once it has been released.
pub open spec fn released_node<V>() -> Node<V> {
    Node { value: None, gradient: None, name: None, creator: None }
}

impl<V, U, K> Graph<V, U, K> {
    /// The node `a` keeps the node `b` alive: `b` is an input of the
    /// creator of `a`, or holds the gradient of `a`.
    pub open spec fn owns(&self, a: usize, b: usize) -> bool {
        &&& self.has_node(a)
        &&& {
            ||| self.nodes()[a as int].gradient == Some(b)
            ||| self.nodes()[a as int].creator matches Some(e) && self.has_call(e)
                && self.calls()[e as int].xs@.contains(b)
        }
    }

    /// Whoever is marked keeps only marked nodes alive.
    pub open spec fn closed_under_owns(&self, keep: Seq<bool>) -> bool {
        forall|a: usize, b: usize|
            a < keep.len() && keep[a as int] && #[trigger] self.owns(a, b) ==> b < keep.len()
                && keep[b as int]
    }

    /// The call `e` is the creator of a node that `keep` marks.
    pub open spec fn creates_marked(&self, keep: Seq<bool>, e: usize) -> bool {
        exists|n: usize|
            n < keep.len() && n < self.nodes().len() && #[trigger] keep[n as int]
                && self.nodes()[n as int].creator == Some(e)
    }

    /// Releases every node that `keep` does not mark: its value, creator,
    /// gradient and name are dropped, and its handle stays taken. A call
    /// that is the creator of no node any more is released with its
    /// outputs: its rule and its lists of inputs and outputs are dropped.
    pub fn release_unmarked(&mut self, keep: &Vec<bool>)
        requires
            old(self).wf(),
            keep@.len() == old(self).nodes().len(),
            old(self).closed_under_owns(keep@),
        ensures
            final(self).wf(),
            final(self).nodes().len() == old(self).nodes().len(),
            final(self).calls().len() == old(self).calls().len(),
            final(self).tracing() == old(self).tracing(),
            forall|n: int|
                0 <= n < old(self).nodes().len() ==> #[trigger] final(self).nodes()[n] == (
                if keep@[n] {
                    old(self).nodes()[n]
                } else {
                    released_node()
                }),
            forall|e: usize|
                e < old(self).calls().len() ==> if old(self).creates_marked(keep@, e) {
                    #[trigger] final(self).calls()[e as int] == old(self).calls()[e as int]
                } else {
                    is_released_call(final(self).calls()[e as int])
                },
    {
        let count: usize = self.nodes.len();
        let calls: usize = self.calls.len();
        let mut used: Vec<bool> = vec![false; calls];
        let mut i: usize = 0;
        while i < count
            invariant
                i <= count,
                count == self.nodes().len(),
                count == old(self).nodes().len(),
                calls == self.calls().len(),
                used@.len() == calls,
                keep@.len() == count,
                old(self).wf(),
                self.calls() == old(self).calls(),
                self.tracing() == old(self).tracing(),
                forall|n: int|
                    0 <= n < i ==> #[trigger] self.nodes()[n] == (if keep@[n] {
                        old(self).nodes()[n]
                    } else {
                        released_node()
                    }),
                forall|n: int| i <= n < count ==> #[trigger] self.nodes()[n] == old(self).nodes()[n],
                forall|e: usize|
                    e < calls ==> (#[trigger] used@[e as int] <==> exists|n: usize|
                        n < i && #[trigger] keep@[n as int] && old(self).nodes()[n as int].creator
                            == Some(e)),
            decreases count - i,
        {
            let ghost used_before = used@;
            if keep[i] {
                match self.nodes[i].creator {
                    Some(c) => {
                        proof {
                            assert(old(self).node_ok(i as int));
                        }
                        used.set(c, true);
                    },
                    None => {},
                }
            } else {
                self.nodes[i] = Node { value: None, gradient: None, name: None, creator: None };
            }
            proof {
                assert forall|e: usize| e < calls implies (#[trigger] used@[e as int] <==> exists|
                    n: usize,
                |
                    n < i + 1 && #[trigger] keep@[n as int] && old(self).nodes()[n as int].creator
                        == Some(e)) by {
                    if used_before[e as int] {
                        let n = choose|n: usize|
                            n < i && #[trigger] keep@[n as int] && old(
                                self,
                            ).nodes()[n as int].creator == Some(e);
                        assert(n < i + 1 && keep@[n as int]);
                    }
                    if exists|n: usize|
                        n < i + 1 && #[trigger] keep@[n as int] && old(
                            self,
                        ).nodes()[n as int].creator == Some(e) {
                        let n = choose|n: usize|
                            n < i + 1 && #[trigger] keep@[n as int] && old(
                                self,
                            ).nodes()[n as int].creator == Some(e);
                        if n < i {
                            assert(used_before[e as int]);
                        }
                    }
                }
            }
            i += 1;
        }
        proof {
            assert forall|e: usize| e < calls implies (#[trigger] used@[e as int] <==> old(
                self,
            ).creates_marked(keep@, e)) by {
                if used@[e as int] {
                    let n = choose|n: usize|
                        n < count && #[trigger] keep@[n as int] && old(
                            self,
                        ).nodes()[n as int].creator == Some(e);
                }
                if old(self).creates_marked(keep@, e) {
                    let n = choose|n: usize|
                        n < keep@.len() && n < old(self).nodes().len() && #[trigger] keep@[n as int]
                            && old(self).nodes()[n as int].creator == Some(e);
                    assert(n < count && keep@[n as int]);
                }
            }
        }
        let mut e: usize = 0;
        while e < calls
            invariant
                e <= calls,
                calls == self.calls().len(),
                calls == old(self).calls().len(),
                used@.len() == calls,
                count == self.nodes().len(),
                self.tracing() == old(self).tracing(),
                forall|n: int|
                    0 <= n < count ==> #[trigger] self.nodes()[n] == (if keep@[n] {
                        old(self).nodes()[n]
                    } else {
                        released_node()
                    }),
                forall|c: int|
                    0 <= c < e ==> if used@[c] {
                        #[trigger] self.calls()[c] == old(self).calls()[c]
                    } else {
                        is_released_call(self.calls()[c])
                    },
                forall|c: int| e <= c < calls ==> #[trigger] self.calls()[c] == old(self).calls()[c],
            decreases calls - e,
        {
            if !used[e] {
                self.calls[e] = FunctionCall { backward: Rule::Leaf, xs: Vec::new(), ys: Vec::new() };
            }
            e += 1;
        }
        proof {
            assert forall|n: int| 0 <= n < self.nodes().len() implies #[trigger] self.node_ok(
                n,
            ) by {
                assert(old(self).node_ok(n));
                let node = old(self).nodes()[n];
                if keep@[n] {
                    let a = n as usize;
                    if let Some(g) = node.gradient {
                        assert(old(self).owns(a, g));
                        assert(self.nodes()[g as int] == old(self).nodes()[g as int]);
                    }
                    if let Some(c) = node.creator {
                        assert(old(self).creates_marked(keep@, c));
                        assert(used@[c as int]);
                        assert(self.calls()[c as int] == old(self).calls()[c as int]);
                        let xs = old(self).calls()[c as int].xs@;
                        assert forall|j: int| 0 <= j < xs.len() implies self.has_node(
                            #[trigger] xs[j],
                        ) by {
                            assert(xs.contains(xs[j]));
                            assert(old(self).owns(a, xs[j]));
                            assert(old(self).has_node(xs[j]));
                            assert(self.nodes()[xs[j] as int] == old(self).nodes()[xs[j] as int]);
                        }
                    }
                }
            }
            assert forall|c: int| 0 <= c < self.calls().len() implies #[trigger] self.call_ok(
                c,
            ) by {
                assert(old(self).call_ok(c));
                if used@[c] {
                    assert(self.calls()[c] == old(self).calls()[c]);
                }
            }
            assert forall|c: usize| c < old(self).calls().len() implies if old(
                self,
            ).creates_marked(keep@, c) {
                #[trigger] self.calls()[c as int] == old(self).calls()[c as int]
            } else {
                is_released_call(self.calls()[c as int])
            } by {
                assert(used@[c as int] <==> old(self).creates_marked(keep@, c));
            }
        }
    }
}

/// What is left of a call once it has been released: no inputs, no
/// outputs and the rule of a mark.
pub open spec fn is_released_call<U>(call: FunctionCall<U>) -> bool {
    &&& call.backward is Leaf
    &&& call.xs@.len() == 0
    &&& call.ys@.len() == 0
}

impl<V, U, K: Kernel<V>> Graph<V, U, K> {
    /// The extent of the node's value along each axis, as the kernel
    /// reports it.
    pub fn shape(&self, n: usize) -> (shape: Vec<usize>)
        requires
            self.has_node(n),
        ensures
            is_shape(self.kernel_view(), self.value_of(n), shape@),
    {
        self.kernel.shape(self.value(n))
    }

    /// The number of axes of the node's value: the length of the shape
    /// that the kernel reports for it.
    pub fn rank(&self, n: usize) -> (rank: usize)
        requires
            self.has_node(n),
        ensures
            exists|shape: Seq<usize>|
                #[trigger] is_shape(self.kernel_view(), self.value_of(n), shape) && rank
                    == shape.len(),
    {
        let shape = self.kernel.shape(self.value(n));
        assert(is_shape(self.kernel_view(), self.value_of(n), shape@));
        shape.len()
    }
}

/// Wraps a value as a node and marks it as a traced root: the node gets a
/// creator with no inputs that contributes no gradients, so that walks of
/// the graph visit it like any other traced node. The mark is made even
/// when recording is off.
pub fn backprop<V, U, K>(graph: &mut Graph<V, U, K>, x: V) -> (y: usize)
    requires
        old(graph).wf(),
    ensures
        final(graph).wf(),
        old(graph).extended_by(final(graph)),
        y == old(graph).nodes().len(),
        final(graph).nodes() == old(graph).nodes().push(
            Node { value: Some(x), gradient: None, name: None, creator: Some(old(graph).calls().len() as usize) },
        ),
        final(graph).calls().len() == old(graph).calls().len() + 1,
        final(graph).calls().last().backward == Rule::<U>::Leaf,
        final(graph).calls().last().xs@ == Seq::<usize>::empty(),
        final(graph).calls().last().ys@ == seq![y],
{
    let y: usize = graph.new_node(x);
    let ghost mid = *graph;
    let xs: [usize; 0] = [];
    let ys: [usize; 1] = [y];
    proof {
        assert(ys@ == seq![y]);
        assert(xs@ == Seq::<usize>::empty());
    }
    graph.chain(xs.as_slice(), ys.as_slice(), true, Rule::Leaf);
    proof {
        assert(ys@.contains(y)) by {
            assert(ys@[0] == y);
        }
        assert(graph.nodes() =~= old(graph).nodes().push(
            Node { value: Some(x), gradient: None, name: None, creator: Some(old(graph).calls().len() as usize) },
        )) by {
            assert forall|n: int| 0 <= n < graph.nodes().len() implies graph.nodes()[n] == old(
                graph,
            ).nodes().push(
                Node {
                    value: Some(x),
                    gradient: None,
                    name: None,
                    creator: Some(old(graph).calls().len() as usize),
                },
            )[n] by {
                let m = n as usize;
                if n < y {
                    assert(!ys@.contains(m)) by {
                        if ys@.contains(m) {
                            let k = choose|k: int| 0 <= k < ys@.len() && ys@[k] == m;
                        }
                    }
                    assert(graph.nodes()[m as int] == mid.nodes()[m as int]);
                } else {
                    assert(graph.nodes()[m as int] == Node { creator: Some(old(graph).calls().len() as usize), ..mid.nodes()[m as int] });
                }
            }
        }
    }
    y
}

} // verus!
