use vstd::prelude::*;
use crate::graph::{Graph, Node, Rule};

pub mod add;
pub mod broadcast;
pub mod create_graph;
pub mod exp;
pub mod mul;
pub mod neg;
pub mod reshape;
pub mod sin;
pub mod square;
pub mod sum;
pub mod transpose;

verus! {

/// `later` is `earlier` after one operation on `xs`: one node `y` was
/// added and no other node was touched. With `trace` set the call was
/// recorded as the creator of `y`; otherwise `y` is a leaf and no call was
/// added.
pub open spec fn applied<V, U, K>(
    earlier: &Graph<V, U, K>,
    later: &Graph<V, U, K>,
    xs: Seq<usize>,
    y: usize,
    trace: bool,
) -> bool {
    &&& later.wf()
    &&& earlier.extended_by(later)
    &&& y == earlier.nodes().len()
    &&& later.nodes().len() == earlier.nodes().len() + 1
    &&& later.has_node(y)
    &&& later.nodes()[y as int].gradient is None
    &&& forall|n: int|
        0 <= n < earlier.nodes().len() ==> #[trigger] later.nodes()[n] == earlier.nodes()[n]
    &&& trace ==> {
        &&& later.calls().len() == earlier.calls().len() + 1
        &&& later.calls().last().xs@ == xs
        &&& later.calls().last().ys@ == seq![y]
        &&& later.nodes()[y as int].creator == Some(earlier.calls().len() as usize)
    }
    &&& !trace ==> {
        &&& later.calls() == earlier.calls()
        &&& later.nodes()[y as int].creator is None
    }
}

/// The `k`-th operation that was applied since `earlier` read `xs`: it
/// added the `k`-th new node, and if `earlier` was recording it is
/// recorded in `later` as the `k`-th new call and is the creator of that
/// node; otherwise the node is a leaf.
pub open spec fn step_is<V, U, K>(
    earlier: &Graph<V, U, K>,
    later: &Graph<V, U, K>,
    k: int,
    xs: Seq<usize>,
) -> bool {
    let y = earlier.nodes().len() + k;
    let e = earlier.calls().len() + k;
    &&& later.has_node(y as usize)
    &&& if earlier.tracing() {
        &&& e < later.calls().len()
        &&& later.calls()[e].xs@ == xs
        &&& later.calls()[e].ys@ == seq![y as usize]
        &&& later.nodes()[y].creator == Some(e as usize)
    } else {
        later.nodes()[y].creator is None
    }
}

/// Since `earlier`, exactly `count` operations were applied.
pub open spec fn steps<V, U, K>(
    earlier: &Graph<V, U, K>,
    later: &Graph<V, U, K>,
    count: int,
) -> bool {
    &&& later.nodes().len() == earlier.nodes().len() + count
    &&& later.calls().len() == earlier.calls().len() + if earlier.tracing() {
        count
    } else {
        0
    }
}

/// Each of `gxs` is one of `gys` or a node that was added since
/// `earlier`.
pub open spec fn given_or_new<V, U, K>(
    earlier: &Graph<V, U, K>,
    gxs: Seq<usize>,
    gys: Seq<usize>,
) -> bool {
    forall|i: int|
        0 <= i < gxs.len() ==> gys.contains(#[trigger] gxs[i]) || gxs[i] >= earlier.nodes().len()
}

/// One operation leaves the nodes that were there as they were, and the
/// node it adds holds no gradient.
pub proof fn lemma_applied_keeps<V, U, K>(
    earlier: &Graph<V, U, K>,
    later: &Graph<V, U, K>,
    xs: Seq<usize>,
    y: usize,
    trace: bool,
)
    requires
        applied(earlier, later, xs, y, trace),
    ensures
        earlier.kept_but(later, Set::empty()),
{
    assert forall|n: usize| n < earlier.nodes().len() implies #[trigger] later.nodes()[n as int]
        == earlier.nodes()[n as int] by {
        assert(later.nodes()[n as int] == earlier.nodes()[n as int]);
    }
}

/// Adds a node that holds `value`, the result of an operation on `xs`.
/// With `trace` set the call is recorded with the given rule and becomes
/// the creator of the new node; otherwise the new node is a leaf.
pub fn record<V, U, K>(
    graph: &mut Graph<V, U, K>,
    xs: &[usize],
    value: V,
    backward: Rule<U>,
    trace: bool,
) -> (y: usize)
    requires
        old(graph).wf(),
        old(graph).has_nodes(xs@),
        backward.fits(xs@.len(), 1),
    ensures
        applied(old(graph), final(graph), xs@, y, trace),
        final(graph).nodes()[y as int].value == Some(value),
        trace ==> final(graph).calls().last().backward == backward,
{
    let count: usize = graph.node_count();
    let y: usize = graph.new_node(value);
    if trace {
        let ghost mid = *graph;
        let ys: [usize; 1] = [y];
        proof {
            assert(ys@ == seq![y]);
            assert forall|i: int| 0 <= i < xs@.len() implies mid.has_node(#[trigger] xs@[i]) by {
                assert(old(graph).has_node(xs@[i]));
            }
        }
        graph.chain(xs, ys.as_slice(), true, backward);
        proof {
            assert(ys@[0] == y);
            assert(ys@.contains(y));
            assert forall|n: int| 0 <= n < old(graph).nodes().len() implies #[trigger] graph.nodes()[n]
                == old(graph).nodes()[n] by {
                let m = n as usize;
                assert(!ys@.contains(m)) by {
                    if ys@.contains(m) {
                        let k = choose|k: int| 0 <= k < ys@.len() && ys@[k] == m;
                    }
                }
                assert(graph.nodes()[m as int] == mid.nodes()[m as int]);
            }
            assert(graph.nodes()[y as int] == Node {
                creator: Some(old(graph).calls().len() as usize),
                ..mid.nodes()[y as int]
            });
            old(graph).lemma_extended_by_transitive(&mid, graph);
        }
    }
    y
}

/// Moves the values out of `values`, last first.
fn reversed<V>(values: Vec<V>) -> (out: Vec<V>)
    ensures
        out@ == values@.reverse(),
{
    let mut values = values;
    let mut out: Vec<V> = Vec::new();
    let ghost all = values@;
    while values.len() > 0
        invariant
            values@.len() + out@.len() == all.len(),
            values@ == all.take(values@.len() as int),
            forall|j: int| 0 <= j < out@.len() ==> out@[j] == all[all.len() - 1 - j],
        decreases values@.len(),
    {
        let v = values.pop().unwrap();
        out.push(v);
    }
    assert(out@ =~= all.reverse());
    out
}

/// `later` is `earlier` after an operation on `xs` with the outputs
/// `values` was taken in: one node was added for each value, in order,
/// these are `ys`, and no other node was touched. With `trace` set the
/// call was recorded with the rule `backward` as the creator of `ys`;
/// otherwise the new nodes are leaves and no call was added.
pub open spec fn recorded_many<V, U, K>(
    earlier: &Graph<V, U, K>,
    later: &Graph<V, U, K>,
    xs: Seq<usize>,
    values: Seq<V>,
    backward: Rule<U>,
    trace: bool,
    ys: Seq<usize>,
) -> bool {
    &&& later.wf()
    &&& earlier.extended_by(later)
    &&& ys.len() == values.len()
    &&& later.nodes().len() == earlier.nodes().len() + ys.len()
    &&& forall|i: int| 0 <= i < ys.len() ==> #[trigger] ys[i] == earlier.nodes().len() + i
    &&& forall|n: int|
        0 <= n < earlier.nodes().len() ==> #[trigger] later.nodes()[n] == earlier.nodes()[n]
    &&& forall|i: int|
        0 <= i < ys.len() ==> (#[trigger] later.nodes()[earlier.nodes().len() + i]) == (Node {
            value: Some(values[i]),
            gradient: None,
            name: None,
            creator: if trace {
                Some(earlier.calls().len() as usize)
            } else {
                None
            },
        })
    &&& trace ==> {
        &&& later.calls().len() == earlier.calls().len() + 1
        &&& later.calls().last().backward == backward
        &&& later.calls().last().xs@ == xs
        &&& later.calls().last().ys@ == ys
    }
    &&& !trace ==> later.calls() == earlier.calls()
}

/// Adds one node for each of `values`, the outputs of an operation on
/// `xs`, in order. With `trace` set the call is recorded with the given
/// rule and becomes the creator of the new nodes; otherwise the new nodes
/// are leaves.
pub fn record_many<V, U, K>(
    graph: &mut Graph<V, U, K>,
    xs: &[usize],
    values: Vec<V>,
    backward: Rule<U>,
    trace: bool,
) -> (ys: Vec<usize>)
    requires
        old(graph).wf(),
        old(graph).has_nodes(xs@),
        backward.fits(xs@.len(), values@.len()),
    ensures
        final(graph).wf(),
        old(graph).extended_by(final(graph)),
        ys@.len() == values@.len(),
        final(graph).nodes().len() == old(graph).nodes().len() + ys@.len(),
        forall|i: int| 0 <= i < ys@.len() ==> #[trigger] ys@[i] == old(graph).nodes().len() + i,
        forall|n: int|
            0 <= n < old(graph).nodes().len() ==> #[trigger] final(graph).nodes()[n] == old(
                graph,
            ).nodes()[n],
        forall|i: int|
            0 <= i < ys@.len() ==> (#[trigger] final(graph).nodes()[old(graph).nodes().len() + i])
                == (Node {
                value: Some(values@[i]),
                gradient: None,
                name: None,
                creator: if trace {
                    Some(old(graph).calls().len() as usize)
                } else {
                    None
                },
            }),
        trace ==> {
            &&& final(graph).calls().len() == old(graph).calls().len() + 1
            &&& final(graph).calls().last().backward == backward
            &&& final(graph).calls().last().xs@ == xs@
            &&& final(graph).calls().last().ys@ == ys@
        },
        !trace ==> final(graph).calls() == old(graph).calls(),
        recorded_many(old(graph), final(graph), xs@, values@, backward, trace, ys@),
{
    let ghost given = values@;
    let mut rest = reversed(values);
    let mut ys: Vec<usize> = Vec::new();
    let count: usize = graph.node_count();
    while rest.len() > 0
        invariant
            graph.wf(),
            old(graph).extended_by(graph),
            count == old(graph).nodes().len(),
            graph.nodes().len() == count + ys@.len(),
            graph.calls() == old(graph).calls(),
            ys@.len() + rest@.len() == given.len(),
            forall|j: int| 0 <= j < rest@.len() ==> rest@[j] == given[given.len() - 1 - j],
            forall|i: int| 0 <= i < ys@.len() ==> #[trigger] ys@[i] == count + i,
            forall|n: int|
                0 <= n < count ==> #[trigger] graph.nodes()[n] == old(graph).nodes()[n],
            forall|i: int|
                0 <= i < ys@.len() ==> (#[trigger] graph.nodes()[count + i]) == (Node {
                    value: Some(given[i]),
                    gradient: None,
                    name: None,
                    creator: None,
                }),
        decreases rest@.len(),
    {
        let ghost before = *graph;
        let ghost done = ys@.len();
        let v = rest.pop().unwrap();
        let y = graph.new_node(v);
        proof {
            old(graph).lemma_extended_by_transitive(&before, graph);
            assert forall|i: int| 0 <= i < done + 1 implies (#[trigger] graph.nodes()[count + i])
                == (Node { value: Some(given[i]), gradient: None, name: None, creator: None }) by {
                if i < done {
                    assert(graph.nodes()[count + i] == before.nodes()[count + i]);
                }
            }
        }
        ys.push(y);
    }
    if trace {
        let ghost mid = *graph;
        proof {
            assert forall|i: int| 0 <= i < xs@.len() implies mid.has_node(#[trigger] xs@[i]) by {
                assert(old(graph).has_node(xs@[i]));
            }
        }
        let recorded = graph.chain(xs, ys.as_slice(), true, backward);
        proof {
            old(graph).lemma_extended_by_transitive(&mid, graph);
            assert forall|n: int| 0 <= n < count implies #[trigger] graph.nodes()[n] == old(
                graph,
            ).nodes()[n] by {
                let m = n as usize;
                if ys@.contains(m) {
                    let k = choose|k: int| 0 <= k < ys@.len() && ys@[k] == m;
                }
                assert(graph.nodes()[m as int] == mid.nodes()[m as int]);
            }
            assert forall|i: int| 0 <= i < ys@.len() implies (#[trigger] graph.nodes()[count + i])
                == (Node {
                value: Some(given[i]),
                gradient: None,
                name: None,
                creator: Some(old(graph).calls().len() as usize),
            }) by {
                let m = (count + i) as usize;
                assert(ys@[i] == m);
                assert(ys@.contains(m));
                assert(graph.nodes()[m as int] == Node { creator: recorded, ..mid.nodes()[m as int] });
            }
        }
    }
    ys
}

} // verus!
