use vstd::prelude::*;
use std::collections::HashMap;
use crate::function::{backward_of, rule_ran, Function};
use crate::functions::given_or_new;
use crate::graph::{Graph, Wiring};
use crate::kernel::Kernel;
use crate::order::try_sort_for_backward;
use crate::table::{
    accumulate, first_missing, gather, is_sum, lemma_first_missing, lemma_merged_dom, merged,
    merges, release, seed, seeded_with, stored, summands,
};
use crate::walk::{collect_function_calls, collect_variables};

verus! {

broadcast use vstd::std_specs::hash::group_hash_axioms;

/// Why a backward pass stopped. Each of these is a defect of the graph or
/// of an operation, not a condition to recover from.
#[derive(Debug, Clone, Copy, PartialEq, Eq)]
pub enum BackwardError {
    /// The calls depend on each other in a cycle.
    Cycle,
    /// The backward rule of `call` returned `gradients` gradients for
    /// `inputs` inputs, against its contract.
    ArityMismatch { call: usize, inputs: usize, gradients: usize },
    /// The backward rule of `call` returned a handle that is no live
    /// node of the graph, against its contract.
    UnknownGradient { call: usize },
    /// No gradient has reached the output `node` of `call` by the time the
    /// call is processed.
    MissingGradient { call: usize, node: usize },
    /// No gradient has reached the target `node`.
    Unreachable { node: usize },
    /// The call `call` is still in use, but its output `node` has been
    /// released.
    Released { call: usize, node: usize },
}

impl Wiring {
    /// `calls` lists, each once, the calls that can be reached backward
    /// from `roots`.
    pub open spec fn collects(&self, roots: Seq<usize>, calls: Seq<usize>) -> bool {
        &&& calls.no_duplicates()
        &&& forall|e: usize| calls.contains(e) <==> self.call_reached(roots, e)
    }

    /// The nodes for which a gradient is stored once the first `k` calls
    /// of `order` have been processed, starting from gradients for
    /// `seeds`: processing a call stores a gradient for each of its inputs
    /// and drops those of its outputs that are no `targets`.
    pub open spec fn held(
        &self,
        order: Seq<usize>,
        seeds: Set<usize>,
        targets: Set<usize>,
        k: nat,
    ) -> Set<usize>
        decreases k,
    {
        if k == 0 {
            seeds
        } else {
            let e = order[k - 1];
            self.held(order, seeds, targets, (k - 1) as nat).union(
                self.inputs[e as int].to_set(),
            ).difference(self.outputs[e as int].to_set().difference(targets))
        }
    }

    /// The first output of the `k`-th call of `order` that has no gradient
    /// when the call's turn comes.
    pub open spec fn starved(
        &self,
        order: Seq<usize>,
        seeds: Set<usize>,
        targets: Set<usize>,
        k: nat,
    ) -> Option<usize> {
        first_missing(self.outputs[order[k as int] as int], self.held(order, seeds, targets, k))
    }

    /// Each of the first `k` calls of `order` finds a gradient for every
    /// one of its outputs when its turn comes.
    pub open spec fn fed(
        &self,
        order: Seq<usize>,
        seeds: Set<usize>,
        targets: Set<usize>,
        k: nat,
    ) -> bool {
        forall|j: nat| j < k ==> #[trigger] self.starved(order, seeds, targets, j) is None
    }
}

/// Whether every handle in `nodes` is a node of the graph that has not
/// been released.
pub fn has_all_nodes<V, U, K>(graph: &Graph<V, U, K>, nodes: &[usize]) -> (ok: bool)
    ensures
        ok == graph.has_nodes(nodes@),
{
    let mut i: usize = 0;
    while i < nodes.len()
        invariant
            i <= nodes@.len(),
            forall|j: int| 0 <= j < i ==> graph.has_node(#[trigger] nodes@[j]),
        decreases nodes@.len() - i,
    {
        if !graph.is_alive(nodes[i]) {
            assert(!graph.has_node(nodes@[i as int]));
            return false;
        }
        i += 1;
    }
    true
}

/// `after` is `before` with each of `nodes` detached from its creator
/// and nothing else changed.
pub open spec fn detached<V, U, K>(
    before: &Graph<V, U, K>,
    after: &Graph<V, U, K>,
    nodes: Seq<usize>,
) -> bool {
    &&& after.wf()
    &&& before.extended_by(after)
    &&& after.nodes().len() == before.nodes().len()
    &&& after.calls() == before.calls()
    &&& forall|n: usize|
        n < before.nodes().len() ==> #[trigger] after.nodes()[n as int] == (if nodes.contains(n) {
            crate::graph::Node { creator: None, ..before.nodes()[n as int] }
        } else {
            before.nodes()[n as int]
        })
}

/// Detaches each of `nodes` from its creator.
pub fn detach<V, U, K>(graph: &mut Graph<V, U, K>, nodes: &[usize])
    requires
        old(graph).wf(),
        old(graph).has_nodes(nodes@),
    ensures
        final(graph).wf(),
        old(graph).extended_by(final(graph)),
        final(graph).nodes().len() == old(graph).nodes().len(),
        final(graph).calls() == old(graph).calls(),
        forall|i: int|
            0 <= i < nodes@.len() ==> final(graph).nodes()[#[trigger] nodes@[i] as int].creator is None,
        forall|n: usize|
            n < old(graph).nodes().len() && !nodes@.contains(n) ==> #[trigger] final(graph).nodes()[n as int] == old(graph).nodes()[n as int],
        old(graph).kept_but(final(graph), nodes@.to_set()),
        detached(old(graph), final(graph), nodes@),
{
    let mut i: usize = 0;
    while i < nodes.len()
        invariant
            i <= nodes@.len(),
            graph.wf(),
            old(graph).extended_by(graph),
            old(graph).has_nodes(nodes@),
            graph.nodes().len() == old(graph).nodes().len(),
            graph.calls() == old(graph).calls(),
            forall|j: int|
                0 <= j < i ==> graph.nodes()[#[trigger] nodes@[j] as int].creator is None,
            forall|n: usize|
                n < old(graph).nodes().len() && !nodes@.contains(n) ==> #[trigger] graph.nodes()[n as int]
                    == old(graph).nodes()[n as int],
            old(graph).kept_but(graph, nodes@.to_set()),
        decreases nodes@.len() - i,
    {
        let ghost before = *graph;
        let node: usize = nodes[i];
        assert(old(graph).has_node(nodes@[i as int]));
        graph.unchain(node);
        proof {
            old(graph).lemma_extended_by_transitive(&before, graph);
            assert(nodes@.contains(node));
            assert(before.kept_but(graph, set![node])) by {
                assert forall|n: usize| n < before.nodes().len() implies {
                    ||| #[trigger] graph.nodes()[n as int] == before.nodes()[n as int]
                    ||| set![node].contains(n) && graph.nodes()[n as int] == (crate::graph::Node {
                        creator: None,
                        ..before.nodes()[n as int]
                    })
                } by {
                    if n != node {
                        assert(graph.nodes()[n as int] == before.nodes()[n as int]);
                    }
                }
            }
            old(graph).lemma_kept_but_transitive(&before, graph, nodes@.to_set(), set![node]);
            assert forall|j: int| 0 <= j < i + 1 implies graph.nodes()[#[trigger] nodes@[j] as int].creator is None by {
                if nodes@[j] != node {
                    assert(graph.nodes()[nodes@[j] as int] == before.nodes()[nodes@[j] as int]);
                }
            }
            assert forall|n: usize|
                n < old(graph).nodes().len() && !nodes@.contains(n) implies #[trigger] graph.nodes()[n as int]
                == old(graph).nodes()[n as int] by {
                assert(nodes@[i as int] == node);
                assert(n != node);
                assert(graph.nodes()[n as int] == before.nodes()[n as int]);
            }
        }
        i += 1;
    }
    proof {
        assert forall|n: usize| n < old(graph).nodes().len() implies #[trigger] graph.nodes()[n as int]
            == (if nodes@.contains(n) {
            crate::graph::Node { creator: None, ..old(graph).nodes()[n as int] }
        } else {
            old(graph).nodes()[n as int]
        }) by {
            if nodes@.contains(n) {
                let i = choose|i: int| 0 <= i < nodes@.len() && nodes@[i] == n;
                assert(graph.nodes()[nodes@[i] as int].creator is None);
            }
        }
    }
}

/// The gradients `gxs` that a rule returned for the inputs `xs` of a call
/// with the outputs `ys` were taken in, between `ruled` and `after`:
/// without `create_graph` they were detached; they were merged into the
/// table, each addition stored in a new node that holds the sum of the
/// stored gradient and the contribution; and the gradients of the outputs
/// that are no `targets` were dropped from the table.
pub open spec fn absorbed<V, U, K: Kernel<V>>(
    ruled: &Graph<V, U, K>,
    after: &Graph<V, U, K>,
    table_before: Map<usize, usize>,
    table_after: Map<usize, usize>,
    xs: Seq<usize>,
    ys: Seq<usize>,
    gxs: Seq<usize>,
    targets: Set<usize>,
    create_graph: bool,
) -> bool {
    let first = ruled.nodes().len();
    let sums = merges(table_before.dom(), xs);
    &&& ruled.has_nodes(gxs)
    &&& gxs.len() == xs.len()
    &&& after.wf()
    &&& ruled.extended_by(after)
    &&& table_after == merged(table_before, xs, gxs, first).remove_keys(
        ys.to_set().difference(targets),
    )
    &&& after.nodes().len() == first + sums
    &&& ruled.kept_but(
        after,
        if create_graph {
            Set::empty()
        } else {
            gxs.to_set()
        },
    )
    &&& !create_graph ==> forall|i: int|
        0 <= i < gxs.len() ==> after.nodes()[#[trigger] gxs[i] as int].creator is None
    &&& forall|j: int|
        0 <= j < sums ==> is_sum(
            after,
            #[trigger] summands(table_before, xs, gxs, first)[j],
            first + j,
        )
    &&& forall|n: int|
        first <= n < after.nodes().len() ==> ((#[trigger] after.nodes()[n]).creator is None
            <==> !create_graph)
    &&& !create_graph ==> after.calls() == ruled.calls()
    &&& create_graph ==> after.calls().len() == ruled.calls().len() + sums
    &&& create_graph ==> forall|j: int|
        0 <= j < sums ==> {
            let sum = #[trigger] after.calls()[ruled.calls().len() + j];
            let pair = summands(table_before, xs, gxs, first)[j];
            &&& sum.backward is Add
            &&& sum.xs@ == seq![pair.0, pair.1]
            &&& sum.ys@ == seq![(first + j) as usize]
        }
}

/// Takes in what the backward rule of the call `call`, with inputs `xs`
/// and outputs `ys`, has returned.
///
/// Gradients that are no nodes of the graph are refused, and so is a
/// number of gradients other than the number of inputs. What passes is
/// detached (unless `create_graph` is set) and merged into the table of
/// accumulated gradients; then the gradients of the outputs that are no
/// `targets` are dropped from the table.
pub fn absorb<V, U, K: Kernel<V>>(
    graph: &mut Graph<V, U, K>,
    table: &mut HashMap<usize, usize>,
    call: usize,
    xs: &[usize],
    ys: &[usize],
    gxs: &[usize],
    targets: &[usize],
    create_graph: bool,
) -> (done: Result<(), BackwardError>)
    requires
        old(graph).wf(),
        forall|x: usize| #[trigger]
            old(table)@.contains_key(x) ==> old(graph).has_node(old(table)@[x]),
    ensures
        final(graph).wf(),
        old(graph).extended_by(final(graph)),
        forall|x: usize| #[trigger]
            final(table)@.contains_key(x) ==> final(graph).has_node(final(table)@[x]),
        old(graph).kept_but(final(graph), gxs@.to_set()),
        forall|x: usize| #[trigger]
            final(table)@.contains_key(x) ==> {
                ||| old(table)@.contains_key(x) && final(table)@[x] == old(table)@[x]
                ||| gxs@.contains(final(table)@[x])
                ||| final(table)@[x] >= old(graph).nodes().len()
            },
        match done {
            Err(BackwardError::UnknownGradient { call: at }) => {
                &&& at == call
                &&& !old(graph).has_nodes(gxs@)
                &&& final(table)@ == old(table)@
            },
            Err(BackwardError::ArityMismatch { call: at, inputs, gradients }) => {
                &&& at == call
                &&& old(graph).has_nodes(gxs@)
                &&& inputs == xs@.len()
                &&& gradients == gxs@.len()
                &&& gradients != inputs
                &&& final(table)@ == old(table)@
            },
            Ok(()) => {
                &&& old(graph).has_nodes(gxs@)
                &&& gxs@.len() == xs@.len()
                &&& final(table)@ == merged(
                    old(table)@,
                    xs@,
                    gxs@,
                    old(graph).nodes().len(),
                ).remove_keys(ys@.to_set().difference(targets@.to_set()))
                &&& final(graph).nodes().len() == old(graph).nodes().len() + merges(
                    old(table)@.dom(),
                    xs@,
                )
                &&& !create_graph ==> final(graph).calls() == old(graph).calls()
                &&& !create_graph ==> forall|i: int|
                    0 <= i < gxs@.len() ==> final(graph).nodes()[#[trigger] gxs@[i] as int].creator is None
                &&& absorbed(
                    old(graph),
                    final(graph),
                    old(table)@,
                    final(table)@,
                    xs@,
                    ys@,
                    gxs@,
                    targets@.to_set(),
                    create_graph,
                )
            },
            Err(_) => false,
        },
{
    if !has_all_nodes(graph, gxs) {
        return Err(BackwardError::UnknownGradient { call });
    }
    if gxs.len() != xs.len() {
        return Err(
            BackwardError::ArityMismatch { call, inputs: xs.len(), gradients: gxs.len() },
        );
    }
    if !create_graph {
        detach(graph, gxs);
    }
    let ghost mid = *graph;
    accumulate(graph, table, xs, gxs, create_graph);
    release(table, ys, targets);
    proof {
        old(graph).lemma_extended_by_transitive(&mid, graph);
        assert(old(graph).kept_but(&mid, gxs@.to_set())) by {
            if create_graph {
                assert(mid == *old(graph));
            }
        }
        old(graph).lemma_kept_but_transitive(&mid, graph, gxs@.to_set(), Set::empty());
        if create_graph {
            assert(mid == *old(graph));
        }
        assert(mid.nodes().len() == old(graph).nodes().len());
        assert(mid.calls() == old(graph).calls());
        if !create_graph {
            assert forall|i: int| 0 <= i < gxs@.len() implies graph.nodes()[#[trigger] gxs@[i] as int].creator is None by {
                assert(mid.has_node(gxs@[i]));
                assert(graph.nodes()[gxs@[i] as int] == mid.nodes()[gxs@[i] as int]);
            }
        }
    }
    Ok(())
}

/// The call `e` was processed between `a` and `b`, with the gradients
/// `gys` gathered and the gradients `gxs` returned by its rule: `gys` are
/// the gradients stored for the outputs of the call, by position; the
/// rule ran on them between `a` and `ruled` and returned `gxs`; and `gxs`
/// were taken in between `ruled` and `b`.
pub open spec fn processed_with<V, U, K: Kernel<V>>(
    a: &Graph<V, U, K>,
    table_a: Map<usize, usize>,
    ruled: &Graph<V, U, K>,
    b: &Graph<V, U, K>,
    table_b: Map<usize, usize>,
    e: usize,
    targets: Set<usize>,
    create_graph: bool,
    gys: Seq<usize>,
    gxs: Seq<usize>,
) -> bool {
    let xs = a.calls()[e as int].xs@;
    let ys = a.calls()[e as int].ys@;
    &&& gys.len() == ys.len()
    &&& forall|i: int|
        0 <= i < ys.len() ==> table_a.contains_key(#[trigger] ys[i]) && gys[i] == table_a[ys[i]]
    &&& a.extended_by(ruled)
    &&& a.kept_but(ruled, Set::empty())
    &&& given_or_new(a, gxs, gys)
    &&& rule_ran(a, ruled, e, gys, gxs)
    &&& absorbed(ruled, b, table_a, table_b, xs, ys, gxs, targets, create_graph)
}

/// The call `e` was processed between the graph `a` with the table
/// `table_a` and the graph `b` with the table `table_b`.
pub open spec fn call_processed<V, U, K: Kernel<V>>(
    a: &Graph<V, U, K>,
    table_a: Map<usize, usize>,
    b: &Graph<V, U, K>,
    table_b: Map<usize, usize>,
    e: usize,
    targets: Set<usize>,
    create_graph: bool,
) -> bool {
    exists|ruled: Graph<V, U, K>, gys: Seq<usize>, gxs: Seq<usize>| #[trigger]
        processed_with(a, table_a, &ruled, b, table_b, e, targets, create_graph, gys, gxs)
}

/// `graphs` and `tables` are the states of a pass over `order`: one
/// before the first call and one after each call, each call processed
/// between the state before it and the state after it.
pub open spec fn passed<V, U, K: Kernel<V>>(
    graphs: Seq<Graph<V, U, K>>,
    tables: Seq<Map<usize, usize>>,
    order: Seq<usize>,
    targets: Set<usize>,
    create_graph: bool,
) -> bool {
    &&& graphs.len() == order.len() + 1
    &&& tables.len() == order.len() + 1
    &&& forall|k: int|
        0 <= k < order.len() ==> call_processed(
            &graphs[k],
            tables[k],
            &graphs[k + 1],
            tables[k + 1],
            #[trigger] order[k],
            targets,
            create_graph,
        )
}

/// A pass over `order` led from the graph `before` with the table
/// `table_before` to the graph `after` with the table `table_after`.
pub open spec fn pass_ran<V, U, K: Kernel<V>>(
    before: &Graph<V, U, K>,
    table_before: Map<usize, usize>,
    after: &Graph<V, U, K>,
    table_after: Map<usize, usize>,
    order: Seq<usize>,
    targets: Set<usize>,
    create_graph: bool,
) -> bool {
    exists|graphs: Seq<Graph<V, U, K>>, tables: Seq<Map<usize, usize>>|
        {
            &&& #[trigger] passed(graphs, tables, order, targets, create_graph)
            &&& graphs[0] == *before
            &&& tables[0] == table_before
            &&& graphs.last() == *after
            &&& tables.last() == table_after
        }
}

/// Processes the calls of `order`, one after the other, on a table of
/// accumulated gradients.
///
/// For each call: the gradients stored for its outputs are gathered by
/// position, its backward rule turns them into one gradient per input,
/// these are merged into the table, and the gradients of the outputs that
/// are no `targets` are dropped from it. Without `create_graph` every
/// gradient that a rule returns is detached at once.
///
/// The pass stops at the first call that finds no gradient for one of its
/// outputs. A rule that keeps to its contract returns one live gradient
/// per input, so nothing else can stop it.
pub fn propagate<V, U: Function<V, K> + Clone, K: Kernel<V>>(
    graph: &mut Graph<V, U, K>,
    order: &[usize],
    table: &mut HashMap<usize, usize>,
    targets: &[usize],
    create_graph: bool,
) -> (done: Result<(), BackwardError>)
    requires
        old(graph).wf(),
        old(graph).calls_alive(order@),
        forall|x: usize| #[trigger]
            old(table)@.contains_key(x) ==> old(graph).has_node(old(table)@[x]),
    ensures
        final(graph).wf(),
        old(graph).extended_by(final(graph)),
        forall|x: usize| #[trigger]
            final(table)@.contains_key(x) ==> final(graph).has_node(final(table)@[x]),
        old(graph).kept_but(final(graph), stored(old(table)@)),
        forall|x: usize| #[trigger]
            final(table)@.contains_key(x) ==> stored(old(table)@).contains(final(table)@[x])
                || final(table)@[x] >= old(graph).nodes().len(),
        match done {
            Ok(()) => {
                &&& pass_ran(
                    old(graph),
                    old(table)@,
                    final(graph),
                    final(table)@,
                    order@,
                    targets@.to_set(),
                    create_graph,
                )
                &&& old(graph).wiring().fed(
                    order@,
                    old(table)@.dom(),
                    targets@.to_set(),
                    order@.len(),
                )
                &&& final(table)@.dom() =~= old(graph).wiring().held(
                    order@,
                    old(table)@.dom(),
                    targets@.to_set(),
                    order@.len(),
                )
            },
            Err(BackwardError::MissingGradient { call, node }) => exists|k: nat|
                {
                    &&& k < order@.len()
                    &&& order@[k as int] == call
                    &&& old(graph).wiring().fed(order@, old(table)@.dom(), targets@.to_set(), k)
                    &&& #[trigger] old(graph).wiring().starved(
                        order@,
                        old(table)@.dom(),
                        targets@.to_set(),
                        k,
                    ) == Some(node)
                },
            Err(_) => false,
        },
{
    let ghost w = old(graph).wiring();
    let ghost seeds = old(table)@.dom();
    let ghost wanted = targets@.to_set();
    let ghost given = stored(old(table)@);
    let ghost mut graphs: Seq<Graph<V, U, K>> = seq![*graph];
    let ghost mut tables: Seq<Map<usize, usize>> = seq![table@];
    let mut k: usize = 0;
    proof {
        assert(old(graph).kept_but(graph, given));
    }
    while k < order.len()
        invariant
            k <= order@.len(),
            graph.wf(),
            old(graph).extended_by(graph),
            old(graph).wf(),
            old(graph).calls_alive(order@),
            w == old(graph).wiring(),
            seeds == old(table)@.dom(),
            wanted == targets@.to_set(),
            forall|x: usize| #[trigger] table@.contains_key(x) ==> graph.has_node(table@[x]),
            w.fed(order@, seeds, wanted, k as nat),
            table@.dom() =~= w.held(order@, seeds, wanted, k as nat),
            given == stored(old(table)@),
            old(graph).kept_but(graph, given),
            forall|x: usize| #[trigger]
                table@.contains_key(x) ==> given.contains(table@[x]) || table@[x] >= old(
                    graph,
                ).nodes().len(),
            graphs.len() == k + 1,
            tables.len() == k + 1,
            graphs[0] == *old(graph),
            tables[0] == old(table)@,
            graphs[k as int] == *graph,
            tables[k as int] == table@,
            forall|j: int|
                0 <= j < k ==> call_processed(
                    &graphs[j],
                    tables[j],
                    &graphs[j + 1],
                    tables[j + 1],
                    #[trigger] order@[j],
                    wanted,
                    create_graph,
                ),
        decreases order@.len() - k,
    {
        let e: usize = order[k];
        proof {
            assert(old(graph).call_alive(order@[k as int]));
            old(graph).lemma_extension_keeps_alive(graph);
            assert(graph.call_alive(e));
            assert(graph.calls()[e as int] == old(graph).calls()[e as int]);
            assert(order@.contains(e));
        }
        let call = graph.function_call(e);
        let xs = call.get_xs();
        let ys = call.get_ys(graph);
        proof {
            assert(xs@ == w.inputs[e as int]);
            assert(ys@ == w.outputs[e as int]);
        }
        let gys = match gather(table, ys.as_slice()) {
            Ok(gys) => gys,
            Err(node) => {
                proof {
                    assert(w.starved(order@, seeds, wanted, k as nat) == Some(node));
                }
                return Err(BackwardError::MissingGradient { call: e, node });
            },
        };
        proof {
            assert forall|i: int| 0 <= i < gys@.len() implies graph.has_node(
                #[trigger] gys@[i],
            ) by {
                assert(table@.contains_key(ys@[i]));
            }
        }
        let ghost before = *graph;
        let gxs = backward_of(graph, e, gys.as_slice());
        let ghost ruled = *graph;
        proof {
            old(graph).lemma_extended_by_transitive(&before, graph);
        }
        let ghost mid = *graph;
        let ghost held_before = table@;
        match absorb(
            graph,
            table,
            e,
            xs.as_slice(),
            ys.as_slice(),
            gxs.as_slice(),
            targets,
            create_graph,
        ) {
            Ok(()) => {},
            Err(error) => {
                proof {
                    old(graph).lemma_extended_by_transitive(&mid, graph);
                    assert(false);
                }
                return Err(error);
            },
        }
        proof {
            old(graph).lemma_extended_by_transitive(&mid, graph);
            {
                assert forall|n: usize|
                    gxs@.to_set().contains(n) && n < before.nodes().len() implies gys@.to_set().contains(
                    n,
                ) by {
                    let i = choose|i: int| 0 <= i < gxs@.len() && gxs@[i] == n;
                    assert(gys@.contains(gxs@[i]) || gxs@[i] >= before.nodes().len());
                }
                before.lemma_kept_but_transitive(&ruled, graph, gys@.to_set(), gxs@.to_set());
                assert forall|n: usize|
                    gys@.to_set().contains(n) && n < old(graph).nodes().len() implies given.contains(
                    n,
                ) by {
                    let i = choose|i: int| 0 <= i < gys@.len() && gys@[i] == n;
                    assert(held_before.contains_key(ys@[i]));
                    assert(held_before[ys@[i]] == n);
                }
                old(graph).lemma_kept_but_transitive(&before, graph, given, gys@.to_set());
                assert forall|x: usize| #[trigger] table@.contains_key(x) implies given.contains(
                    table@[x],
                ) || table@[x] >= old(graph).nodes().len() by {
                    let g = table@[x];
                    if held_before.contains_key(x) && g == held_before[x] {
                    } else if gxs@.contains(g) {
                        let i = choose|i: int| 0 <= i < gxs@.len() && gxs@[i] == g;
                        if gys@.contains(gxs@[i]) {
                            let j = choose|j: int| 0 <= j < gys@.len() && gys@[j] == g;
                            assert(held_before.contains_key(ys@[j]));
                            assert(held_before[ys@[j]] == g);
                        }
                    }
                }
            }
            lemma_merged_dom(held_before, xs@, gxs@, mid.nodes().len());
            assert forall|j: nat| j < k + 1 implies #[trigger] w.starved(
                order@,
                seeds,
                wanted,
                j,
            ) is None by {
                if j == k {
                } else {
                    assert(w.fed(order@, seeds, wanted, k as nat));
                }
            }
            let earlier_graphs = graphs;
            let earlier_tables = tables;
            graphs = graphs.push(*graph);
            tables = tables.push(table@);
            assert(processed_with(
                &before,
                held_before,
                &ruled,
                graph,
                table@,
                e,
                wanted,
                create_graph,
                gys@,
                gxs@,
            ));
            assert forall|j: int| 0 <= j < k + 1 implies call_processed(
                &graphs[j],
                tables[j],
                &graphs[j + 1],
                tables[j + 1],
                #[trigger] order@[j],
                wanted,
                create_graph,
            ) by {
                if j < k {
                    assert(graphs[j] == earlier_graphs[j]);
                    assert(graphs[j + 1] == earlier_graphs[j + 1]);
                    assert(tables[j] == earlier_tables[j]);
                    assert(tables[j + 1] == earlier_tables[j + 1]);
                    assert(call_processed(
                        &earlier_graphs[j],
                        earlier_tables[j],
                        &earlier_graphs[j + 1],
                        earlier_tables[j + 1],
                        order@[j],
                        wanted,
                        create_graph,
                    ));
                } else {
                    assert(graphs[j] == before);
                    assert(tables[j] == held_before);
                    assert(graphs[j + 1] == *graph);
                    assert(tables[j + 1] == table@);
                }
            }
        }
        k += 1;
    }
    proof {
        assert(passed(graphs, tables, order@, wanted, create_graph));
        assert(graphs.last() == *graph);
        assert(tables.last() == table@);
    }
    Ok(())
}

/// What a backward pass from `ys` to the targets `xs` comes to, given the
/// order in which the reachable calls are processed (`None` where they
/// cannot be ordered): which result is returned when.
pub open spec fn gradients_outcome<V, U, K: Kernel<V>>(
    before: &Graph<V, U, K>,
    after: &Graph<V, U, K>,
    order: Option<Seq<usize>>,
    ys: Seq<usize>,
    xs: Seq<usize>,
    create_graph: bool,
    result: Result<Seq<usize>, BackwardError>,
) -> bool {
    let w = before.wiring();
    let seeds = ys.to_set();
    let targets = xs.to_set();
    match result {
        Err(BackwardError::Cycle) => order is None,
        Err(BackwardError::MissingGradient { call, node }) => {
            &&& order matches Some(o)
            &&& exists|k: nat|
                {
                    &&& k < o.len()
                    &&& o[k as int] == call
                    &&& w.fed(o, seeds, targets, k)
                    &&& #[trigger] w.starved(o, seeds, targets, k) == Some(node)
                }
        },
        Err(BackwardError::Unreachable { node }) => {
            &&& order matches Some(o)
            &&& w.fed(o, seeds, targets, o.len())
            &&& first_missing(xs, w.held(o, seeds, targets, o.len())) == Some(node)
        },
        Err(_) => false,
        Ok(gxs) => {
            &&& order matches Some(o)
            &&& w.fed(o, seeds, targets, o.len())
            &&& first_missing(xs, w.held(o, seeds, targets, o.len())) is None
            &&& gxs.len() == xs.len()
            &&& after.has_nodes(gxs)
            &&& !create_graph ==> forall|i: int|
                0 <= i < gxs.len() ==> after.nodes()[#[trigger] gxs[i] as int].creator is None
            &&& exists|
                seeded: Graph<V, U, K>,
                seeds: Map<usize, usize>,
                swept: Graph<V, U, K>,
                table: Map<usize, usize>,
            | #[trigger]
                pass_found(
                    before,
                    after,
                    &seeded,
                    seeds,
                    &swept,
                    table,
                    o,
                    ys,
                    xs,
                    create_graph,
                    gxs,
                )
        },
    }
}

/// The course of a successful pass from `ys` to the targets `xs`: the
/// outputs were seeded between `before` and `seeded`; the calls of
/// `order` were processed, one after the other, which led to the graph
/// `passed` and the table `table`; the gradient returned for each target
/// is the one that the table holds for it; and `after` is `passed`,
/// with the returned gradients detached unless `create_graph` is set.
pub open spec fn pass_found<V, U, K: Kernel<V>>(
    before: &Graph<V, U, K>,
    after: &Graph<V, U, K>,
    seeded: &Graph<V, U, K>,
    seeds: Map<usize, usize>,
    passed: &Graph<V, U, K>,
    table: Map<usize, usize>,
    order: Seq<usize>,
    ys: Seq<usize>,
    xs: Seq<usize>,
    create_graph: bool,
    gxs: Seq<usize>,
) -> bool {
    &&& seeded_with(before, seeded, seeds, ys, create_graph)
    &&& pass_ran(seeded, seeds, passed, table, order, xs.to_set(), create_graph)
    &&& forall|i: int|
        0 <= i < xs.len() ==> table.contains_key(#[trigger] xs[i]) && gxs[i] == table[xs[i]]
    &&& if create_graph {
        *after == *passed
    } else {
        detached(passed, after, gxs)
    }
}

/// The result of a pass with the returned gradients as a sequence.
pub open spec fn viewed(result: Result<Vec<usize>, BackwardError>) -> Result<
    Seq<usize>,
    BackwardError,
> {
    match result {
        Ok(gxs) => Ok(gxs@),
        Err(error) => Err(error),
    }
}

/// The pass is bound to succeed: the calls can be ordered, each finds a
/// gradient for every one of its outputs when its turn comes, and a
/// gradient reaches every target.
pub open spec fn success_owed<V, U, K>(
    before: &Graph<V, U, K>,
    order: Option<Seq<usize>>,
    ys: Seq<usize>,
    xs: Seq<usize>,
) -> bool {
    let w = before.wiring();
    &&& order matches Some(o)
    &&& w.fed(o, ys.to_set(), xs.to_set(), o.len())
    &&& first_missing(xs, w.held(o, ys.to_set(), xs.to_set(), o.len())) is None
}

/// The gradients of `ys` with respect to each of `xs`.
///
/// Each of `ys` is seeded with an all-ones gradient of its shape. The
/// calls that can be reached backward from `ys` are collected, ordered
/// from the outputs to the leaves and processed in that order (see
/// `propagate`); the gradients accumulated for `xs` are returned, by
/// position. With `create_graph` the seeds and the additions are recorded
/// so that the result can be differentiated again. Without it every
/// returned gradient is a leaf.
///
/// The result is an error where a call behind `ys` has lost an output,
/// where the calls depend on each other in a cycle, where a call finds no
/// gradient for one of its outputs, and where no gradient reaches one of
/// `xs`; it is `Ok` wherever none of these holds.
pub fn try_gradients<V, U: Function<V, K> + Clone, K: Kernel<V>>(
    graph: &mut Graph<V, U, K>,
    ys: &[usize],
    xs: &[usize],
    create_graph: bool,
) -> (result: Result<Vec<usize>, BackwardError>)
    requires
        old(graph).wf(),
        old(graph).has_nodes(ys@),
        old(graph).has_nodes(xs@),
    ensures
        final(graph).wf(),
        old(graph).extended_by(final(graph)),
        old(graph).kept_but(final(graph), Set::empty()),
        result matches Ok(gxs) ==> forall|i: int|
            0 <= i < gxs@.len() ==> #[trigger] gxs@[i] >= old(graph).nodes().len(),
        match result {
            Err(BackwardError::Released { call, node }) => {
                &&& old(graph).wiring().call_reached(ys@, call)
                &&& old(graph).has_call(call)
                &&& old(graph).calls()[call as int].ys@.contains(node)
                &&& !old(graph).has_node(node)
            },
            _ => {
                &&& old(graph).wiring().intact(ys@)
                &&& exists|calls: Seq<usize>|
                    {
                        &&& #[trigger] old(graph).wiring().collects(ys@, calls)
                        &&& gradients_outcome(
                            old(graph),
                            final(graph),
                            old(graph).wiring().backward_order(calls),
                            ys@,
                            xs@,
                            create_graph,
                            viewed(result),
                        )
                        &&& success_owed(
                            old(graph),
                            old(graph).wiring().backward_order(calls),
                            ys@,
                            xs@,
                        ) ==> result is Ok
                    }
            },
        },
{
    let ghost w = graph.wiring();
    let calls = match collect_function_calls(graph, crate::graph::to_vec(ys)) {
        Ok(calls) => calls,
        Err(released) => {
            return Err(BackwardError::Released { call: released.call, node: released.node });
        },
    };
    let ghost collected = calls@;
    assert(w.collects(ys@, collected));
    let order = match try_sort_for_backward(graph, calls) {
        Some(order) => order,
        None => {
            assert(gradients_outcome(
                old(graph),
                graph,
                w.backward_order(collected),
                ys@,
                xs@,
                create_graph,
                Err(BackwardError::Cycle),
            ));
            return Err(BackwardError::Cycle);
        },
    };
    proof {
        w.law_backward_order(collected);
        assert forall|i: int| 0 <= i < order@.len() implies graph.call_alive(
            #[trigger] order@[i],
        ) by {
            assert(order@.contains(order@[i]));
            let j = choose|j: int| 0 <= j < collected.len() && collected[j] == order@[i];
            assert(graph.call_alive(collected[j]));
        }
    }
    let mut table = seed(graph, ys, create_graph);
    let ghost seeded = *graph;
    proof {
        old(graph).lemma_extension_keeps_alive(&seeded);
    }
    let ghost k = order@.len();
    let ghost seeds = table@;
    let passed = propagate(graph, order.as_slice(), &mut table, xs, create_graph);
    let ghost swept = *graph;
    let ghost tabled = table@;
    proof {
        {
            assert forall|n: usize|
                stored(seeds).contains(n) && n < old(graph).nodes().len() implies Set::<
                usize,
            >::empty().contains(n) by {
                let x = choose|x: usize| #[trigger] seeds.contains_key(x) && seeds[x] == n;
            }
            old(graph).lemma_kept_but_transitive(&seeded, graph, Set::empty(), stored(seeds));
            assert forall|x: usize| #[trigger] table@.contains_key(x) implies table@[x] >= old(
                graph,
            ).nodes().len() by {
                if stored(seeds).contains(table@[x]) {
                    let y = choose|y: usize| #[trigger]
                        seeds.contains_key(y) && seeds[y] == table@[x];
                }
            }
        }
    }
    match passed {
        Ok(()) => {},
        Err(error) => {
            proof {
                old(graph).lemma_extended_by_transitive(&seeded, graph);
                lemma_pass_ignores_growth(w, seeded.wiring(), order@, ys@.to_set(), xs@.to_set(), k);
                lemma_pass_ignores_growth_all(w, seeded.wiring(), order@, ys@.to_set(), xs@.to_set());
                assert forall|e: usize| order@.contains(e) implies seeded.calls()[e as int]
                    == old(graph).calls()[e as int] by {
                    let i = choose|i: int| 0 <= i < order@.len() && order@[i] == e;
                    assert(old(graph).has_call(order@[i]));
                }
                assert(gradients_outcome(
                    old(graph),
                    graph,
                    w.backward_order(collected),
                    ys@,
                    xs@,
                    create_graph,
                    Err(error),
                ));
            }
            return Err(error);
        },
    }
    proof {
        old(graph).lemma_extended_by_transitive(&seeded, graph);
        lemma_pass_ignores_growth_all(w, seeded.wiring(), order@, ys@.to_set(), xs@.to_set());
    }
    let gxs = match gather(&table, xs) {
        Ok(gxs) => gxs,
        Err(node) => {
            assert(gradients_outcome(
                old(graph),
                graph,
                w.backward_order(collected),
                ys@,
                xs@,
                create_graph,
                Err(BackwardError::Unreachable { node }),
            ));
            return Err(BackwardError::Unreachable { node });
        },
    };
    proof {
        assert forall|i: int| 0 <= i < gxs@.len() implies graph.has_node(#[trigger] gxs@[i]) by {
            assert(table@.contains_key(xs@[i]));
        }
    }
    proof {
        assert forall|i: int| 0 <= i < gxs@.len() implies #[trigger] gxs@[i] >= old(
            graph,
        ).nodes().len() by {
            assert(table@.contains_key(xs@[i]));
        }
    }
    if !create_graph {
        let ghost mid = *graph;
        detach(graph, gxs.as_slice());
        proof {
            old(graph).lemma_extended_by_transitive(&mid, graph);
            {
                assert forall|n: usize|
                    gxs@.to_set().contains(n) && n < old(graph).nodes().len() implies Set::<
                    usize,
                >::empty().contains(n) by {
                    let i = choose|i: int| 0 <= i < gxs@.len() && gxs@[i] == n;
                }
                old(graph).lemma_kept_but_transitive(&mid, graph, Set::empty(), gxs@.to_set());
            }
        }
    }
    proof {
        assert(seeded_with(old(graph), &seeded, seeds, ys@, create_graph));
        assert(pass_ran(&seeded, seeds, &swept, tabled, order@, xs@.to_set(), create_graph));
        assert(pass_found(
            old(graph),
            graph,
            &seeded,
            seeds,
            &swept,
            tabled,
            order@,
            ys@,
            xs@,
            create_graph,
            gxs@,
        ));
    }
    assert(gradients_outcome(
        old(graph),
        graph,
        w.backward_order(collected),
        ys@,
        xs@,
        create_graph,
        Ok(gxs@),
    ));
    Ok(gxs)
}

impl<V, U, K> Graph<V, U, K> {
    /// A pass from `ys` to the targets `xs` cannot fail: no call behind
    /// `ys` has lost an output, and in whatever order the calls are
    /// collected they can be ordered, each finds a gradient for every one
    /// of its outputs when its turn comes, and a gradient reaches every
    /// target.
    pub open spec fn can_pass(&self, ys: Seq<usize>, xs: Seq<usize>) -> bool {
        &&& self.wiring().intact(ys)
        &&& forall|calls: Seq<usize>| #[trigger]
            self.wiring().collects(ys, calls) ==> success_owed(
                self,
                self.wiring().backward_order(calls),
                ys,
                xs,
            )
    }
}

/// The gradients of `ys` with respect to each of `xs`, for a graph in
/// which the pass cannot fail (see `can_pass`): what `try_gradients`
/// returns. For a graph that has a cycle behind `ys`, a target that no
/// gradient reaches, a call that finds no gradient for an output or a
/// call with a released output there is no result: such a graph is a
/// defect, and `try_gradients` tells which one.
pub fn gradients<V, U: Function<V, K> + Clone, K: Kernel<V>>(
    graph: &mut Graph<V, U, K>,
    ys: &[usize],
    xs: &[usize],
    create_graph: bool,
) -> (gxs: Vec<usize>)
    requires
        old(graph).wf(),
        old(graph).has_nodes(ys@),
        old(graph).has_nodes(xs@),
        old(graph).can_pass(ys@, xs@),
    ensures
        final(graph).wf(),
        old(graph).extended_by(final(graph)),
        old(graph).kept_but(final(graph), Set::empty()),
        forall|i: int| 0 <= i < gxs@.len() ==> #[trigger] gxs@[i] >= old(graph).nodes().len(),
        exists|calls: Seq<usize>|
            {
                &&& #[trigger] old(graph).wiring().collects(ys@, calls)
                &&& gradients_outcome(
                    old(graph),
                    final(graph),
                    old(graph).wiring().backward_order(calls),
                    ys@,
                    xs@,
                    create_graph,
                    Ok(gxs@),
                )
            },
{
    let ghost w = graph.wiring();
    let result = try_gradients(graph, ys, xs, create_graph);
    match result {
        Ok(gxs) => gxs,
        Err(error) => {
            proof {
                if let BackwardError::Released { call, node } = error {
                    let lost = old(graph).calls()[call as int].ys@;
                    let i = choose|i: int| 0 <= i < lost.len() && lost[i] == node;
                    assert(w.has_call(call));
                    assert(w.outputs[call as int] == lost);
                    assert(w.alive[w.outputs[call as int][i] as int]);
                    assert(old(graph).call_ok(call as int));
                    assert(old(graph).is_slot(lost[i]));
                } else {
                    let calls = choose|calls: Seq<usize>|
                        {
                            &&& #[trigger] w.collects(ys@, calls)
                            &&& gradients_outcome(
                                old(graph),
                                graph,
                                w.backward_order(calls),
                                ys@,
                                xs@,
                                create_graph,
                                viewed(result),
                            )
                            &&& success_owed(old(graph), w.backward_order(calls), ys@, xs@)
                                ==> result is Ok
                        };
                    assert(success_owed(old(graph), w.backward_order(calls), ys@, xs@));
                }
                assert(false);
            }
            vstd::pervasive::unreached()
        },
    }
}

/// Calls recorded later do not change what a pass over earlier calls
/// holds.
proof fn lemma_pass_ignores_growth(
    w: Wiring,
    later: Wiring,
    order: Seq<usize>,
    seeds: Set<usize>,
    targets: Set<usize>,
    k: nat,
)
    requires
        k <= order.len(),
        forall|i: int| 0 <= i < order.len() ==> w.has_call(#[trigger] order[i]),
        forall|e: usize| #[trigger]
            w.has_call(e) ==> later.has_call(e) && later.inputs[e as int] == w.inputs[e as int]
                && later.outputs[e as int] == w.outputs[e as int],
    ensures
        later.held(order, seeds, targets, k) == w.held(order, seeds, targets, k),
    decreases k,
{
    if k > 0 {
        lemma_pass_ignores_growth(w, later, order, seeds, targets, (k - 1) as nat);
        assert(w.has_call(order[k - 1]));
    }
}

proof fn lemma_pass_ignores_growth_all(
    w: Wiring,
    later: Wiring,
    order: Seq<usize>,
    seeds: Set<usize>,
    targets: Set<usize>,
)
    requires
        forall|i: int| 0 <= i < order.len() ==> w.has_call(#[trigger] order[i]),
        forall|e: usize| #[trigger]
            w.has_call(e) ==> later.has_call(e) && later.inputs[e as int] == w.inputs[e as int]
                && later.outputs[e as int] == w.outputs[e as int],
    ensures
        forall|k: nat|
            k <= order.len() ==> #[trigger] later.held(order, seeds, targets, k) == w.held(
                order,
                seeds,
                targets,
                k,
            ),
        forall|k: nat|
            k < order.len() ==> #[trigger] later.starved(order, seeds, targets, k) == w.starved(
                order,
                seeds,
                targets,
                k,
            ),
        forall|k: nat|
            k <= order.len() ==> (later.fed(order, seeds, targets, k) <==> w.fed(
                order,
                seeds,
                targets,
                k,
            )),
{
    assert forall|k: nat| k <= order.len() implies #[trigger] later.held(order, seeds, targets, k)
        == w.held(order, seeds, targets, k) by {
        lemma_pass_ignores_growth(w, later, order, seeds, targets, k);
    }
    assert forall|k: nat| k < order.len() implies #[trigger] later.starved(order, seeds, targets, k)
        == w.starved(order, seeds, targets, k) by {
        assert(w.has_call(order[k as int]));
    }
    assert forall|k: nat| k <= order.len() implies (later.fed(order, seeds, targets, k) <==> w.fed(
        order,
        seeds,
        targets,
        k,
    )) by {
        if later.fed(order, seeds, targets, k) {
            assert forall|j: nat| j < k implies #[trigger] w.starved(order, seeds, targets, j) is None by {
                assert(later.starved(order, seeds, targets, j) is None);
            }
        }
        if w.fed(order, seeds, targets, k) {
            assert forall|j: nat| j < k implies #[trigger] later.starved(order, seeds, targets, j) is None by {
                assert(w.starved(order, seeds, targets, j) is None);
            }
        }
    }
}

impl Wiring {
    /// A gradient stored for a target stays: a target that was seeded, or
    /// that one of the first `k` calls reads, is held after those calls.
    pub proof fn lemma_target_held(
        &self,
        order: Seq<usize>,
        seeds: Set<usize>,
        targets: Set<usize>,
        k: nat,
        t: usize,
    )
        requires
            k <= order.len(),
            targets.contains(t),
            seeds.contains(t) || exists|j: int|
                0 <= j < k && (#[trigger] self.inputs[order[j] as int]).contains(t),
        ensures
            self.held(order, seeds, targets, k).contains(t),
        decreases k,
    {
        if k > 0 {
            let read_now = self.inputs[order[k - 1] as int].contains(t);
            if !read_now {
                if !seeds.contains(t) {
                    let j = choose|j: int|
                        0 <= j < k && (#[trigger] self.inputs[order[j] as int]).contains(t);
                    assert(j < k - 1);
                }
                self.lemma_target_held(order, seeds, targets, (k - 1) as nat, t);
            }
        }
    }

    /// The table keeps no gradient for an intermediate result: once the
    /// creator of a node that is no target has been processed, no
    /// gradient is stored for the node, whatever is processed after.
    pub proof fn law_intermediates_released(
        &self,
        order: Seq<usize>,
        seeds: Set<usize>,
        targets: Set<usize>,
        j: int,
        k: nat,
        n: usize,
    )
        requires
            self.is_backward_order(order),
            order.no_duplicates(),
            0 <= j < k <= order.len(),
            self.creators[n as int] == Some(order[j]),
            self.outputs[order[j] as int].contains(n),
            !targets.contains(n),
        ensures
            !self.held(order, seeds, targets, k).contains(n),
        decreases k,
    {
        if k > j + 1 {
            self.law_intermediates_released(order, seeds, targets, j, (k - 1) as nat, n);
            let e = order[k - 1];
            if self.inputs[e as int].contains(n) {
                let i = choose|i: int| 0 <= i < self.inputs[e as int].len() && self.inputs[e as int][i] == n;
                assert(self.input_pending(order, k - 1, i));
                let later = choose|later: int| k - 1 < later < order.len() && order[later] == order[j];
                assert(false);
            }
        }
    }
}

/// The targets of the pass that `Graph::backward` runs from `y`: the
/// leaves among the nodes that the calls behind `y` read, and last `y`
/// itself.
pub open spec fn targets_of<V, U, K>(before: &Graph<V, U, K>, y: usize, targets: Seq<usize>) -> bool {
    &&& targets.len() > 0
    &&& targets.last() == y
    &&& forall|n: usize|
        targets.contains(n) <==> n == y || (before.has_node(n)
            && before.nodes()[n as int].creator is None && before.wiring().input_reached(
            seq![y],
            n,
        ))
}

/// `after` is `passed` with the gradient `gxs[i]` stored in the node
/// `targets[i]`, for every `i`, and nothing else changed.
pub open spec fn gradients_stored<V, U, K>(
    passed: &Graph<V, U, K>,
    after: &Graph<V, U, K>,
    targets: Seq<usize>,
    gxs: Seq<usize>,
) -> bool {
    &&& after.wf()
    &&& passed.extended_by(after)
    &&& after.nodes().len() == passed.nodes().len()
    &&& after.calls() == passed.calls()
    &&& forall|i: int|
        0 <= i < targets.len() ==> after.nodes()[#[trigger] targets[i] as int].gradient == Some(
            gxs[i],
        )
    &&& forall|n: usize|
        n < passed.nodes().len() ==> #[trigger] after.nodes()[n as int] == (if targets.contains(n) {
            crate::graph::Node {
                gradient: after.nodes()[n as int].gradient,
                ..passed.nodes()[n as int]
            }
        } else {
            passed.nodes()[n as int]
        })
}

/// The result of `Graph::backward` as the result of the pass that it
/// runs, which returned the gradients `gxs`.
pub open spec fn pass_result(done: Result<(), BackwardError>, gxs: Seq<usize>) -> Result<
    Seq<usize>,
    BackwardError,
> {
    match done {
        Ok(_) => Ok(gxs),
        Err(error) => Err(error),
    }
}

/// What `Graph::backward` does from `y`: it runs a pass from `y` to
/// `targets`, which leads from `before` to `passed` and returns `gxs`;
/// where the pass succeeds, each gradient is stored in its target, which
/// gives `after`; where it fails, nothing is stored and the error is
/// that of the pass. With `y` the last target, the gradient stored in `y`
/// is its seed.
pub open spec fn backward_ran<V, U, K: Kernel<V>>(
    before: &Graph<V, U, K>,
    after: &Graph<V, U, K>,
    passed: &Graph<V, U, K>,
    y: usize,
    targets: Seq<usize>,
    gxs: Seq<usize>,
    create_graph: bool,
    done: Result<(), BackwardError>,
) -> bool {
    &&& targets_of(before, y, targets)
    &&& exists|calls: Seq<usize>|
        {
            &&& #[trigger] before.wiring().collects(seq![y], calls)
            &&& gradients_outcome(
                before,
                passed,
                before.wiring().backward_order(calls),
                seq![y],
                targets,
                create_graph,
                pass_result(done, gxs),
            )
            &&& success_owed(before, before.wiring().backward_order(calls), seq![y], targets)
                ==> done is Ok
        }
    &&& match done {
        Ok(_) => gradients_stored(passed, after, targets, gxs),
        Err(_) => *after == *passed,
    }
}

impl<V, U: Function<V, K> + Clone, K: Kernel<V>> Graph<V, U, K> {
    /// Runs a backward pass from the node `y` and stores what it finds in
    /// the graph: `y` gets its seed, an all-ones gradient of its shape,
    /// and every leaf that a call reachable from `y` reads gets the
    /// gradient of `y` with respect to it. Other nodes keep the gradient
    /// they had. Fails where the pass fails, with its error; a gradient
    /// reaches every target, so the pass never fails for want of one.
    pub fn backward(&mut self, y: usize, create_graph: bool) -> (done: Result<(), BackwardError>)
        requires
            old(self).wf(),
            old(self).has_node(y),
        ensures
            final(self).wf(),
            old(self).extended_by(final(self)),
            done is Ok ==> {
                &&& final(self).nodes()[y as int].gradient is Some
                &&& forall|n: usize|
                    old(self).has_node(n) && old(self).nodes()[n as int].creator is None && old(
                        self,
                    ).wiring().input_reached(seq![y], n) ==> (#[trigger] final(self).nodes()[n as int]).gradient is Some
            },
            done matches Err(error) ==> !(error is Unreachable),
            match done {
                Err(BackwardError::Released { call, node }) => {
                    &&& old(self).wiring().call_reached(seq![y], call)
                    &&& old(self).has_call(call)
                    &&& old(self).calls()[call as int].ys@.contains(node)
                    &&& !old(self).has_node(node)
                },
                _ => {
                    &&& old(self).wiring().intact(seq![y])
                    &&& exists|targets: Seq<usize>, passed: Graph<V, U, K>, gxs: Seq<usize>| #[trigger]
                        backward_ran(
                            old(self),
                            final(self),
                            &passed,
                            y,
                            targets,
                            gxs,
                            create_graph,
                            done,
                        )
                },
            },
    {
        let ghost w = self.wiring();
        let ys: [usize; 1] = [y];
        let mut roots: Vec<usize> = Vec::new();
        roots.push(y);
        proof {
            assert(ys@ == seq![y]);
            assert(roots@ == seq![y]);
            assert(ys@[0] == y);
        }
        let vars = match collect_variables(self, roots) {
            Ok(vars) => vars,
            Err(released) => {
                return Err(BackwardError::Released { call: released.call, node: released.node });
            },
        };
        let mut targets: Vec<usize> = Vec::new();
        let mut i: usize = 0;
        while i < vars.len()
            invariant
                i <= vars@.len(),
                self.has_nodes(vars@),
                self.has_nodes(targets@),
                forall|j: int|
                    0 <= j < i && self.nodes()[vars@[j] as int].creator is None
                        ==> targets@.contains(#[trigger] vars@[j]),
                forall|j: int|
                    0 <= j < targets@.len() ==> vars@.contains(#[trigger] targets@[j])
                        && self.nodes()[targets@[j] as int].creator is None,
            decreases vars@.len() - i,
        {
            let v: usize = vars[i];
            assert(self.has_node(vars@[i as int]));
            if self.is_leaf(v) {
                let ghost before = targets@;
                targets.push(v);
                proof {
                    assert(targets@.last() == v);
                    assert forall|j: int|
                        0 <= j < i + 1 && self.nodes()[vars@[j] as int].creator is None
                            implies targets@.contains(#[trigger] vars@[j]) by {
                        crate::seq_lemmas::lemma_push_contains(before, v, vars@[j]);
                    }
                    assert forall|j: int| 0 <= j < targets@.len() implies vars@.contains(
                        #[trigger] targets@[j],
                    ) && self.nodes()[targets@[j] as int].creator is None by {
                        if j < before.len() {
                            assert(targets@[j] == before[j]);
                        } else {
                            assert(targets@[j] == vars@[i as int]);
                        }
                    }
                }
            }
            i += 1;
        }
        let ghost leaves = targets@;
        targets.push(y);
        proof {
            assert forall|j: int| 0 <= j < targets@.len() implies self.has_node(
                #[trigger] targets@[j],
            ) by {
                if j < leaves.len() {
                    assert(targets@[j] == leaves[j]);
                }
            }
            assert(targets@.last() == y);
            assert forall|n: usize|
                targets@.contains(n) <==> n == y || (old(self).has_node(n) && old(
                    self,
                ).nodes()[n as int].creator is None && w.input_reached(seq![y], n)) by {
                crate::seq_lemmas::lemma_push_contains(leaves, y, n);
                if leaves.contains(n) {
                    let t = choose|t: int| 0 <= t < leaves.len() && leaves[t] == n;
                    assert(vars@.contains(leaves[t]));
                    assert(self.has_node(leaves[t]));
                }
                if old(self).has_node(n) && old(self).nodes()[n as int].creator is None
                    && w.input_reached(seq![y], n) {
                    assert(vars@.contains(n));
                    let j = choose|j: int| 0 <= j < vars@.len() && vars@[j] == n;
                    assert(leaves.contains(vars@[j]));
                }
            }
            assert(targets_of(old(self), y, targets@));
        }
        let outcome = try_gradients(self, ys.as_slice(), targets.as_slice(), create_graph);
        let ghost passed = *self;
        proof {
            if let Err(BackwardError::Unreachable { node }) = outcome {
                let calls = choose|calls: Seq<usize>| #[trigger]
                    w.collects(ys@, calls) && gradients_outcome(
                        old(self),
                        self,
                        w.backward_order(calls),
                        ys@,
                        targets@,
                        create_graph,
                        viewed(outcome),
                    );
                let order = w.backward_order(calls)->0;
                let held = w.held(order, ys@.to_set(), targets@.to_set(), order.len());
                w.law_backward_order(calls);
                lemma_first_missing(targets@, held);
                let t = choose|t: int| 0 <= t < targets@.len() && targets@[t] == node;
                if t < leaves.len() {
                    assert(targets@[t] == leaves[t]);
                    assert(vars@.contains(leaves[t]));
                    assert(w.input_reached(seq![y], node));
                    let e = choose|e: usize|
                        #[trigger] w.call_reached(seq![y], e) && w.has_call(e)
                            && w.inputs[e as int].contains(node);
                    assert(calls.contains(e));
                    assert(order.contains(e));
                    let j = choose|j: int| 0 <= j < order.len() && order[j] == e;
                    assert(w.inputs[order[j] as int].contains(node));
                } else {
                    assert(targets@[t] == y);
                    assert(ys@.contains(y));
                }
                assert(targets@.to_set().contains(node));
                w.lemma_target_held(order, ys@.to_set(), targets@.to_set(), order.len(), node);
                assert(false);
            }
        }
        let gxs = match outcome {
            Ok(gxs) => gxs,
            Err(error) => {
                proof {
                    if !(error is Released) {
                        assert(pass_result(Err::<(), BackwardError>(error), Seq::<usize>::empty())
                            == viewed(outcome));
                        assert(backward_ran(
                            old(self),
                            self,
                            &passed,
                            y,
                            targets@,
                            Seq::<usize>::empty(),
                            create_graph,
                            Err::<(), BackwardError>(error),
                        ));
                    }
                }
                return Err(error);
            },
        };
        proof {
            old(self).lemma_extension_keeps_alive(&passed);
            let calls = choose|calls: Seq<usize>| #[trigger]
                w.collects(ys@, calls) && gradients_outcome(
                    old(self),
                    &passed,
                    w.backward_order(calls),
                    ys@,
                    targets@,
                    create_graph,
                    viewed(outcome),
                );
            let order = w.backward_order(calls)->0;
            let (seeded, seeds, swept, table) = choose|
                seeded: Graph<V, U, K>,
                seeds: Map<usize, usize>,
                swept: Graph<V, U, K>,
                table: Map<usize, usize>,
            | #[trigger]
                pass_found(
                    old(self),
                    &passed,
                    &seeded,
                    seeds,
                    &swept,
                    table,
                    order,
                    ys@,
                    targets@,
                    create_graph,
                    gxs@,
                );
            assert forall|a: int, b: int|
                0 <= a < targets@.len() && 0 <= b < targets@.len() && targets@[a]
                    == targets@[b] implies gxs@[a] == gxs@[b] by {
                assert(gxs@[a] == table[targets@[a]]);
                assert(gxs@[b] == table[targets@[b]]);
            }
        }
        let mut k: usize = 0;
        while k < targets.len()
            invariant
                k <= targets@.len(),
                gxs@.len() == targets@.len(),
                self.wf(),
                old(self).extended_by(self),
                passed.extended_by(self),
                self.nodes().len() == passed.nodes().len(),
                self.calls() == passed.calls(),
                passed.has_nodes(targets@),
                passed.has_nodes(gxs@),
                forall|a: int, b: int|
                    0 <= a < targets@.len() && 0 <= b < targets@.len() && targets@[a]
                        == targets@[b] ==> gxs@[a] == gxs@[b],
                forall|j: int|
                    0 <= j < k ==> self.nodes()[#[trigger] targets@[j] as int].gradient == Some(
                        gxs@[j],
                    ),
                forall|n: usize|
                    n < passed.nodes().len() ==> #[trigger] self.nodes()[n as int] == (
                    if targets@.take(k as int).contains(n) {
                        crate::graph::Node {
                            gradient: self.nodes()[n as int].gradient,
                            ..passed.nodes()[n as int]
                        }
                    } else {
                        passed.nodes()[n as int]
                    }),
            decreases targets@.len() - k,
        {
            let ghost before = *self;
            proof {
                passed.lemma_extension_keeps_alive(&before);
                assert(passed.has_node(targets@[k as int]));
                assert(passed.has_node(gxs@[k as int]));
            }
            self.set_gradient(targets[k], gxs[k]);
            proof {
                old(self).lemma_extended_by_transitive(&before, self);
                passed.lemma_extended_by_transitive(&before, self);
                passed.lemma_extension_keeps_alive(self);
                let t = targets@[k as int];
                assert forall|j: int| 0 <= j < k + 1 implies self.nodes()[#[trigger] targets@[j] as int].gradient
                    == Some(gxs@[j]) by {
                    if targets@[j] != t {
                        assert(passed.has_node(targets@[j]));
                        assert(self.nodes()[targets@[j] as int] == before.nodes()[targets@[j] as int]);
                    }
                }
                let shorter = targets@.take(k as int);
                let longer = targets@.take(k + 1);
                assert(longer == shorter.push(t));
                assert forall|n: usize| n < passed.nodes().len() implies #[trigger] self.nodes()[n as int]
                    == (if longer.contains(n) {
                    crate::graph::Node {
                        gradient: self.nodes()[n as int].gradient,
                        ..passed.nodes()[n as int]
                    }
                } else {
                    passed.nodes()[n as int]
                }) by {
                    crate::seq_lemmas::lemma_push_contains(shorter, t, n);
                    if n != t {
                        assert(self.nodes()[n as int] == before.nodes()[n as int]);
                    }
                }
            }
            k += 1;
        }
        proof {
            assert(targets@.take(k as int) == targets@);
            assert(targets@[targets@.len() - 1] == y);
            assert(self.nodes()[targets@[targets@.len() - 1] as int].gradient is Some);
            assert forall|n: usize|
                old(self).has_node(n) && old(self).nodes()[n as int].creator is None && w.input_reached(
                    seq![y],
                    n,
                ) implies (#[trigger] self.nodes()[n as int]).gradient is Some by {
                assert(targets@.contains(n));
                let t = choose|t: int| 0 <= t < targets@.len() && targets@[t] == n;
                assert(self.nodes()[targets@[t] as int].gradient is Some);
            }
            assert(gradients_stored(&passed, self, targets@, gxs@));
            assert(pass_result(Ok::<(), BackwardError>(()), gxs@) == viewed(outcome));
            assert(backward_ran(
                old(self),
                self,
                &passed,
                y,
                targets@,
                gxs@,
                create_graph,
                Ok::<(), BackwardError>(()),
            ));
        }
        Ok(())
    }
}

} // verus!
