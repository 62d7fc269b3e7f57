use vstd::prelude::*;
use std::collections::HashMap;
use crate::functions::add::add_traced;
use crate::graph::{backprop, Graph};
use crate::kernel::{is_add, is_ones, is_shape, Kernel};
use crate::shape::contains;

verus! {

broadcast use vstd::std_specs::hash::group_hash_axioms;

/// The first of `nodes` for which `held` has no gradient.
pub open spec fn first_missing(nodes: Seq<usize>, held: Set<usize>) -> Option<usize>
    decreases nodes.len(),
{
    if nodes.len() == 0 {
        None
    } else if !held.contains(nodes.first()) {
        Some(nodes.first())
    } else {
        first_missing(nodes.drop_first(), held)
    }
}

/// Nothing is missing exactly when every node is held.
pub proof fn lemma_first_missing(nodes: Seq<usize>, held: Set<usize>)
    ensures
        first_missing(nodes, held) is None <==> forall|i: int|
            0 <= i < nodes.len() ==> held.contains(#[trigger] nodes[i]),
        first_missing(nodes, held) matches Some(n) ==> nodes.contains(n) && !held.contains(n),
    decreases nodes.len(),
{
    if nodes.len() > 0 {
        let rest = nodes.drop_first();
        lemma_first_missing(rest, held);
        if held.contains(nodes.first()) {
            if first_missing(rest, held) is None {
                assert forall|i: int| 0 <= i < nodes.len() implies held.contains(
                    #[trigger] nodes[i],
                ) by {
                    if i > 0 {
                        assert(rest[i - 1] == nodes[i]);
                    }
                }
            } else {
                let n = first_missing(rest, held)->0;
                let j = choose|j: int| 0 <= j < rest.len() && rest[j] == n;
                assert(nodes[j + 1] == n);
            }
            if forall|i: int| 0 <= i < nodes.len() ==> held.contains(#[trigger] nodes[i]) {
                assert forall|i: int| 0 <= i < rest.len() implies held.contains(
                    #[trigger] rest[i],
                ) by {
                    assert(rest[i] == nodes[i + 1]);
                }
            }
        } else {
            assert(nodes[0] == nodes.first());
        }
    }
}

/// The number of contributions for `xs` that meet a gradient that is
/// already there: one held before, or one contributed for the same node
/// earlier in `xs`.
pub open spec fn merges(held: Set<usize>, xs: Seq<usize>) -> nat
    decreases xs.len(),
{
    if xs.len() == 0 {
        0
    } else {
        merges(held, xs.drop_last()) + if held.contains(xs.last()) || xs.drop_last().contains(
            xs.last(),
        ) {
            1nat
        } else {
            0nat
        }
    }
}

/// The table of accumulated gradients after the contributions `gxs` for
/// the nodes `xs` have gone in, one after the other: the first for a node
/// is stored as it is; each later one is added to what is stored, and the
/// sum, a new node, is stored in its place. The new nodes are numbered
/// from `first` on.
pub open spec fn merged(
    table: Map<usize, usize>,
    xs: Seq<usize>,
    gxs: Seq<usize>,
    first: nat,
) -> Map<usize, usize>
    decreases xs.len(),
{
    if xs.len() == 0 {
        table
    } else {
        let before = merged(table, xs.drop_last(), gxs.drop_last(), first);
        if before.contains_key(xs.last()) {
            before.insert(xs.last(), (first + merges(table.dom(), xs.drop_last())) as usize)
        } else {
            before.insert(xs.last(), gxs.last())
        }
    }
}

/// After merging, a gradient is stored for what had one before and for
/// every node that got a contribution.
pub proof fn lemma_merged_dom(
    table: Map<usize, usize>,
    xs: Seq<usize>,
    gxs: Seq<usize>,
    first: nat,
)
    ensures
        merged(table, xs, gxs, first).dom() =~= table.dom().union(xs.to_set()),
    decreases xs.len(),
{
    if xs.len() > 0 {
        let head = xs.drop_last();
        lemma_merged_dom(table, head, gxs.drop_last(), first);
        assert forall|x: usize| xs.contains(x) <==> head.contains(x) || x == xs.last() by {
            assert(xs == head.push(xs.last()));
            crate::seq_lemmas::lemma_push_contains(head, xs.last(), x);
        }
    }
}

/// The additions that merging asks for, in order: for each contribution
/// that meets a stored gradient, the stored gradient and the
/// contribution.
pub open spec fn summands(
    table: Map<usize, usize>,
    xs: Seq<usize>,
    gxs: Seq<usize>,
    first: nat,
) -> Seq<(usize, usize)>
    decreases xs.len(),
{
    if xs.len() == 0 {
        Seq::empty()
    } else {
        let before = merged(table, xs.drop_last(), gxs.drop_last(), first);
        let head = summands(table, xs.drop_last(), gxs.drop_last(), first);
        if before.contains_key(xs.last()) {
            head.push((before[xs.last()], gxs.last()))
        } else {
            head
        }
    }
}

/// There is one addition for each contribution that meets a stored
/// gradient.
pub proof fn lemma_summands_len(
    table: Map<usize, usize>,
    xs: Seq<usize>,
    gxs: Seq<usize>,
    first: nat,
)
    ensures
        summands(table, xs, gxs, first).len() == merges(table.dom(), xs),
    decreases xs.len(),
{
    if xs.len() > 0 {
        lemma_summands_len(table, xs.drop_last(), gxs.drop_last(), first);
        lemma_merged_dom(table, xs.drop_last(), gxs.drop_last(), first);
    }
}

/// A node that gets two contributions in a row, and had no gradient
/// before, ends up with their sum: one addition of the first and the
/// second, stored in one new node.
pub proof fn law_repeated_input_is_summed(
    table: Map<usize, usize>,
    x: usize,
    g1: usize,
    g2: usize,
    first: usize,
)
    requires
        !table.contains_key(x),
    ensures
        merged(table, seq![x, x], seq![g1, g2], first as nat) == table.insert(x, first),
        summands(table, seq![x, x], seq![g1, g2], first as nat) == seq![(g1, g2)],
        merges(table.dom(), seq![x, x]) == 1,
{
    let xs = seq![x, x];
    let gxs = seq![g1, g2];
    let none = Seq::<usize>::empty();
    let start = first as nat;
    assert(xs.drop_last() == seq![x]);
    assert(gxs.drop_last() == seq![g1]);
    assert(seq![x].drop_last() == none);
    assert(seq![g1].drop_last() == none);
    assert(seq![x].last() == x);
    assert(seq![g1].last() == g1);
    assert(xs.last() == x);
    assert(gxs.last() == g2);
    assert(merged(table, none, none, start) == table);
    assert(summands(table, none, none, start) == Seq::<(usize, usize)>::empty());
    assert(merges(table.dom(), none) == 0);
    assert(!none.contains(x));
    let once = merged(table, seq![x], seq![g1], start);
    assert(once == table.insert(x, g1));
    assert(merges(table.dom(), seq![x]) == 0);
    assert(summands(table, seq![x], seq![g1], start) == Seq::<(usize, usize)>::empty());
    assert(seq![x].contains(x)) by {
        assert(seq![x][0] == x);
    }
    assert(once.contains_key(x));
    assert(merged(table, xs, gxs, start) =~= table.insert(x, first));
    assert(summands(table, xs, gxs, start) =~= seq![(g1, g2)]);
}

/// The node `g` of `after` holds what the kernel may return as the
/// all-ones array of a shape that it may report for the node `y` of
/// `before`.
pub open spec fn is_seed<V, U, K: Kernel<V>>(
    before: &Graph<V, U, K>,
    after: &Graph<V, U, K>,
    y: usize,
    g: usize,
) -> bool {
    exists|shape: Seq<usize>|
        #[trigger] is_shape(before.kernel_view(), before.value_of(y), shape) && is_ones(
            before.kernel_view(),
            shape,
            after.value_of(g),
        )
}

/// The node `sum` of `after` holds what the kernel may return as the sum
/// of the values of the two nodes of `pair`.
pub open spec fn is_sum<V, U, K: Kernel<V>>(
    after: &Graph<V, U, K>,
    pair: (usize, usize),
    sum: int,
) -> bool {
    is_add(
        after.kernel_view(),
        after.value_of(pair.0),
        after.value_of(pair.1),
        after.value_of(sum as usize),
    )
}

/// `table` holds a seed for each of `ys`, and `after` is `before` with
/// these seeds added: each is a new node that holds the all-ones array of
/// the shape of its output, a leaf unless `create_graph` is set.
pub open spec fn seeded_with<V, U, K: Kernel<V>>(
    before: &Graph<V, U, K>,
    after: &Graph<V, U, K>,
    table: Map<usize, usize>,
    ys: Seq<usize>,
    create_graph: bool,
) -> bool {
    &&& after.wf()
    &&& before.extended_by(after)
    &&& before.kept_but(after, Set::empty())
    &&& table.dom() =~= ys.to_set()
    &&& forall|y: usize| #[trigger]
        table.contains_key(y) ==> {
            &&& before.nodes().len() <= table[y]
            &&& after.has_node(table[y])
            &&& after.nodes()[table[y] as int].creator is None <==> !create_graph
            &&& is_seed(before, after, y, table[y])
        }
}

/// An all-ones gradient for each of `ys`: a new node with the shape of
/// the output, stored as the gradient accumulated for it. With
/// `create_graph` each seed is marked as a traced root, so that it can be
/// differentiated again; otherwise it is a plain leaf.
pub fn seed<V, U, K: Kernel<V>>(graph: &mut Graph<V, U, K>, ys: &[usize], create_graph: bool) -> (table:
    HashMap<usize, usize>)
    requires
        old(graph).wf(),
        old(graph).has_nodes(ys@),
    ensures
        final(graph).wf(),
        old(graph).extended_by(final(graph)),
        table@.dom() =~= ys@.to_set(),
        forall|y: usize| #[trigger]
            table@.contains_key(y) ==> old(graph).nodes().len() <= table@[y] && final(graph).has_node(table@[y]),
        forall|y: usize| #[trigger]
            table@.contains_key(y) ==> (final(graph).nodes()[table@[y] as int].creator is None
                <==> !create_graph),
        forall|y: usize| #[trigger]
            table@.contains_key(y) ==> is_seed(old(graph), final(graph), y, table@[y]),
        forall|n: int|
            0 <= n < old(graph).nodes().len() ==> #[trigger] final(graph).nodes()[n] == old(
                graph,
            ).nodes()[n],
        old(graph).kept_but(final(graph), Set::empty()),
        seeded_with(old(graph), final(graph), table@, ys@, create_graph),
{
    let mut table: HashMap<usize, usize> = HashMap::new();
    let mut i: usize = 0;
    while i < ys.len()
        invariant
            i <= ys@.len(),
            graph.wf(),
            old(graph).extended_by(graph),
            old(graph).has_nodes(ys@),
            table@.dom() =~= ys@.take(i as int).to_set(),
            forall|y: usize| #[trigger]
                table@.contains_key(y) ==> old(graph).nodes().len() <= table@[y] && graph.has_node(
                    table@[y],
                ),
            forall|y: usize| #[trigger]
                table@.contains_key(y) ==> (graph.nodes()[table@[y] as int].creator is None
                    <==> !create_graph),
            forall|y: usize| #[trigger]
                table@.contains_key(y) ==> is_seed(old(graph), graph, y, table@[y]),
            forall|n: int|
                0 <= n < old(graph).nodes().len() ==> #[trigger] graph.nodes()[n] == old(
                    graph,
                ).nodes()[n],
            old(graph).kept_but(graph, Set::empty()),
        decreases ys@.len() - i,
    {
        let y: usize = ys[i];
        assert(old(graph).has_node(ys@[i as int]));
        let shape = graph.shape(y);
        let ones = graph.kernel().ones(&shape);
        let ghost before = *graph;
        let ghost stored_before = table@;
        proof {
            assert(before.value_of(y) == old(graph).value_of(y)) by {
                assert(before.nodes()[y as int] == old(graph).nodes()[y as int]);
            }
            assert(is_ones(old(graph).kernel_view(), shape@, ones));
        }
        let g: usize = if create_graph {
            backprop(graph, ones)
        } else {
            graph.new_node(ones)
        };
        table.insert(y, g);
        proof {
            old(graph).lemma_extended_by_transitive(&before, graph);
            let shorter = ys@.take(i as int);
            let longer = ys@.take(i + 1);
            assert(longer == shorter.push(y));
            assert forall|x: usize| longer.contains(x) <==> shorter.contains(x) || x == y by {
                crate::seq_lemmas::lemma_push_contains(shorter, y, x);
            }
            assert forall|n: int| 0 <= n < before.nodes().len() implies #[trigger] graph.nodes()[n]
                == before.nodes()[n] by {
                assert(graph.nodes()[n] == before.nodes().push(graph.nodes()[g as int])[n]);
            }
            assert(before.kept_but(graph, Set::empty())) by {
                assert forall|n: usize| n < before.nodes().len() implies #[trigger] graph.nodes()[n as int]
                    == before.nodes()[n as int] by {
                    assert(graph.nodes()[n as int] == before.nodes()[n as int]);
                }
            }
            old(graph).lemma_kept_but_transitive(&before, graph, Set::empty(), Set::empty());
            assert(graph.value_of(g) == ones);
            assert forall|x: usize| #[trigger] table@.contains_key(x) implies is_seed(
                old(graph),
                graph,
                x,
                table@[x],
            ) by {
                if x == y {
                    assert(is_shape(old(graph).kernel_view(), old(graph).value_of(y), shape@));
                } else {
                    assert(stored_before.contains_key(x));
                    let kept = stored_before[x];
                    assert(is_seed(old(graph), &before, x, kept));
                    assert(before.has_node(kept));
                    assert(graph.nodes()[kept as int].value == before.nodes()[kept as int].value);
                }
            }
        }
        i += 1;
    }
    proof {
        assert(ys@.take(i as int) == ys@);
    }
    table
}

/// The gradients accumulated for `ys`, by position, or the first of `ys`
/// for which none is stored.
pub fn gather(table: &HashMap<usize, usize>, ys: &[usize]) -> (gys: Result<Vec<usize>, usize>)
    ensures
        match gys {
            Ok(gys) => {
                &&& first_missing(ys@, table@.dom()) is None
                &&& gys@.len() == ys@.len()
                &&& forall|i: int|
                    0 <= i < ys@.len() ==> table@.contains_key(#[trigger] ys@[i]) && gys@[i]
                        == table@[ys@[i]]
            },
            Err(node) => first_missing(ys@, table@.dom()) == Some(node),
        },
{
    let mut gys: Vec<usize> = Vec::new();
    let mut i: usize = 0;
    assert(ys@.skip(0) == ys@);
    while i < ys.len()
        invariant
            i <= ys@.len(),
            gys@.len() == i,
            first_missing(ys@, table@.dom()) == first_missing(ys@.skip(i as int), table@.dom()),
            forall|j: int|
                0 <= j < i ==> table@.contains_key(#[trigger] ys@[j]) && gys@[j] == table@[ys@[j]],
        decreases ys@.len() - i,
    {
        let y: usize = ys[i];
        proof {
            assert(ys@.skip(i as int).first() == y);
            assert(ys@.skip(i as int).drop_first() == ys@.skip(i + 1));
        }
        match table.get(&y) {
            Some(g) => {
                gys.push(*g);
            },
            None => {
                return Err(y);
            },
        }
        i += 1;
    }
    Ok(gys)
}

/// Merges the gradients `gxs`, one for each of the inputs `xs` of a call,
/// into the table of accumulated gradients. The first contribution for a
/// node is stored as it is. A later one is added elementwise to what is
/// stored, and the sum takes its place; with `create_graph` the addition
/// is itself recorded, otherwise the sum is a leaf.
pub fn accumulate<V, U, K: Kernel<V>>(
    graph: &mut Graph<V, U, K>,
    table: &mut HashMap<usize, usize>,
    xs: &[usize],
    gxs: &[usize],
    create_graph: bool,
)
    requires
        old(graph).wf(),
        old(graph).has_nodes(gxs@),
        gxs@.len() == xs@.len(),
        forall|x: usize| #[trigger]
            old(table)@.contains_key(x) ==> old(graph).has_node(old(table)@[x]),
    ensures
        final(graph).wf(),
        old(graph).extended_by(final(graph)),
        final(table)@ == merged(old(table)@, xs@, gxs@, old(graph).nodes().len()),
        final(table)@.dom() =~= old(table)@.dom().union(xs@.to_set()),
        final(graph).nodes().len() == old(graph).nodes().len() + merges(old(table)@.dom(), xs@),
        forall|x: usize| #[trigger]
            final(table)@.contains_key(x) ==> final(graph).has_node(final(table)@[x]),
        forall|n: int|
            0 <= n < old(graph).nodes().len() ==> #[trigger] final(graph).nodes()[n] == old(
                graph,
            ).nodes()[n],
        forall|n: int|
            old(graph).nodes().len() <= n < final(graph).nodes().len() ==> ((
            #[trigger] final(graph).nodes()[n]).creator is None <==> !create_graph),
        old(graph).kept_but(final(graph), Set::empty()),
        forall|x: usize| #[trigger]
            final(table)@.contains_key(x) ==> {
                ||| old(table)@.contains_key(x) && final(table)@[x] == old(table)@[x]
                ||| gxs@.contains(final(table)@[x])
                ||| final(table)@[x] >= old(graph).nodes().len()
            },
        !create_graph ==> final(graph).calls() == old(graph).calls(),
        create_graph ==> final(graph).calls().len() == old(graph).calls().len() + merges(
            old(table)@.dom(),
            xs@,
        ),
        forall|j: int|
            0 <= j < merges(old(table)@.dom(), xs@) ==> is_sum(
                final(graph),
                #[trigger] summands(old(table)@, xs@, gxs@, old(graph).nodes().len())[j],
                old(graph).nodes().len() + j,
            ),
        create_graph ==> forall|j: int|
            0 <= j < merges(old(table)@.dom(), xs@) ==> {
                let sum = #[trigger] final(graph).calls()[old(graph).calls().len() + j];
                let pair = summands(old(table)@, xs@, gxs@, old(graph).nodes().len())[j];
                &&& sum.backward is Add
                &&& sum.xs@ == seq![pair.0, pair.1]
                &&& sum.ys@ == seq![(old(graph).nodes().len() + j) as usize]
            },
{
    let ghost first = old(graph).nodes().len();
    let ghost start = old(table)@;
    let mut i: usize = 0;
    while i < xs.len()
        invariant
            i <= xs@.len(),
            gxs@.len() == xs@.len(),
            graph.wf(),
            old(graph).extended_by(graph),
            old(graph).has_nodes(gxs@),
            first == old(graph).nodes().len(),
            start == old(table)@,
            table@ == merged(start, xs@.take(i as int), gxs@.take(i as int), first),
            graph.nodes().len() == first + merges(start.dom(), xs@.take(i as int)),
            forall|x: usize| #[trigger] table@.contains_key(x) ==> graph.has_node(table@[x]),
            forall|n: int|
                0 <= n < first ==> #[trigger] graph.nodes()[n] == old(graph).nodes()[n],
            forall|n: int|
                first <= n < graph.nodes().len() ==> ((#[trigger] graph.nodes()[n]).creator is None
                    <==> !create_graph),
            old(graph).kept_but(graph, Set::empty()),
            forall|x: usize| #[trigger]
                table@.contains_key(x) ==> {
                    ||| start.contains_key(x) && table@[x] == start[x]
                    ||| gxs@.contains(table@[x])
                    ||| table@[x] >= first
                },
            !create_graph ==> graph.calls() == old(graph).calls(),
            create_graph ==> graph.calls().len() == old(graph).calls().len() + merges(
                start.dom(),
                xs@.take(i as int),
            ),
            forall|j: int|
                0 <= j < merges(start.dom(), xs@.take(i as int)) ==> is_sum(
                    graph,
                    #[trigger] summands(start, xs@.take(i as int), gxs@.take(i as int), first)[j],
                    first + j,
                ),
            forall|j: int|
                0 <= j < merges(start.dom(), xs@.take(i as int)) ==> {
                    let pair = #[trigger] summands(
                        start,
                        xs@.take(i as int),
                        gxs@.take(i as int),
                        first,
                    )[j];
                    pair.0 < first + j && pair.1 < first + j
                },
            create_graph ==> forall|j: int|
                0 <= j < merges(start.dom(), xs@.take(i as int)) ==> {
                    let sum = #[trigger] graph.calls()[old(graph).calls().len() + j];
                    let pair = summands(start, xs@.take(i as int), gxs@.take(i as int), first)[j];
                    &&& sum.backward is Add
                    &&& sum.xs@ == seq![pair.0, pair.1]
                    &&& sum.ys@ == seq![(first + j) as usize]
                },
        decreases xs@.len() - i,
    {
        let x: usize = xs[i];
        let gx: usize = gxs[i];
        proof {
            assert(old(graph).has_node(gxs@[i as int]));
            assert(xs@.take(i + 1).drop_last() == xs@.take(i as int));
            assert(gxs@.take(i + 1).drop_last() == gxs@.take(i as int));
            assert(xs@.take(i + 1).last() == x);
            assert(gxs@.take(i + 1).last() == gx);
            lemma_merged_dom(start, xs@.take(i as int), gxs@.take(i as int), first);
            lemma_summands_len(start, xs@.take(i as int), gxs@.take(i as int), first);
            lemma_summands_len(start, xs@.take(i + 1), gxs@.take(i + 1), first);
        }
        let ghost so_far = merges(start.dom(), xs@.take(i as int));
        let stored: Option<usize> = match table.get(&x) {
            Some(g) => Some(*g),
            None => None,
        };
        match stored {
            Some(g) => {
                let ghost before = *graph;
                let sum = add_traced(graph, g, gx, create_graph);
                table.insert(x, sum);
                proof {
                    old(graph).lemma_extended_by_transitive(&before, graph);
                    crate::functions::lemma_applied_keeps(
                        &before,
                        graph,
                        seq![g, gx],
                        sum,
                        create_graph,
                    );
                    old(graph).lemma_kept_but_transitive(
                        &before,
                        graph,
                        Set::empty(),
                        Set::empty(),
                    );
                    let earlier = summands(start, xs@.take(i as int), gxs@.take(i as int), first);
                    let now = summands(start, xs@.take(i + 1), gxs@.take(i + 1), first);
                    assert(now == earlier.push((g, gx)));
                    assert forall|j: int| 0 <= j < so_far + 1 implies {
                        let pair = #[trigger] now[j];
                        pair.0 < first + j && pair.1 < first + j
                    } by {
                        if j < so_far {
                            assert(now[j] == earlier[j]);
                        }
                    }
                    assert forall|j: int| 0 <= j < so_far + 1 implies is_sum(
                        graph,
                        #[trigger] now[j],
                        first + j,
                    ) by {
                        if j < so_far {
                            assert(now[j] == earlier[j]);
                            assert(is_sum(&before, earlier[j], first + j));
                            assert(graph.nodes()[earlier[j].0 as int] == before.nodes()[earlier[j].0 as int]);
                            assert(graph.nodes()[earlier[j].1 as int] == before.nodes()[earlier[j].1 as int]);
                            assert(graph.nodes()[first + j] == before.nodes()[first + j]);
                        } else {
                            assert(graph.nodes()[g as int] == before.nodes()[g as int]);
                            assert(graph.nodes()[gx as int] == before.nodes()[gx as int]);
                        }
                    }
                    if create_graph {
                        assert forall|j: int| 0 <= j < so_far + 1 implies {
                            let sum = #[trigger] graph.calls()[old(graph).calls().len() + j];
                            let pair = summands(start, xs@.take(i + 1), gxs@.take(i + 1), first)[j];
                            &&& sum.backward is Add
                            &&& sum.xs@ == seq![pair.0, pair.1]
                            &&& sum.ys@ == seq![(first + j) as usize]
                        } by {
                            if j < so_far {
                                assert(graph.calls()[old(graph).calls().len() + j]
                                    == before.calls()[old(graph).calls().len() + j]);
                            } else {
                                assert(graph.calls()[old(graph).calls().len() + j]
                                    == graph.calls().last());
                            }
                        }
                    }
                }
            },
            None => {
                table.insert(x, gx);
                proof {
                    assert(gxs@.contains(gx));
                }
            },
        }
        i += 1;
    }
    proof {
        assert(xs@.take(i as int) == xs@);
        assert(gxs@.take(i as int) == gxs@);
        lemma_merged_dom(start, xs@, gxs@, first);
    }
}

/// Drops from the table the gradients of the outputs `ys` of a call that
/// has been processed, except those of the `targets`.
pub fn release(table: &mut HashMap<usize, usize>, ys: &[usize], targets: &[usize])
    ensures
        final(table)@ == old(table)@.remove_keys(ys@.to_set().difference(targets@.to_set())),
{
    let mut i: usize = 0;
    while i < ys.len()
        invariant
            i <= ys@.len(),
            table@ =~= old(table)@.remove_keys(
                ys@.take(i as int).to_set().difference(targets@.to_set()),
            ),
        decreases ys@.len() - i,
    {
        let y: usize = ys[i];
        let ghost before = table@;
        if !contains(targets, y) {
            table.remove(&y);
        }
        proof {
            let shorter = ys@.take(i as int);
            let longer = ys@.take(i + 1);
            assert(longer == shorter.push(y));
            assert forall|x: usize| longer.contains(x) <==> shorter.contains(x) || x == y by {
                crate::seq_lemmas::lemma_push_contains(shorter, y, x);
            }
            assert(table@ =~= old(table)@.remove_keys(
                longer.to_set().difference(targets@.to_set()),
            ));
        }
        i += 1;
    }
    proof {
        assert(ys@.take(i as int) == ys@);
    }
}

/// The nodes that the table holds as gradients.
pub open spec fn stored(table: Map<usize, usize>) -> Set<usize> {
    Set::new(|g: usize| exists|x: usize| #[trigger] table.contains_key(x) && table[x] == g)
}

} // verus!
