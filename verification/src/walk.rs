use vstd::prelude::*;
use crate::graph::{Graph, Wiring};

verus! {

impl Wiring {
    /// `n` is the handle of a node.
    pub open spec fn has_node(&self, n: usize) -> bool {
        n < self.creators.len()
    }

    /// `e` is the handle of a recorded call.
    pub open spec fn has_call(&self, e: usize) -> bool {
        e < self.inputs.len() && e < self.outputs.len()
    }

    /// A walk may go from `a` to `b`: `b` is an input or an output of the
    /// call that created `a`.
    pub open spec fn step(&self, a: usize, b: usize) -> bool {
        &&& self.has_node(a)
        &&& self.creators[a as int] matches Some(e)
        &&& self.has_call(e)
        &&& (self.inputs[e as int].contains(b) || self.outputs[e as int].contains(b))
    }

    /// `n` can be reached from one of `roots` in at most `k` steps.
    pub open spec fn reaches_within(&self, roots: Seq<usize>, n: usize, k: nat) -> bool
        decreases k,
    {
        if k == 0 {
            roots.contains(n)
        } else {
            ||| self.reaches_within(roots, n, (k - 1) as nat)
            ||| exists|m: usize|
                self.reaches_within(roots, m, (k - 1) as nat) && #[trigger] self.step(m, n)
        }
    }

    /// `n` can be reached from one of `roots` by following creators to
    /// their inputs and outputs.
    pub open spec fn reaches(&self, roots: Seq<usize>, n: usize) -> bool {
        exists|k: nat| self.reaches_within(roots, n, k)
    }

    /// The call `e` created a node that can be reached from `roots`.
    pub open spec fn call_reached(&self, roots: Seq<usize>, e: usize) -> bool {
        exists|n: usize|
            self.has_node(n) && #[trigger] self.reaches(roots, n) && self.creators[n as int]
                == Some(e)
    }

    /// The node `n` is read by a call that `roots` reach.
    pub open spec fn input_reached(&self, roots: Seq<usize>, n: usize) -> bool {
        exists|e: usize|
            #[trigger] self.call_reached(roots, e) && self.has_call(e) && self.inputs[e as int].contains(n)
    }

    /// Every root is reached.
    pub proof fn lemma_root_reaches(&self, roots: Seq<usize>, i: int)
        requires
            0 <= i < roots.len(),
        ensures
            self.reaches(roots, roots[i]),
    {
        assert(self.reaches_within(roots, roots[i], 0));
    }

    /// What is one step away from a reached node is reached.
    pub proof fn lemma_reaches_step(&self, roots: Seq<usize>, a: usize, b: usize)
        requires
            self.reaches(roots, a),
            self.step(a, b),
        ensures
            self.reaches(roots, b),
    {
        let k = choose|k: nat| self.reaches_within(roots, a, k);
        assert(self.reaches_within(roots, b, k + 1));
    }
}

/// The number of entries of `marks` that are not set.
pub open spec fn count_unset(marks: Seq<bool>) -> nat
    decreases marks.len(),
{
    if marks.len() == 0 {
        0
    } else {
        count_unset(marks.drop_last()) + if marks.last() {
            0nat
        } else {
            1nat
        }
    }
}

/// Setting an entry that was not set leaves one fewer unset.
pub proof fn lemma_count_unset_update(marks: Seq<bool>, i: int)
    requires
        0 <= i < marks.len(),
        !marks[i],
    ensures
        count_unset(marks.update(i, true)) + 1 == count_unset(marks),
    decreases marks.len(),
{
    let after = marks.update(i, true);
    if i == marks.len() - 1 {
        assert(after.drop_last() == marks.drop_last());
    } else {
        lemma_count_unset_update(marks.drop_last(), i);
        assert(after.drop_last() == marks.drop_last().update(i, true));
    }
}

/// Once the walk has nothing left to visit, every reachable node is
/// closed.
proof fn lemma_closed_is_closure(
    w: Wiring,
    roots: Seq<usize>,
    closed: Seq<bool>,
    v: usize,
    k: nat,
)
    requires
        closed.len() == w.creators.len(),
        forall|i: int| 0 <= i < roots.len() ==> roots[i] < closed.len() && closed[roots[i] as int],
        forall|a: usize, b: usize|
            a < closed.len() && closed[a as int] && #[trigger] w.step(a, b) ==> b < closed.len()
                && closed[b as int],
        w.reaches_within(roots, v, k),
    ensures
        v < closed.len() && closed[v as int],
    decreases k,
{
    if k == 0 {
        let i = choose|i: int| 0 <= i < roots.len() && roots[i] == v;
    } else if w.reaches_within(roots, v, (k - 1) as nat) {
        lemma_closed_is_closure(w, roots, closed, v, (k - 1) as nat);
    } else {
        let m = choose|m: usize|
            w.reaches_within(roots, m, (k - 1) as nat) && #[trigger] w.step(m, v);
        lemma_closed_is_closure(w, roots, closed, m, (k - 1) as nat);
    }
}

/// Appends `items` to `stack`.
pub fn push_all(stack: &mut Vec<usize>, items: &Vec<usize>)
    ensures
        final(stack)@ == old(stack)@ + items@,
{
    let mut i: usize = 0;
    while i < items.len()
        invariant
            i <= items@.len(),
            stack@ == old(stack)@ + items@.take(i as int),
        decreases items@.len() - i,
    {
        stack.push(items[i]);
        i += 1;
        assert(items@.take(i as int) == items@.take(i - 1).push(items@[i - 1]));
    }
    assert(items@.take(i as int) == items@);
}

impl Wiring {
    /// No call that `roots` reach has lost an output: every node that a
    /// walk from `roots` meets still lives.
    pub open spec fn intact(&self, roots: Seq<usize>) -> bool {
        forall|e: usize, i: int|
            self.call_reached(roots, e) && self.has_call(e) && 0 <= i < self.outputs[e as int].len()
                ==> self.alive[#[trigger] self.outputs[e as int][i] as int]
    }
}

/// Why a walk of the graph stopped: the call `call` is still in use, but
/// its output `node` has been released.
#[derive(Debug, Clone, Copy, PartialEq, Eq)]
pub struct Released {
    pub call: usize,
    pub node: usize,
}

/// The first of `nodes` that has been released.
fn first_released<V, U, K>(graph: &Graph<V, U, K>, nodes: &Vec<usize>) -> (found: Option<usize>)
    ensures
        match found {
            Some(node) => nodes@.contains(node) && !graph.has_node(node),
            None => graph.has_nodes(nodes@),
        },
{
    let mut i: usize = 0;
    while i < nodes.len()
        invariant
            i <= nodes@.len(),
            forall|j: int| 0 <= j < i ==> graph.has_node(#[trigger] nodes@[j]),
        decreases nodes@.len() - i,
    {
        if !graph.is_alive(nodes[i]) {
            assert(nodes@[i as int] == nodes[i as int]);
            return Some(nodes[i]);
        }
        i += 1;
    }
    None
}

/// The calls that can be reached backward from `vars`: the creators of
/// `vars`, the creators of their inputs and outputs, and so on. Each call
/// is listed once.
///
/// The walk fails where it meets a call that is still in use while one
/// of its outputs has been released.
pub fn collect_function_calls<V, U, K>(graph: &Graph<V, U, K>, vars: Vec<usize>) -> (calls: Result<
    Vec<usize>,
    Released,
>)
    requires
        graph.wf(),
        graph.has_nodes(vars@),
    ensures
        match calls {
            Ok(calls) => {
                &&& calls@.no_duplicates()
                &&& graph.calls_alive(calls@)
                &&& forall|e: usize| calls@.contains(e) <==> graph.wiring().call_reached(vars@, e)
                &&& graph.wiring().intact(vars@)
                &&& forall|n: usize| graph.wiring().reaches(vars@, n) ==> graph.has_node(n)
            },
            Err(released) => {
                &&& graph.wiring().call_reached(vars@, released.call)
                &&& graph.has_call(released.call)
                &&& graph.calls()[released.call as int].ys@.contains(released.node)
                &&& !graph.has_node(released.node)
            },
        },
{
    let ghost w = graph.wiring();
    let ghost roots = vars@;
    let n: usize = graph.node_count();
    let m: usize = graph.call_count();
    let mut stack = vars;
    let mut closed: Vec<bool> = vec![false; n];
    let mut taken: Vec<bool> = vec![false; m];
    let mut calls: Vec<usize> = Vec::new();
    let ghost mut unvisited: nat = count_unset(closed@);
    proof {
        assert forall|i: int| 0 <= i < stack@.len() implies graph.has_node(stack@[i]) && w.reaches(
            roots,
            stack@[i],
        ) by {
            w.lemma_root_reaches(roots, i);
        }
    }
    while stack.len() > 0
        invariant
            graph.wf(),
            w == graph.wiring(),
            roots == vars@,
            n == graph.nodes().len(),
            m == graph.calls().len(),
            closed@.len() == n,
            taken@.len() == m,
            forall|i: int|
                0 <= i < stack@.len() ==> graph.has_node(stack@[i]) && w.reaches(roots, stack@[i]),
            forall|v: usize|
                v < n && #[trigger] closed@[v as int] ==> graph.has_node(v) && w.reaches(roots, v),
            forall|i: int|
                0 <= i < roots.len() ==> roots[i] < n && (closed@[#[trigger] roots[i] as int]
                    || stack@.contains(roots[i])),
            forall|a: usize, b: usize|
                a < n && closed@[a as int] && #[trigger] w.step(a, b) ==> b < n && (closed@[b as int]
                    || stack@.contains(b)),
            calls@.no_duplicates(),
            forall|i: int| 0 <= i < calls@.len() ==> graph.call_alive(#[trigger] calls@[i]),
            forall|e: usize| e < m ==> (#[trigger] taken@[e as int] <==> calls@.contains(e)),
            forall|e: usize| e < m && #[trigger] taken@[e as int] ==> w.call_reached(roots, e),
            forall|v: usize|
                v < n && #[trigger] closed@[v as int] ==> (w.creators[v as int] matches Some(e)
                    ==> e < m && taken@[e as int]),
            unvisited == count_unset(closed@),
        decreases unvisited, stack@.len(),
    {
        let ghost stack_before = stack@;
        let var: usize = stack.pop().unwrap();
        proof {
            assert(stack_before[stack_before.len() - 1] == var);
            assert forall|b: usize| b != var && stack_before.contains(b) implies stack@.contains(
                b,
            ) by {
                let k = choose|k: int| 0 <= k < stack_before.len() && stack_before[k] == b;
                assert(stack@[k] == b);
            }
        }
        if closed[var] {
            continue ;
        }
        match graph.creator(var) {
            Some(e) => {
                proof {
                    assert(graph.node_ok(var as int));
                    assert(graph.call_ok(e as int));
                    assert(w.creators[var as int] == Some(e));
                    assert(w.call_reached(roots, e)) by {
                        assert(w.reaches(roots, var));
                    }
                }
                let call = graph.function_call(e);
                match first_released(graph, &call.ys) {
                    Some(node) => {
                        return Err(Released { call: e, node });
                    },
                    None => {},
                }
                let ghost closed_before = closed@;
                closed.set(var, true);
                proof {
                    lemma_count_unset_update(closed_before, var as int);
                    unvisited = (unvisited - 1) as nat;
                }
                let ghost stack_mid = stack@;
                push_all(&mut stack, &call.xs);
                push_all(&mut stack, &call.ys);
                if !taken[e] {
                    let ghost calls_before = calls@;
                    taken.set(e, true);
                    calls.push(e);
                    proof {
                        assert(calls@.last() == e);
                        assert forall|c: usize| c < m implies (#[trigger] taken@[c as int]
                            <==> calls@.contains(c)) by {
                            if calls_before.contains(c) {
                                let k = choose|k: int|
                                    0 <= k < calls_before.len() && calls_before[k] == c;
                                assert(calls@[k] == c);
                            }
                            if calls@.contains(c) && c != e {
                                let k = choose|k: int| 0 <= k < calls@.len() && calls@[k] == c;
                                assert(calls_before[k] == c);
                            }
                        }
                        assert forall|i: int| 0 <= i < calls@.len() implies graph.call_alive(
                            #[trigger] calls@[i],
                        ) by {
                            if i < calls_before.len() {
                                assert(calls@[i] == calls_before[i]);
                            }
                        }
                    }
                }
                proof {
                    let xs = call.xs@;
                    let ys = call.ys@;
                    assert(stack@ == stack_mid + xs + ys);
                    assert(w.inputs[e as int] == xs);
                    assert(w.outputs[e as int] == ys);
                    assert forall|b: usize| stack_mid.contains(b) implies stack@.contains(b) by {
                        let k = choose|k: int| 0 <= k < stack_mid.len() && stack_mid[k] == b;
                        assert(stack@[k] == b);
                    }
                    assert forall|b: usize| xs.contains(b) implies stack@.contains(b) by {
                        let k = choose|k: int| 0 <= k < xs.len() && xs[k] == b;
                        assert(stack@[stack_mid.len() + k] == b);
                    }
                    assert forall|b: usize| ys.contains(b) implies stack@.contains(b) by {
                        let k = choose|k: int| 0 <= k < ys.len() && ys[k] == b;
                        assert(stack@[stack_mid.len() + xs.len() + k] == b);
                    }
                    assert forall|i: int| 0 <= i < stack@.len() implies graph.has_node(stack@[i])
                        && w.reaches(roots, stack@[i]) by {
                        if i < stack_mid.len() {
                            assert(stack@[i] == stack_before[i]);
                        } else if i < stack_mid.len() + xs.len() {
                            let k = i - stack_mid.len();
                            assert(stack@[i] == xs[k]);
                            assert(xs.contains(xs[k]));
                            assert(w.step(var, xs[k]));
                            w.lemma_reaches_step(roots, var, xs[k]);
                        } else {
                            let k = i - stack_mid.len() - xs.len();
                            assert(stack@[i] == ys[k]);
                            assert(ys.contains(ys[k]));
                            assert(w.step(var, ys[k]));
                            w.lemma_reaches_step(roots, var, ys[k]);
                        }
                    }
                }
            },
            None => {
                let ghost closed_before = closed@;
                closed.set(var, true);
                proof {
                    lemma_count_unset_update(closed_before, var as int);
                    unvisited = (unvisited - 1) as nat;
                    assert(w.creators[var as int] is None);
                }
            },
        }
    }
    proof {
        assert forall|i: int| 0 <= i < roots.len() implies roots[i] < closed@.len()
            && closed@[roots[i] as int] by {
            if stack@.contains(roots[i]) {
                let j = choose|j: int| 0 <= j < stack@.len() && stack@[j] == roots[i];
            }
        }
        assert forall|a: usize, b: usize|
            a < closed@.len() && closed@[a as int] && #[trigger] w.step(a, b) implies b
            < closed@.len() && closed@[b as int] by {
            if stack@.contains(b) {
                let j = choose|j: int| 0 <= j < stack@.len() && stack@[j] == b;
            }
        }
        assert forall|v: usize| w.reaches(roots, v) implies v < n && closed@[v as int] by {
            let k = choose|k: nat| w.reaches_within(roots, v, k);
            lemma_closed_is_closure(w, roots, closed@, v, k);
        }
        assert forall|e: usize| calls@.contains(e) <==> w.call_reached(roots, e) by {
            if calls@.contains(e) {
                let i = choose|i: int| 0 <= i < calls@.len() && calls@[i] == e;
                assert(graph.call_alive(calls@[i]));
                assert(taken@[e as int]);
            }
            if w.call_reached(roots, e) {
                let v = choose|v: usize|
                    w.has_node(v) && #[trigger] w.reaches(roots, v) && w.creators[v as int]
                        == Some(e);
                assert(closed@[v as int]);
                assert(taken@[e as int]);
            }
        }
        assert forall|e: usize, i: int|
            w.call_reached(roots, e) && w.has_call(e) && 0 <= i < w.outputs[e as int].len()
                implies w.alive[#[trigger] w.outputs[e as int][i] as int] by {
            assert(calls@.contains(e));
            let k = choose|k: int| 0 <= k < calls@.len() && calls@[k] == e;
            assert(graph.call_alive(calls@[k]));
            assert(graph.has_node(graph.calls()[e as int].ys@[i]));
        }
    }
    Ok(calls)
}

impl Wiring {
    /// The inputs of the given calls, call after call.
    pub open spec fn inputs_of(&self, calls: Seq<usize>) -> Seq<usize>
        decreases calls.len(),
    {
        if calls.len() == 0 {
            Seq::empty()
        } else {
            self.inputs_of(calls.drop_last()) + self.inputs[calls.last() as int]
        }
    }

    /// A node is among the inputs of the calls exactly when one of the
    /// calls reads it.
    pub proof fn lemma_inputs_of_contains(&self, calls: Seq<usize>, n: usize)
        ensures
            self.inputs_of(calls).contains(n) <==> exists|i: int|
                0 <= i < calls.len() && (#[trigger] self.inputs[calls[i] as int]).contains(n),
        decreases calls.len(),
    {
        if calls.len() > 0 {
            let head = calls.drop_last();
            self.lemma_inputs_of_contains(head, n);
            crate::seq_lemmas::lemma_concat_contains(
                self.inputs_of(head),
                self.inputs[calls.last() as int],
                n,
            );
            if self.inputs_of(head).contains(n) {
                let i = choose|i: int|
                    0 <= i < head.len() && (#[trigger] self.inputs[head[i] as int]).contains(n);
                assert(calls[i] == head[i]);
            }
            if self.inputs[calls.last() as int].contains(n) {
                assert(calls[calls.len() - 1] == calls.last());
            }
            if exists|i: int|
                0 <= i < calls.len() && (#[trigger] self.inputs[calls[i] as int]).contains(n) {
                let i = choose|i: int|
                    0 <= i < calls.len() && (#[trigger] self.inputs[calls[i] as int]).contains(n);
                if i < head.len() {
                    assert(head[i] == calls[i]);
                }
            }
        }
    }

    /// A walk that starts at a leaf goes nowhere.
    pub proof fn lemma_leaf_stays(&self, n: usize, v: usize, k: nat)
        requires
            self.has_node(n) ==> self.creators[n as int] is None,
            self.reaches_within(seq![n], v, k),
        ensures
            v == n,
        decreases k,
    {
        if k == 0 {
            let i = choose|i: int| 0 <= i < seq![n].len() && seq![n][i] == v;
        } else if self.reaches_within(seq![n], v, (k - 1) as nat) {
            self.lemma_leaf_stays(n, v, (k - 1) as nat);
        } else {
            let m = choose|m: usize|
                self.reaches_within(seq![n], m, (k - 1) as nat) && #[trigger] self.step(m, v);
            self.lemma_leaf_stays(n, m, (k - 1) as nat);
        }
    }

    /// A leaf has no history: no call can be reached backward from it, so
    /// a backward pass that starts at a leaf propagates nothing.
    pub proof fn law_leaf_has_no_history(&self, n: usize)
        requires
            self.has_node(n),
            self.creators[n as int] is None,
        ensures
            forall|e: usize| !self.call_reached(seq![n], e),
            forall|calls: Seq<usize>|
                (forall|e: usize| calls.contains(e) <==> self.call_reached(seq![n], e))
                    ==> calls.len() == 0,
    {
        assert forall|e: usize| !self.call_reached(seq![n], e) by {
            if self.call_reached(seq![n], e) {
                let v = choose|v: usize|
                    self.has_node(v) && #[trigger] self.reaches(seq![n], v)
                        && self.creators[v as int] == Some(e);
                let k = choose|k: nat| self.reaches_within(seq![n], v, k);
                self.lemma_leaf_stays(n, v, k);
            }
        }
        assert forall|calls: Seq<usize>|
            (forall|e: usize| calls.contains(e) <==> self.call_reached(seq![n], e))
                implies calls.len() == 0 by {
            if calls.len() > 0 {
                assert(calls.contains(calls[0]));
            }
        }
    }
}

/// `items` without the elements that repeat the element just before
/// them.
pub open spec fn dedup_adjacent(items: Seq<usize>) -> Seq<usize>
    decreases items.len(),
{
    if items.len() <= 1 {
        items
    } else if items[items.len() - 2] == items.last() {
        dedup_adjacent(items.drop_last())
    } else {
        dedup_adjacent(items.drop_last()).push(items.last())
    }
}

/// Dropping adjacent repetitions keeps the last element and loses no
/// element altogether.
pub proof fn lemma_dedup_adjacent(items: Seq<usize>)
    ensures
        items.len() > 0 ==> dedup_adjacent(items).len() > 0 && dedup_adjacent(items).last()
            == items.last(),
        forall|n: usize| dedup_adjacent(items).contains(n) <==> items.contains(n),
    decreases items.len(),
{
    if items.len() > 1 {
        let head = items.drop_last();
        lemma_dedup_adjacent(head);
        assert(items == head.push(items.last()));
        assert forall|n: usize| dedup_adjacent(items).contains(n) <==> items.contains(n) by {
            crate::seq_lemmas::lemma_push_contains(head, items.last(), n);
            crate::seq_lemmas::lemma_push_contains(dedup_adjacent(head), items.last(), n);
            if items[items.len() - 2] == items.last() {
                assert(head.last() == items.last());
                assert(head[head.len() - 1] == items.last());
                assert(head.contains(items.last()));
            }
        }
    }
}

/// Drops the elements that repeat the element just before them.
pub fn dedup(items: &Vec<usize>) -> (out: Vec<usize>)
    ensures
        out@ == dedup_adjacent(items@),
{
    let mut out: Vec<usize> = Vec::new();
    let mut i: usize = 0;
    while i < items.len()
        invariant
            i <= items@.len(),
            out@ == dedup_adjacent(items@.take(i as int)),
        decreases items@.len() - i,
    {
        let item: usize = items[i];
        proof {
            let longer = items@.take(i + 1);
            assert(longer.drop_last() == items@.take(i as int));
            assert(longer.last() == item);
            if i > 0 {
                assert(longer[longer.len() - 2] == items@[i - 1]);
                lemma_dedup_adjacent(items@.take(i as int));
                assert(items@.take(i as int).last() == items@[i - 1]);
            }
        }
        if i == 0 || items[i - 1] != item {
            out.push(item);
        }
        i += 1;
    }
    proof {
        assert(items@.take(i as int) == items@);
    }
    out
}

/// The nodes that the calls reachable backward from `vars` read: the
/// inputs of those calls, call after call, without the elements that
/// repeat the one just before them.
///
/// The walk fails where it meets a call that is still in use while one
/// of its outputs has been released.
pub fn collect_variables<V, U, K>(graph: &Graph<V, U, K>, vars: Vec<usize>) -> (inputs: Result<
    Vec<usize>,
    Released,
>)
    requires
        graph.wf(),
        graph.has_nodes(vars@),
    ensures
        match inputs {
            Ok(inputs) => {
                &&& graph.has_nodes(inputs@)
                &&& graph.wiring().intact(vars@)
                &&& forall|n: usize| inputs@.contains(n) <==> graph.wiring().input_reached(vars@, n)
                &&& exists|calls: Seq<usize>|
                    {
                        &&& calls.no_duplicates()
                        &&& forall|e: usize|
                            calls.contains(e) <==> graph.wiring().call_reached(vars@, e)
                        &&& inputs@ == dedup_adjacent(#[trigger] graph.wiring().inputs_of(calls))
                    }
            },
            Err(released) => {
                &&& graph.wiring().call_reached(vars@, released.call)
                &&& graph.has_call(released.call)
                &&& graph.calls()[released.call as int].ys@.contains(released.node)
                &&& !graph.has_node(released.node)
            },
        },
{
    let ghost w = graph.wiring();
    let ghost roots = vars@;
    let calls = match collect_function_calls(graph, vars) {
        Ok(calls) => calls,
        Err(released) => {
            return Err(released);
        },
    };
    let mut all: Vec<usize> = Vec::new();
    let mut i: usize = 0;
    while i < calls.len()
        invariant
            i <= calls@.len(),
            graph.wf(),
            w == graph.wiring(),
            graph.calls_alive(calls@),
            all@ == w.inputs_of(calls@.take(i as int)),
            graph.has_nodes(all@),
        decreases calls@.len() - i,
    {
        let e: usize = calls[i];
        proof {
            assert(graph.call_alive(calls@[i as int]));
            assert(calls@.take(i + 1).drop_last() == calls@.take(i as int));
            assert(calls@.take(i + 1).last() == e);
        }
        let ghost before = all@;
        push_all(&mut all, &graph.function_call(e).xs);
        proof {
            let xs = graph.calls()[e as int].xs@;
            assert forall|j: int| 0 <= j < all@.len() implies graph.has_node(#[trigger] all@[j]) by {
                if j < before.len() {
                    assert(all@[j] == before[j]);
                } else {
                    assert(all@[j] == xs[j - before.len()]);
                }
            }
        }
        i += 1;
    }
    let inputs = dedup(&all);
    proof {
        assert(calls@.take(i as int) == calls@);
        lemma_dedup_adjacent(all@);
        assert forall|n: usize| inputs@.contains(n) <==> w.input_reached(roots, n) by {
            w.lemma_inputs_of_contains(calls@, n);
            if inputs@.contains(n) {
                let j = choose|j: int|
                    0 <= j < calls@.len() && (#[trigger] w.inputs[calls@[j] as int]).contains(n);
                assert(calls@.contains(calls@[j]));
                assert(graph.call_alive(calls@[j]));
                assert(w.call_reached(roots, calls@[j]));
            }
            if w.input_reached(roots, n) {
                let e = choose|e: usize|
                    #[trigger] w.call_reached(roots, e) && w.has_call(e)
                        && w.inputs[e as int].contains(n);
                assert(calls@.contains(e));
                let j = choose|j: int| 0 <= j < calls@.len() && calls@[j] == e;
                assert(w.inputs[calls@[j] as int].contains(n));
            }
        }
        assert forall|j: int| 0 <= j < inputs@.len() implies graph.has_node(
            #[trigger] inputs@[j],
        ) by {
            assert(inputs@.contains(inputs@[j]));
            assert(all@.contains(inputs@[j]));
            let t = choose|t: int| 0 <= t < all@.len() && all@[t] == inputs@[j];
            assert(graph.has_node(all@[t]));
        }
        assert(inputs@ == dedup_adjacent(w.inputs_of(calls@)));
    }
    Ok(inputs)
}

} // verus!
