use vstd::prelude::*;
use crate::graph::{Graph, Wiring};
use crate::walk::push_all;

verus! {

impl Wiring {
    /// The value of `n` exists once the calls in `done` have run: `n` is a
    /// leaf, or its creator is one of them.
    pub open spec fn available(&self, n: usize, done: Set<usize>) -> bool {
        self.creators[n as int] matches Some(c) ==> done.contains(c)
    }

    /// Every input of the call `e` is available.
    pub open spec fn ready(&self, e: usize, done: Set<usize>) -> bool {
        forall|i: int|
            0 <= i < self.inputs[e as int].len() ==> self.available(
                #[trigger] self.inputs[e as int][i],
                done,
            )
    }

    /// The calls of `pending` that are ready, in the order of `pending`.
    pub open spec fn layer(&self, pending: Seq<usize>, done: Set<usize>) -> Seq<usize>
        decreases pending.len(),
    {
        if pending.len() == 0 {
            Seq::empty()
        } else if self.ready(pending.last(), done) {
            self.layer(pending.drop_last(), done).push(pending.last())
        } else {
            self.layer(pending.drop_last(), done)
        }
    }

    /// The calls of `pending` that are not ready, in the order of
    /// `pending`.
    pub open spec fn rest(&self, pending: Seq<usize>, done: Set<usize>) -> Seq<usize>
        decreases pending.len(),
    {
        if pending.len() == 0 {
            Seq::empty()
        } else if self.ready(pending.last(), done) {
            self.rest(pending.drop_last(), done)
        } else {
            self.rest(pending.drop_last(), done).push(pending.last())
        }
    }

    /// A layer and what it leaves behind make up the whole.
    pub proof fn lemma_layer_rest_len(&self, pending: Seq<usize>, done: Set<usize>)
        ensures
            self.layer(pending, done).len() + self.rest(pending, done).len() == pending.len(),
        decreases pending.len(),
    {
        if pending.len() > 0 {
            self.lemma_layer_rest_len(pending.drop_last(), done);
        }
    }

    /// The calls of `pending` in an order in which each call comes after
    /// the creators of its inputs: layer by layer, each layer holding the
    /// pending calls that are ready once the layers before it have run.
    /// `None` if at some point calls are left and none of them is ready.
    pub open spec fn forward_order(&self, pending: Seq<usize>, done: Set<usize>) -> Option<
        Seq<usize>,
    >
        decreases pending.len(),
    {
        if pending.len() == 0 {
            Some(Seq::empty())
        } else {
            let layer = self.layer(pending, done);
            let rest = self.rest(pending, done);
            if layer.len() == 0 {
                None
            } else {
                proof {
                    self.lemma_layer_rest_len(pending, done);
                }
                match self.forward_order(rest, done.union(layer.to_set())) {
                    Some(tail) => Some(layer + tail),
                    None => None,
                }
            }
        }
    }

    /// The order in which a backward pass processes `calls`: the reverse
    /// of the layered forward order. `None` if the calls cannot be ordered.
    pub open spec fn backward_order(&self, calls: Seq<usize>) -> Option<Seq<usize>> {
        match self.forward_order(calls, Set::empty()) {
            Some(order) => Some(order.reverse()),
            None => None,
        }
    }
}

/// The call `c` stands in `order` before position `i`.
pub open spec fn comes_before(order: Seq<usize>, c: usize, i: int) -> bool {
    exists|j: int| 0 <= j < i && j < order.len() && order[j] == c
}

/// The call `c` stands in `order` after position `i`.
pub open spec fn comes_after(order: Seq<usize>, c: usize, i: int) -> bool {
    exists|j: int| i < j < order.len() && order[j] == c
}

/// `a` and `b` hold the same calls, whatever their order.
pub open spec fn same_calls(a: Seq<usize>, b: Seq<usize>) -> bool {
    forall|e: usize| a.contains(e) <==> b.contains(e)
}

impl Wiring {
    /// The `k`-th input of the `i`-th call of `order` is a leaf, or its
    /// creator is in `done` or stands earlier in `order`.
    pub open spec fn input_served(&self, order: Seq<usize>, done: Set<usize>, i: int, k: int) -> bool {
        self.creators[self.inputs[order[i] as int][k] as int] matches Some(c) ==> done.contains(c)
            || comes_before(order, c, i)
    }

    /// `order` runs from the leaves to the outputs: every call stands
    /// after the creators of its inputs, those in `done` excepted.
    pub open spec fn is_forward_order(&self, order: Seq<usize>, done: Set<usize>) -> bool {
        forall|i: int, k: int|
            0 <= i < order.len() && 0 <= k < self.inputs[order[i] as int].len()
                ==> #[trigger] self.input_served(order, done, i, k)
    }

    /// The `k`-th input of the `i`-th call of `order` is a leaf, or its
    /// creator stands later in `order`.
    pub open spec fn input_pending(&self, order: Seq<usize>, i: int, k: int) -> bool {
        self.creators[self.inputs[order[i] as int][k] as int] matches Some(c) ==> comes_after(
            order,
            c,
            i,
        )
    }

    /// `order` runs from the outputs to the leaves: every call stands
    /// before the creators of its inputs.
    pub open spec fn is_backward_order(&self, order: Seq<usize>) -> bool {
        forall|i: int, k: int|
            0 <= i < order.len() && 0 <= k < self.inputs[order[i] as int].len()
                ==> #[trigger] self.input_pending(order, i, k)
    }

    /// A layer holds exactly the pending calls that are ready.
    pub proof fn lemma_layer_contains(&self, pending: Seq<usize>, done: Set<usize>, e: usize)
        ensures
            self.layer(pending, done).contains(e) <==> pending.contains(e) && self.ready(e, done),
            self.rest(pending, done).contains(e) <==> pending.contains(e) && !self.ready(e, done),
        decreases pending.len(),
    {
        if pending.len() > 0 {
            let head = pending.drop_last();
            let last = pending.last();
            self.lemma_layer_contains(head, done, e);
            let layer_head = self.layer(head, done);
            let rest_head = self.rest(head, done);
            assert(pending.contains(e) <==> head.contains(e) || last == e) by {
                if head.contains(e) {
                    let i = choose|i: int| 0 <= i < head.len() && head[i] == e;
                    assert(pending[i] == e);
                }
                if pending.contains(e) && last != e {
                    let i = choose|i: int| 0 <= i < pending.len() && pending[i] == e;
                    assert(head[i] == e);
                }
                if last == e {
                    assert(pending[pending.len() - 1] == e);
                }
            }
            if self.ready(last, done) {
                assert(layer_head.push(last).contains(e) <==> layer_head.contains(e) || last == e) by {
                    crate::seq_lemmas::lemma_push_contains(layer_head, last, e);
                }
            } else {
                assert(rest_head.push(last).contains(e) <==> rest_head.contains(e) || last == e) by {
                    crate::seq_lemmas::lemma_push_contains(rest_head, last, e);
                }
            }
        }
    }

    /// A layer and what it leaves behind repeat no call that `pending`
    /// does not repeat.
    pub proof fn lemma_layer_no_duplicates(&self, pending: Seq<usize>, done: Set<usize>)
        requires
            pending.no_duplicates(),
        ensures
            self.layer(pending, done).no_duplicates(),
            self.rest(pending, done).no_duplicates(),
        decreases pending.len(),
    {
        if pending.len() > 0 {
            let head = pending.drop_last();
            let last = pending.last();
            self.lemma_layer_no_duplicates(head, done);
            self.lemma_layer_contains(head, done, last);
            assert(!head.contains(last)) by {
                if head.contains(last) {
                    let i = choose|i: int| 0 <= i < head.len() && head[i] == last;
                    assert(pending[i] == pending[pending.len() - 1]);
                }
            }
            crate::seq_lemmas::lemma_push_no_duplicates(self.layer(head, done), last);
            crate::seq_lemmas::lemma_push_no_duplicates(self.rest(head, done), last);
        }
    }

    /// The layered order holds the pending calls, each as often as it was
    /// given.
    pub proof fn lemma_forward_order_calls(&self, pending: Seq<usize>, done: Set<usize>)
        requires
            self.forward_order(pending, done) is Some,
        ensures
            same_calls(self.forward_order(pending, done)->0, pending),
            self.forward_order(pending, done)->0.len() == pending.len(),
            pending.no_duplicates() ==> self.forward_order(pending, done)->0.no_duplicates(),
        decreases pending.len(),
    {
        let order = self.forward_order(pending, done)->0;
        if pending.len() > 0 {
            let layer = self.layer(pending, done);
            let rest = self.rest(pending, done);
            let later = done.union(layer.to_set());
            self.lemma_layer_rest_len(pending, done);
            self.lemma_forward_order_calls(rest, later);
            let tail = self.forward_order(rest, later)->0;
            assert(order == layer + tail);
            assert forall|e: usize| order.contains(e) <==> pending.contains(e) by {
                self.lemma_layer_contains(pending, done, e);
                crate::seq_lemmas::lemma_concat_contains(layer, tail, e);
            }
            if pending.no_duplicates() {
                self.lemma_layer_no_duplicates(pending, done);
                assert forall|i: int, j: int|
                    0 <= i < layer.len() && 0 <= j < tail.len() implies layer[i] != tail[j] by {
                    self.lemma_layer_contains(pending, done, layer[i]);
                    self.lemma_layer_contains(pending, done, tail[j]);
                    assert(layer.contains(layer[i]));
                    assert(tail.contains(tail[j]));
                }
                assert((layer + tail).no_duplicates());
            }
        }
    }

    /// The layered order runs from the leaves to the outputs.
    pub proof fn lemma_forward_order_valid(&self, pending: Seq<usize>, done: Set<usize>)
        requires
            self.forward_order(pending, done) is Some,
        ensures
            self.is_forward_order(self.forward_order(pending, done)->0, done),
        decreases pending.len(),
    {
        let order = self.forward_order(pending, done)->0;
        if pending.len() > 0 {
            let layer = self.layer(pending, done);
            let rest = self.rest(pending, done);
            let later = done.union(layer.to_set());
            self.lemma_layer_rest_len(pending, done);
            self.lemma_forward_order_valid(rest, later);
            let tail = self.forward_order(rest, later)->0;
            assert(order == layer + tail);
            assert forall|i: int, k: int|
                0 <= i < order.len() && 0 <= k < self.inputs[order[i] as int].len()
                    implies #[trigger] self.input_served(order, done, i, k) by {
                let input = self.inputs[order[i] as int][k];
                if i < layer.len() {
                    assert(layer.contains(layer[i]));
                    self.lemma_layer_contains(pending, done, layer[i]);
                    assert(self.available(input, done));
                } else {
                    let t = i - layer.len();
                    assert(order[i] == tail[t]);
                    assert(self.input_served(tail, later, t, k));
                    if let Some(c) = self.creators[input as int] {
                        if done.contains(c) {
                        } else if layer.to_set().contains(c) {
                            let j = choose|j: int| 0 <= j < layer.len() && layer[j] == c;
                            assert(order[j] == c);
                        } else {
                            let j = choose|j: int| 0 <= j < t && j < tail.len() && tail[j] == c;
                            assert(order[layer.len() + j] == c);
                        }
                    }
                }
            }
        }
    }

    /// The first call of `order`, from `start` on, that is pending.
    proof fn lemma_first_pending(order: Seq<usize>, pending: Seq<usize>, start: int) -> (i: int)
        requires
            0 <= start <= order.len(),
            exists|j: int| start <= j < order.len() && pending.contains(order[j]),
        ensures
            start <= i < order.len(),
            pending.contains(order[i]),
            forall|j: int| start <= j < i ==> !pending.contains(order[j]),
        decreases order.len() - start,
    {
        if pending.contains(order[start]) {
            start
        } else {
            let j = choose|j: int| start <= j < order.len() && pending.contains(order[j]);
            assert(start + 1 <= j);
            Self::lemma_first_pending(order, pending, start + 1)
        }
    }

    /// Where the calls can be arranged from the leaves to the outputs at
    /// all, taking them layer by layer succeeds.
    proof fn lemma_forward_order_found(
        &self,
        calls: Seq<usize>,
        witness: Seq<usize>,
        pending: Seq<usize>,
        done: Set<usize>,
    )
        requires
            same_calls(witness, calls),
            self.is_forward_order(witness, Set::empty()),
            forall|e: usize| pending.contains(e) ==> calls.contains(e),
            forall|e: usize| done.contains(e) <==> calls.contains(e) && !pending.contains(e),
        ensures
            self.forward_order(pending, done) is Some,
        decreases pending.len(),
    {
        if pending.len() > 0 {
            let layer = self.layer(pending, done);
            let rest = self.rest(pending, done);
            let later = done.union(layer.to_set());
            self.lemma_layer_rest_len(pending, done);
            assert(pending.contains(pending[pending.len() - 1]));
            let last = pending[pending.len() - 1];
            assert(witness.contains(last));
            let j0 = choose|j: int| 0 <= j < witness.len() && witness[j] == last;
            let i = Self::lemma_first_pending(witness, pending, 0);
            let e = witness[i];
            assert(self.ready(e, done)) by {
                assert forall|k: int| 0 <= k < self.inputs[e as int].len() implies self.available(
                    #[trigger] self.inputs[e as int][k],
                    done,
                ) by {
                    assert(self.input_served(witness, Set::empty(), i, k));
                    if let Some(c) = self.creators[self.inputs[e as int][k] as int] {
                        let j = choose|j: int| 0 <= j < i && j < witness.len() && witness[j] == c;
                        assert(witness.contains(c));
                        assert(!pending.contains(c));
                    }
                }
            }
            self.lemma_layer_contains(pending, done, e);
            assert(layer.len() > 0) by {
                let k = choose|k: int| 0 <= k < layer.len() && layer[k] == e;
            }
            assert forall|c: usize| rest.contains(c) implies calls.contains(c) by {
                self.lemma_layer_contains(pending, done, c);
            }
            assert forall|c: usize| later.contains(c) <==> calls.contains(c) && !rest.contains(c) by {
                self.lemma_layer_contains(pending, done, c);
            }
            self.lemma_forward_order_found(calls, witness, rest, later);
        }
    }

    /// A backward order exists exactly when the calls can be arranged so
    /// that each one stands after the creators of its inputs. So a
    /// refusal to order means that the calls depend on each other in a
    /// cycle, or on a call that is not among them.
    pub proof fn law_ordered_iff_orderable(&self, calls: Seq<usize>)
        ensures
            self.backward_order(calls) is Some <==> exists|order: Seq<usize>|
                same_calls(order, calls) && #[trigger] self.is_forward_order(order, Set::empty()),
    {
        if self.forward_order(calls, Set::empty()) is Some {
            self.lemma_forward_order_calls(calls, Set::empty());
            self.lemma_forward_order_valid(calls, Set::empty());
        }
        if exists|order: Seq<usize>|
            same_calls(order, calls) && #[trigger] self.is_forward_order(order, Set::empty()) {
            let witness = choose|order: Seq<usize>|
                same_calls(order, calls) && #[trigger] self.is_forward_order(order, Set::empty());
            self.lemma_forward_order_found(calls, witness, calls, Set::empty());
        }
    }

    /// In a backward order every call is processed strictly before the
    /// creator of each of its inputs: seen from the leaves, a creator
    /// always precedes the calls that read what it made. The order holds
    /// the calls that were given, each as often as it was given.
    pub proof fn law_backward_order(&self, calls: Seq<usize>)
        requires
            self.backward_order(calls) is Some,
        ensures
            self.is_backward_order(self.backward_order(calls)->0),
            same_calls(self.backward_order(calls)->0, calls),
            self.backward_order(calls)->0.len() == calls.len(),
            calls.no_duplicates() ==> self.backward_order(calls)->0.no_duplicates(),
    {
        let forward = self.forward_order(calls, Set::empty())->0;
        let order = forward.reverse();
        let n = forward.len() as int;
        self.lemma_forward_order_calls(calls, Set::empty());
        self.lemma_forward_order_valid(calls, Set::empty());
        assert forall|e: usize| order.contains(e) <==> forward.contains(e) by {
            if order.contains(e) {
                let i = choose|i: int| 0 <= i < order.len() && order[i] == e;
                assert(forward[n - 1 - i] == e);
            }
            if forward.contains(e) {
                let i = choose|i: int| 0 <= i < forward.len() && forward[i] == e;
                assert(order[n - 1 - i] == e);
            }
        }
        assert forall|i: int, k: int|
            0 <= i < order.len() && 0 <= k < self.inputs[order[i] as int].len()
                implies #[trigger] self.input_pending(order, i, k) by {
            let f = n - 1 - i;
            assert(order[i] == forward[f]);
            assert(self.input_served(forward, Set::empty(), f, k));
            if let Some(c) = self.creators[self.inputs[order[i] as int][k] as int] {
                let j = choose|j: int| 0 <= j < f && j < forward.len() && forward[j] == c;
                assert(order[n - 1 - j] == c);
            }
        }
        if calls.no_duplicates() {
            assert forall|i: int, j: int|
                0 <= i < order.len() && 0 <= j < order.len() && i != j implies order[i]
                != order[j] by {
                assert(order[i] == forward[n - 1 - i]);
                assert(order[j] == forward[n - 1 - j]);
            }
        }
    }
}

/// The set of calls that `marks` flags.
pub open spec fn marked(marks: Seq<bool>) -> Set<usize> {
    Set::new(|e: usize| e < marks.len() && marks[e as int])
}

/// Whether every input of the call `e` is a leaf or was created by a call
/// flagged in `done`.
fn is_ready<V, U, K>(graph: &Graph<V, U, K>, e: usize, done: &Vec<bool>) -> (ready: bool)
    requires
        graph.wf(),
        graph.has_call(e),
        done@.len() == graph.calls().len(),
    ensures
        ready == graph.wiring().ready(e, marked(done@)),
{
    let ghost w = graph.wiring();
    let call = graph.function_call(e);
    proof {
        assert(graph.call_ok(e as int));
        assert(w.inputs[e as int] == call.xs@);
    }
    let mut i: usize = 0;
    while i < call.xs.len()
        invariant
            graph.wf(),
            w == graph.wiring(),
            graph.are_slots(call.xs@),
            w.inputs[e as int] == call.xs@,
            done@.len() == graph.calls().len(),
            i <= call.xs@.len(),
            forall|j: int| 0 <= j < i ==> w.available(#[trigger] call.xs@[j], marked(done@)),
        decreases call.xs@.len() - i,
    {
        let x: usize = call.xs[i];
        proof {
            assert(graph.is_slot(call.xs@[i as int]));
            assert(graph.node_ok(x as int));
        }
        match graph.creator(x) {
            Some(c) => {
                if !done[c] {
                    proof {
                        assert(w.creators[x as int] == Some(c));
                        assert(!w.available(w.inputs[e as int][i as int], marked(done@)));
                    }
                    return false;
                }
            },
            None => {},
        }
        i += 1;
    }
    true
}

/// Reverses `items` in place.
fn reverse(items: &mut Vec<usize>)
    ensures
        final(items)@ == old(items)@.reverse(),
{
    let n: usize = items.len();
    let mut out: Vec<usize> = Vec::new();
    let mut i: usize = 0;
    while i < n
        invariant
            n == items@.len(),
            items@ == old(items)@,
            i <= n,
            out@.len() == i,
            forall|j: int| 0 <= j < i ==> out@[j] == items@[n - 1 - j],
        decreases n - i,
    {
        out.push(items[n - 1 - i]);
        i += 1;
    }
    assert(out@ =~= old(items)@.reverse());
    *items = out;
}

/// Orders calls for a backward pass, from the outputs to the leaves.
///
/// The calls are taken layer by layer: a layer holds, in the order in
/// which they were given, the remaining calls whose inputs are all leaves
/// or results of calls taken before. The layers in sequence make an order
/// from the leaves to the outputs; its reverse is returned. If calls
/// remain and none of them can be taken, the calls depend on each other in
/// a cycle (or on a call that was not given) and `None` is returned.
pub fn try_sort_for_backward<V, U, K>(graph: &Graph<V, U, K>, fcs: Vec<usize>) -> (sorted: Option<
    Vec<usize>,
>)
    requires
        graph.wf(),
        graph.has_calls(fcs@),
    ensures
        match sorted {
            Some(order) => graph.wiring().backward_order(fcs@) == Some(order@) && graph.has_calls(
                order@,
            ),
            None => graph.wiring().backward_order(fcs@) is None,
        },
{
    let ghost w = graph.wiring();
    let m: usize = graph.call_count();
    let mut done: Vec<bool> = vec![false; m];
    let mut pending: Vec<usize> = fcs;
    let mut sorted: Vec<usize> = Vec::new();
    proof {
        assert(marked(done@) =~= Set::<usize>::empty());
        assert(sorted@ + w.forward_order(pending@, marked(done@))->0 == w.forward_order(
            pending@,
            marked(done@),
        )->0);
    }
    while pending.len() > 0
        invariant
            graph.wf(),
            w == graph.wiring(),
            m == graph.calls().len(),
            done@.len() == m,
            graph.has_calls(pending@),
            graph.has_calls(sorted@),
            match w.forward_order(pending@, marked(done@)) {
                Some(tail) => w.forward_order(fcs@, Set::empty()) == Some(sorted@ + tail),
                None => w.forward_order(fcs@, Set::empty()) is None,
            },
        decreases pending@.len(),
    {
        let ghost done_before = marked(done@);
        let mut layer: Vec<usize> = Vec::new();
        let mut rest: Vec<usize> = Vec::new();
        let mut j: usize = 0;
        while j < pending.len()
            invariant
                graph.wf(),
                w == graph.wiring(),
                done@.len() == graph.calls().len(),
                graph.has_calls(pending@),
                j <= pending@.len(),
                layer@ == w.layer(pending@.take(j as int), marked(done@)),
                rest@ == w.rest(pending@.take(j as int), marked(done@)),
                graph.has_calls(layer@),
                graph.has_calls(rest@),
            decreases pending@.len() - j,
        {
            let e: usize = pending[j];
            proof {
                assert(pending@.take(j + 1).drop_last() == pending@.take(j as int));
                assert(pending@.take(j + 1).last() == e);
            }
            if is_ready(graph, e, &done) {
                layer.push(e);
            } else {
                rest.push(e);
            }
            j += 1;
        }
        proof {
            assert(pending@.take(j as int) == pending@);
            w.lemma_layer_rest_len(pending@, done_before);
        }
        if layer.len() == 0 {
            return None;
        }
        let mut k: usize = 0;
        while k < layer.len()
            invariant
                k <= layer@.len(),
                done@.len() == m,
                m == graph.calls().len(),
                graph.has_calls(layer@),
                marked(done@) == done_before.union(layer@.take(k as int).to_set()),
            decreases layer@.len() - k,
        {
            let e: usize = layer[k];
            let ghost marks_before = done@;
            done.set(e, true);
            proof {
                let shorter = layer@.take(k as int);
                let longer = layer@.take(k + 1);
                assert(longer == shorter.push(e));
                assert(marked(done@) =~= done_before.union(longer.to_set())) by {
                    assert forall|c: usize|
                        marked(done@).contains(c) <==> done_before.union(longer.to_set()).contains(
                            c,
                        ) by {
                        if c == e {
                            assert(longer.last() == e);
                            assert(longer.contains(e));
                        } else {
                            assert(marked(marks_before).contains(c) <==> marked(done@).contains(c));
                            if shorter.contains(c) {
                                let i = choose|i: int| 0 <= i < shorter.len() && shorter[i] == c;
                                assert(longer[i] == c);
                            }
                            if longer.contains(c) {
                                let i = choose|i: int| 0 <= i < longer.len() && longer[i] == c;
                                assert(shorter[i] == c);
                            }
                        }
                    }
                }
            }
            k += 1;
        }
        proof {
            assert(layer@.take(k as int) == layer@);
            let tail = w.forward_order(rest@, marked(done@));
            if tail is Some {
                assert(sorted@ + (layer@ + tail->0) == (sorted@ + layer@) + tail->0);
            }
        }
        push_all(&mut sorted, &layer);
        pending = rest;
    }
    proof {
        assert(sorted@ + Seq::<usize>::empty() == sorted@);
    }
    let ghost forward = sorted@;
    reverse(&mut sorted);
    proof {
        assert forall|i: int| 0 <= i < sorted@.len() implies graph.has_call(
            #[trigger] sorted@[i],
        ) by {
            assert(sorted@[i] == forward[forward.len() - 1 - i]);
        }
    }
    Some(sorted)
}

/// Orders calls for a backward pass, from the outputs to the leaves, as
/// `try_sort_for_backward` does, for calls that can be ordered. Calls
/// that depend on each other in a cycle, or on a call that is not given,
/// have no order: they are a defect, which `try_sort_for_backward`
/// reports.
pub fn sort_for_backward<V, U, K>(graph: &Graph<V, U, K>, fcs: Vec<usize>) -> (order: Vec<usize>)
    requires
        graph.wf(),
        graph.has_calls(fcs@),
        graph.wiring().backward_order(fcs@) is Some,
    ensures
        graph.wiring().backward_order(fcs@) == Some(order@),
        graph.has_calls(order@),
{
    match try_sort_for_backward(graph, fcs) {
        Some(order) => order,
        None => vstd::pervasive::unreached(),
    }
}

} // verus!
