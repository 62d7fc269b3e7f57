use vstd::prelude::*;
use crate::graph::{is_released_call, released_node, Graph};
use crate::walk::{count_unset, push_all};

verus! {

impl<V, U, K> Graph<V, U, K> {
    /// `n` is one of `held`, or is kept alive by a node that is, through
    /// at most `k` links.
    pub open spec fn kept_within(&self, held: Seq<usize>, n: usize, k: nat) -> bool
        decreases k,
    {
        if k == 0 {
            held.contains(n)
        } else {
            ||| self.kept_within(held, n, (k - 1) as nat)
            ||| exists|m: usize|
                self.kept_within(held, m, (k - 1) as nat) && #[trigger] self.owns(m, n)
        }
    }

    /// `n` is in use as long as `held` are: it is one of them, an input
    /// of the creator of a node in use, or the gradient of a node in use.
    pub open spec fn kept(&self, held: Seq<usize>, n: usize) -> bool {
        exists|k: nat| self.kept_within(held, n, k)
    }

    /// The call `e` is the creator of a live node that is in use as long
    /// as `held` are.
    pub open spec fn creates_kept(&self, held: Seq<usize>, e: usize) -> bool {
        exists|n: usize|
            #[trigger] self.has_node(n) && self.kept(held, n) && self.nodes()[n as int].creator
                == Some(e)
    }

    proof fn lemma_kept_step(&self, held: Seq<usize>, a: usize, b: usize)
        requires
            self.kept(held, a),
            self.owns(a, b),
        ensures
            self.kept(held, b),
    {
        let k = choose|k: nat| self.kept_within(held, a, k);
        assert(self.kept_within(held, b, k + 1));
    }

    proof fn lemma_marks_cover_kept(&self, held: Seq<usize>, marks: Seq<bool>, v: usize, k: nat)
        requires
            marks.len() == self.nodes().len(),
            forall|i: int|
                0 <= i < held.len() && self.has_node(held[i]) ==> marks[#[trigger] held[i] as int],
            forall|a: usize, b: usize|
                a < marks.len() && marks[a as int] && #[trigger] self.owns(a, b) ==> b < marks.len()
                    && marks[b as int],
            self.kept_within(held, v, k),
            self.has_node(v),
        ensures
            marks[v as int],
        decreases k,
    {
        if k == 0 {
            let i = choose|i: int| 0 <= i < held.len() && held[i] == v;
        } else if self.kept_within(held, v, (k - 1) as nat) {
            self.lemma_marks_cover_kept(held, marks, v, (k - 1) as nat);
        } else {
            let m = choose|m: usize|
                self.kept_within(held, m, (k - 1) as nat) && #[trigger] self.owns(m, v);
            self.lemma_marks_cover_kept(held, marks, m, (k - 1) as nat);
        }
    }

    /// Releases every node that is no longer in use, given the handles
    /// that are held outside the graph.
    ///
    /// A node stays if it is held, if it is an input of the creator of a
    /// node that stays, or if it holds the gradient of a node that stays.
    /// Being an output of a call keeps no node: a call does not own what
    /// it made. Every other node is released: its value is dropped and its
    /// handle stays taken.
    pub fn sweep(&mut self, held: &[usize])
        requires
            old(self).wf(),
        ensures
            final(self).wf(),
            final(self).nodes().len() == old(self).nodes().len(),
            final(self).calls().len() == old(self).calls().len(),
            final(self).tracing() == old(self).tracing(),
            forall|n: usize|
                n < old(self).nodes().len() ==> #[trigger] final(self).nodes()[n as int] == (
                if old(self).has_node(n) && old(self).kept(held@, n) {
                    old(self).nodes()[n as int]
                } else {
                    released_node()
                }),
            forall|e: usize|
                e < old(self).calls().len() ==> if old(self).creates_kept(held@, e) {
                    #[trigger] final(self).calls()[e as int] == old(self).calls()[e as int]
                } else {
                    is_released_call(final(self).calls()[e as int])
                },
    {
        let n: usize = self.node_count();
        let mut marks: Vec<bool> = vec![false; n];
        let mut stack: Vec<usize> = Vec::new();
        let mut h: usize = 0;
        while h < held.len()
            invariant
                h <= held@.len(),
                n == self.nodes().len(),
                forall|i: int|
                    0 <= i < stack@.len() ==> self.has_node(stack@[i]) && self.kept(
                        held@,
                        stack@[i],
                    ),
                forall|i: int|
                    0 <= i < h && self.has_node(held@[i]) ==> stack@.contains(#[trigger] held@[i]),
            decreases held@.len() - h,
        {
            let root: usize = held[h];
            let ghost before = stack@;
            if self.is_alive(root) {
                stack.push(root);
                proof {
                    assert(held@.contains(root));
                    assert(self.kept_within(held@, root, 0));
                    assert(stack@.last() == root);
                }
            }
            proof {
                assert forall|i: int|
                    0 <= i < h + 1 && self.has_node(held@[i]) implies stack@.contains(
                    #[trigger] held@[i],
                ) by {
                    if i < h {
                        let j = choose|j: int| 0 <= j < before.len() && before[j] == held@[i];
                        assert(stack@[j] == held@[i]);
                    } else {
                        assert(stack@[stack@.len() - 1] == root);
                    }
                }
            }
            h += 1;
        }
        let ghost mut unvisited: nat = count_unset(marks@);
        while stack.len() > 0
            invariant
                self.wf(),
                *self == *old(self),
                n == self.nodes().len(),
                marks@.len() == n,
                forall|i: int|
                    0 <= i < stack@.len() ==> self.has_node(stack@[i]) && self.kept(
                        held@,
                        stack@[i],
                    ),
                forall|v: usize|
                    v < n && #[trigger] marks@[v as int] ==> self.has_node(v) && self.kept(held@, v),
                forall|i: int|
                    0 <= i < held@.len() && self.has_node(held@[i]) ==> (marks@[#[trigger] held@[i] as int]
                        || stack@.contains(held@[i])),
                forall|a: usize, b: usize|
                    a < n && marks@[a as int] && #[trigger] self.owns(a, b) ==> b < n && (
                    marks@[b as int] || stack@.contains(b)),
                unvisited == count_unset(marks@),
            decreases unvisited, stack@.len(),
        {
            let ghost stack_before = stack@;
            let var: usize = stack.pop().unwrap();
            proof {
                assert(stack_before[stack_before.len() - 1] == var);
                assert forall|b: usize|
                    b != var && stack_before.contains(b) implies stack@.contains(b) by {
                    let k = choose|k: int| 0 <= k < stack_before.len() && stack_before[k] == b;
                    assert(stack@[k] == b);
                }
            }
            if marks[var] {
                continue ;
            }
            let ghost marks_before = marks@;
            marks.set(var, true);
            proof {
                crate::walk::lemma_count_unset_update(marks_before, var as int);
                unvisited = (unvisited - 1) as nat;
                assert(self.node_ok(var as int));
            }
            let ghost stack_mid = stack@;
            match self.get_gradient(var) {
                Some(g) => {
                    stack.push(g);
                },
                None => {},
            }
            let ghost stack_grad = stack@;
            match self.creator(var) {
                Some(e) => {
                    push_all(&mut stack, &self.function_call(e).xs);
                },
                None => {},
            }
            proof {
                assert forall|b: usize| stack_mid.contains(b) implies stack@.contains(b) by {
                    let k = choose|k: int| 0 <= k < stack_mid.len() && stack_mid[k] == b;
                    assert(stack_grad[k] == b);
                    assert(stack@[k] == b);
                }
                assert forall|b: usize| self.owns(var, b) implies stack@.contains(b)
                    && self.has_node(b) by {
                    if self.nodes()[var as int].gradient == Some(b) {
                        assert(stack_grad[stack_mid.len() as int] == b);
                        assert(stack@[stack_mid.len() as int] == b);
                    } else {
                        let e = self.nodes()[var as int].creator->0;
                        let xs = self.calls()[e as int].xs@;
                        let k = choose|k: int| 0 <= k < xs.len() && xs[k] == b;
                        assert(stack@[stack_grad.len() + k] == b);
                        assert(self.has_node(xs[k]));
                    }
                }
                assert forall|i: int| 0 <= i < stack@.len() implies self.has_node(stack@[i])
                    && self.kept(held@, stack@[i]) by {
                    if i < stack_mid.len() {
                        assert(stack@[i] == stack_before[i]);
                    } else if i < stack_grad.len() {
                        let g = stack@[i];
                        assert(stack_grad[i] == g);
                        assert(self.nodes()[var as int].gradient == Some(g));
                        assert(self.owns(var, g));
                        self.lemma_kept_step(held@, var, g);
                    } else {
                        let e = self.nodes()[var as int].creator->0;
                        let xs = self.calls()[e as int].xs@;
                        let k = i - stack_grad.len();
                        assert(stack@[i] == xs[k]);
                        assert(xs.contains(xs[k]));
                        assert(self.owns(var, xs[k]));
                        self.lemma_kept_step(held@, var, xs[k]);
                    }
                }
            }
        }
        proof {
            assert forall|i: int|
                0 <= i < held@.len() && self.has_node(held@[i]) implies marks@[#[trigger] held@[i] as int] by {
                if stack@.contains(held@[i]) {
                    let j = choose|j: int| 0 <= j < stack@.len() && stack@[j] == held@[i];
                }
            }
            assert forall|a: usize, b: usize|
                a < marks@.len() && marks@[a as int] && #[trigger] self.owns(a, b) implies b
                < marks@.len() && marks@[b as int] by {
                if stack@.contains(b) {
                    let j = choose|j: int| 0 <= j < stack@.len() && stack@[j] == b;
                }
            }
            assert forall|v: usize| v < n implies (marks@[v as int] <==> self.has_node(v)
                && self.kept(held@, v)) by {
                if self.has_node(v) && self.kept(held@, v) {
                    let k = choose|k: nat| self.kept_within(held@, v, k);
                    self.lemma_marks_cover_kept(held@, marks@, v, k);
                }
            }
        }
        proof {
            assert forall|e: usize| self.creates_marked(marks@, e) <==> self.creates_kept(
                held@,
                e,
            ) by {
                if self.creates_marked(marks@, e) {
                    let v = choose|v: usize|
                        v < marks@.len() && v < self.nodes().len() && #[trigger] marks@[v as int]
                            && self.nodes()[v as int].creator == Some(e);
                    assert(self.has_node(v) && self.kept(held@, v));
                }
                if self.creates_kept(held@, e) {
                    let v = choose|v: usize|
                        #[trigger] self.has_node(v) && self.kept(held@, v)
                            && self.nodes()[v as int].creator == Some(e);
                    assert(marks@[v as int]);
                }
            }
        }
        self.release_unmarked(&marks);
    }
}

/// In a graph that has only grown since `before`, what keeps a node alive
/// from handles of `before` and from bare leaves `gxs` is a node of
/// `before` or one of `gxs`.
proof fn lemma_kept_stays_old<V, U, K>(
    before: &Graph<V, U, K>,
    after: &Graph<V, U, K>,
    held: Seq<usize>,
    gxs: Seq<usize>,
    n: usize,
    k: nat,
)
    requires
        before.wf(),
        before.extended_by(after),
        before.kept_but(after, Set::empty()),
        forall|i: int|
            0 <= i < gxs.len() ==> (#[trigger] gxs[i]) >= before.nodes().len() && after.is_slot(
                gxs[i],
            ) && after.nodes()[gxs[i] as int].creator is None,
        forall|i: int| 0 <= i < held.len() ==> before.is_slot(#[trigger] held[i]),
        after.kept_within(held + gxs, n, k),
    ensures
        before.is_slot(n) || gxs.contains(n),
    decreases k,
{
    if k == 0 {
        crate::seq_lemmas::lemma_concat_contains(held, gxs, n);
        if held.contains(n) {
            let i = choose|i: int| 0 <= i < held.len() && held[i] == n;
        }
    } else if after.kept_within(held + gxs, n, (k - 1) as nat) {
        lemma_kept_stays_old(before, after, held, gxs, n, (k - 1) as nat);
    } else {
        let m = choose|m: usize|
            after.kept_within(held + gxs, m, (k - 1) as nat) && #[trigger] after.owns(m, n);
        lemma_kept_stays_old(before, after, held, gxs, m, (k - 1) as nat);
        if before.is_slot(m) {
            assert(after.nodes()[m as int] == before.nodes()[m as int]);
            assert(before.node_ok(m as int));
            if after.nodes()[m as int].gradient != Some(n) {
                let e = before.nodes()[m as int].creator->0;
                assert(after.calls()[e as int] == before.calls()[e as int]);
                assert(before.call_ok(e as int));
                let xs = before.calls()[e as int].xs@;
                let j = choose|j: int| 0 <= j < xs.len() && xs[j] == n;
                assert(before.is_slot(xs[j]));
            }
        } else {
            let i = choose|i: int| 0 <= i < gxs.len() && gxs[i] == m;
            assert(after.nodes()[gxs[i] as int].gradient is None);
        }
    }
}

/// What was in use stays in use when the graph only grows.
proof fn lemma_kept_carries_over<V, U, K>(
    before: &Graph<V, U, K>,
    after: &Graph<V, U, K>,
    held: Seq<usize>,
    more: Seq<usize>,
    n: usize,
    k: nat,
)
    requires
        before.wf(),
        before.extended_by(after),
        before.kept_but(after, Set::empty()),
        before.kept_within(held, n, k),
    ensures
        after.kept_within(held + more, n, k),
    decreases k,
{
    if k == 0 {
        crate::seq_lemmas::lemma_concat_contains(held, more, n);
    } else if before.kept_within(held, n, (k - 1) as nat) {
        lemma_kept_carries_over(before, after, held, more, n, (k - 1) as nat);
    } else {
        let m = choose|m: usize|
            before.kept_within(held, m, (k - 1) as nat) && #[trigger] before.owns(m, n);
        lemma_kept_carries_over(before, after, held, more, m, (k - 1) as nat);
        assert(after.nodes()[m as int] == before.nodes()[m as int]);
        assert(before.node_ok(m as int));
        if before.nodes()[m as int].gradient != Some(n) {
            let e = before.nodes()[m as int].creator->0;
            assert(after.calls()[e as int] == before.calls()[e as int]);
        }
        assert(after.owns(m, n));
    }
}

/// A backward pass leaves nothing behind that a sweep does not release.
///
/// Take a graph `before` a pass and `after` it, where the pass has only
/// added nodes and has returned the leaves `gxs` among them; this is what
/// a pass without `create_graph` does. Let
/// `swept` be `after`, swept while the handles `held`, all from before
/// the pass, and `gxs` are held. Then of the nodes that the pass added
/// only `gxs` are left, and every node that was in use before the pass is
/// still there, as it was.
pub proof fn law_pass_leaves_no_garbage<V, U, K>(
    before: &Graph<V, U, K>,
    after: &Graph<V, U, K>,
    swept: &Graph<V, U, K>,
    held: Seq<usize>,
    gxs: Seq<usize>,
)
    requires
        before.wf(),
        before.extended_by(after),
        before.kept_but(after, Set::empty()),
        forall|i: int|
            0 <= i < gxs.len() ==> (#[trigger] gxs[i]) >= before.nodes().len() && after.is_slot(
                gxs[i],
            ) && after.nodes()[gxs[i] as int].creator is None,
        forall|i: int| 0 <= i < held.len() ==> before.is_slot(#[trigger] held[i]),
        swept.nodes().len() == after.nodes().len(),
        forall|n: usize|
            n < after.nodes().len() ==> #[trigger] swept.nodes()[n as int] == (if after.has_node(n)
                && after.kept(held + gxs, n) {
                after.nodes()[n as int]
            } else {
                released_node()
            }),
    ensures
        forall|n: usize|
            before.nodes().len() <= n && #[trigger] swept.has_node(n) ==> gxs.contains(n),
        forall|n: usize|
            before.has_node(n) && before.kept(held, n) ==> #[trigger] swept.nodes()[n as int]
                == before.nodes()[n as int],
{
    assert forall|n: usize|
        before.nodes().len() <= n && #[trigger] swept.has_node(n) implies gxs.contains(n) by {
        assert(swept.nodes()[n as int].value is Some);
        assert(after.kept(held + gxs, n));
        let k = choose|k: nat| after.kept_within(held + gxs, n, k);
        lemma_kept_stays_old(before, after, held, gxs, n, k);
    }
    assert forall|n: usize| before.has_node(n) && before.kept(held, n) implies #[trigger] swept.nodes()[n as int]
        == before.nodes()[n as int] by {
        let k = choose|k: nat| before.kept_within(held, n, k);
        lemma_kept_carries_over(before, after, held, gxs, n, k);
        assert(after.nodes()[n as int] == before.nodes()[n as int]);
        assert(after.kept(held + gxs, n));
    }
}

} // verus!
