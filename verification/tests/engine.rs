use std::collections::HashMap;

use ndarray::{ArrayD, Axis, IxDyn};
use ruzero::backward::{absorb, detach, has_all_nodes, propagate};
use ruzero::table::{accumulate, gather, release, seed};
use ruzero::functions::add::{add, multi_add, Add};
use ruzero::functions::broadcast::Broadcast;
use ruzero::functions::create_graph::CreateGraph;
use ruzero::functions::exp::Exp;
use ruzero::functions::mul::Mul;
use ruzero::functions::neg::Neg;
use ruzero::functions::sin::{Cos, Sin};
use ruzero::functions::square::Square;
use ruzero::functions::reshape::{reshape, Reshape};
use ruzero::functions::sum::{sum_to, Sum};
use ruzero::functions::transpose::{transpose, Transpose};
use ruzero::functions::{record, record_many};
use ruzero::walk::Released;
use ruzero::{
    backprop, backward_of, call, call_many, collect_function_calls, collect_variables, gradients,
    optimize, sort_for_backward, try_gradients, try_sort_for_backward, BackwardError, Function, FunctionCall, Graph, Kernel, Optimizee,
    Rule,
};

type Array = ArrayD<f32>;

struct NdKernel;

impl Kernel<Array> for NdKernel {
    fn shape(&self, v: &Array) -> Vec<usize> {
        v.shape().to_vec()
    }

    fn copy(&self, v: &Array) -> Array {
        v.clone()
    }

    fn ones(&self, shape: &Vec<usize>) -> Array {
        ArrayD::ones(IxDyn(shape))
    }

    fn add(&self, a: &Array, b: &Array) -> Array {
        a + b
    }

    fn mul(&self, a: &Array, b: &Array) -> Array {
        a * b
    }

    fn neg(&self, v: &Array) -> Array {
        v.mapv(|x| -x)
    }

    fn exp(&self, v: &Array) -> Array {
        v.mapv(|x| x.exp())
    }

    fn sin(&self, v: &Array) -> Array {
        v.mapv(|x| x.sin())
    }

    fn cos(&self, v: &Array) -> Array {
        v.mapv(|x| x.cos())
    }

    fn sum_axis(&self, v: &Array, axis: usize) -> Array {
        v.sum_axis(Axis(axis))
    }

    fn insert_axis(&self, v: &Array, axis: usize) -> Array {
        v.clone().insert_axis(Axis(axis))
    }

    fn broadcast_to(&self, v: &Array, shape: &Vec<usize>) -> Array {
        v.broadcast(IxDyn(shape)).unwrap().to_owned()
    }

    fn reshape(&self, v: &Array, shape: &Vec<usize>) -> Array {
        v.to_shape(IxDyn(shape)).unwrap().to_owned()
    }

    fn permute(&self, v: &Array, axes: &Vec<usize>) -> Array {
        v.clone().permuted_axes(IxDyn(axes))
    }
}

/// Operations that the tests bring along.
#[derive(Clone)]
enum Op {
    Mul,
    Pow(f32),
    /// Two outputs: the input as it is, and the input negated.
    Split,
    /// Returns no gradient at all for its one input.
    Forgetful,
    /// Returns a handle that is no node.
    Lost,
    /// Recorded even when the graph is not recording.
    Forced,
}

type G = Graph<Array, Op, NdKernel>;

impl Function<Array, NdKernel> for Op {
    fn forward(&self, graph: &G, xs: &[usize]) -> Vec<Array> {
        match self {
            Op::Mul => vec![graph.value(xs[0]) * graph.value(xs[1])],
            Op::Pow(p) => {
                let p = *p;
                vec![graph.value(xs[0]).mapv(|x| x.powf(p))]
            }
            Op::Split => vec![graph.value(xs[0]).clone(), graph.value(xs[0]).mapv(|x| -x)],
            Op::Forgetful | Op::Lost | Op::Forced => vec![graph.value(xs[0]).clone()],
        }
    }

    fn backward(&self, graph: &mut G, xs: &[usize], _ys: &[usize], gys: &[usize]) -> Vec<usize> {
        match self {
            Op::Mul => {
                let ga = call(graph, Op::Mul, &[gys[0], xs[1]]);
                let gb = call(graph, Op::Mul, &[gys[0], xs[0]]);
                vec![ga, gb]
            }
            Op::Pow(p) => {
                let lowered = call(graph, Op::Pow(*p - 1.0), &[xs[0]]);
                let factor = graph.new_node(scalar(*p));
                let slope = call(graph, Op::Mul, &[lowered, factor]);
                vec![call(graph, Op::Mul, &[gys[0], slope])]
            }
            Op::Split => {
                let negated = Neg.call(graph, &[gys[1]]);
                vec![add(graph, gys[0], negated[0])]
            }
            Op::Forgetful => vec![],
            Op::Lost => vec![usize::MAX],
            Op::Forced => vec![gys[0]],
        }
    }

    fn is_force_create_graph(&self) -> bool {
        matches!(self, Op::Forced)
    }
}

fn scalar(x: f32) -> Array {
    ndarray::arr0(x).into_dyn()
}

fn array(shape: &[usize], data: Vec<f32>) -> Array {
    ArrayD::from_shape_vec(IxDyn(shape), data).unwrap()
}

fn item(graph: &G, n: usize) -> f32 {
    let value = graph.value(n);
    assert_eq!(value.len(), 1);
    *value.iter().next().unwrap()
}

fn new_graph() -> G {
    Graph::new(NdKernel)
}

#[test]
fn test_collect_function_calls() {
    let mut g = new_graph();
    let x = backprop(&mut g, scalar(1.0));
    let y = g.new_node(scalar(2.0));
    let z = g.new_node(scalar(3.0));
    let f = Add.call(&mut g, &[x, y]);
    let h = Add.call(&mut g, &[f[0], z]);
    let f = Add.call(&mut g, &[h[0], x]);
    let function_call_vec = collect_function_calls(&g, vec![f[0]]).unwrap();
    assert_eq!(function_call_vec.len(), 4);
}

#[test]
fn test_collect_funcalls() {
    let mut g = new_graph();
    let x = backprop(&mut g, scalar(1.0));
    let y = g.new_node(scalar(2.0));
    let z = g.new_node(scalar(3.0));
    let f = Add.call(&mut g, &[x, y]);
    let h = Add.call(&mut g, &[f[0], z]);
    let f = Add.call(&mut g, &[h[0], x]);
    let funcall_vec = collect_function_calls(&g, vec![f[0]]).unwrap();
    assert_eq!(funcall_vec.len(), 4);
}

#[test]
fn test_sum() {
    {
        let mut g = new_graph();
        let x = g.new_node(scalar(1.0));
        let y = g.new_node(scalar(2.0));
        let z = g.new_node(scalar(3.0));
        let ys = Add.call(&mut g, &[x, y, z]);
        assert_eq!(*g.value(ys[0]), scalar(6.0));

        let one = g.new_node(scalar(1.0));
        g.set_gradient(ys[0], one);
        g.backward(ys[0], false).unwrap();
        assert_eq!(*g.value(g.get_gradient(x).unwrap()), scalar(1.0));
        assert_eq!(*g.value(g.get_gradient(y).unwrap()), scalar(1.0));
        assert_eq!(*g.value(g.get_gradient(z).unwrap()), scalar(1.0));
    }
    {
        let mut g = new_graph();
        let x = g.new_node(scalar(3.0));
        Add.call(&mut g, &[x, x]);
        let ys = Add.call(&mut g, &[x, x]);
        assert_eq!(*g.value(ys[0]), scalar(6.0));

        let one = g.new_node(scalar(1.0));
        g.set_gradient(ys[0], one);
        g.backward(ys[0], false).unwrap();
        assert_eq!(*g.value(g.get_gradient(x).unwrap()), scalar(2.0));
    }
}

#[test]
fn add_test() {
    {
        let mut g = new_graph();
        let a = backprop(&mut g, scalar(1.0));
        let b = backprop(&mut g, scalar(2.0));
        let c = backprop(&mut g, scalar(3.0));
        let y = multi_add(&mut g, &[a, b, c]);
        assert_eq!(*g.value(y), scalar(6.0));

        let grads = gradients(&mut g, &[y], &[a, b, c], false);
        assert_eq!(item(&g, grads[0]), 1.0);
        assert_eq!(item(&g, grads[1]), 1.0);
        assert_eq!(item(&g, grads[2]), 1.0);
    }
    {
        let mut g = new_graph();
        let x = backprop(&mut g, scalar(3.0));
        let y = multi_add(&mut g, &[x, x]);
        assert_eq!(*g.value(y), scalar(6.0));

        let grads = gradients(&mut g, &[y], &[x], false);
        assert_eq!(item(&g, grads[0]), 2.0);
    }
}

#[test]
fn test_add_mul() {
    let mut g = new_graph();
    let a = g.new_node(scalar(3.0));
    let b = g.new_node(scalar(2.0));
    let c = g.new_node(scalar(1.0));

    let product = call_many(&mut g, Op::Mul, &[a, b]).pop().unwrap();
    let ys = Add.call(&mut g, &[product, c]);
    assert_eq!(*g.value(ys[0]), scalar(7.0));

    let one = g.new_node(scalar(1.0));
    g.set_gradient(ys[0], one);
    g.backward(ys[0], false).unwrap();
    assert_eq!(g.get_gradient(a).map(|v| g.value(v).clone()), Some(scalar(2.0)));
    assert_eq!(g.get_gradient(b).map(|v| g.value(v).clone()), Some(scalar(3.0)));
}

#[test]
fn test_sphere() {
    let mut g = new_graph();
    let x = g.new_node(scalar(1.0));
    let y = g.new_node(scalar(1.0));

    let x2 = call_many(&mut g, Op::Pow(2.0), &[x]).pop().unwrap();
    let y2 = call_many(&mut g, Op::Pow(2.0), &[y]).pop().unwrap();
    let ys = Add.call(&mut g, &[x2, y2]);
    assert_eq!(*g.value(ys[0]), scalar(2.0));

    let one = g.new_node(scalar(1.0));
    g.set_gradient(ys[0], one);
    g.backward(ys[0], false).unwrap();
    assert_eq!(g.get_gradient(x).map(|v| g.value(v).clone()), Some(scalar(2.0)));
    assert_eq!(g.get_gradient(y).map(|v| g.value(v).clone()), Some(scalar(2.0)));
}

#[test]
fn reshape_test() {
    let mut g = new_graph();
    let x = backprop(&mut g, array(&[2, 3], vec![1., 2., 3., 4., 5., 6.]));
    let ys = Reshape::new(vec![3, 2]).call(&mut g, &[x]);
    assert_eq!(g.shape(ys[0]), &[3, 2]);

    let grads = gradients(&mut g, &ys, &[x], false);
    assert_eq!(g.shape(grads[0]), &[2, 3]);
}

#[test]
fn sum_test() {
    {
        let mut g = new_graph();
        let x = g.new_node(array(&[2, 3], vec![1., 2., 3., 4., 5., 6.]));
        let ys = Sum::new(vec![0], false).call(&mut g, &[x]);
        assert_eq!(g.shape(ys[0]), &[3]);
        assert_eq!(g.value(ys[0]), &array(&[3], vec![5., 7., 9.]));
    }
    {
        let mut g = new_graph();
        let x = g.new_node(array(&[2, 3], vec![1., 2., 3., 4., 5., 6.]));
        let ys = Sum::new(vec![1], false).call(&mut g, &[x]);
        assert_eq!(g.shape(ys[0]), &[2]);
        assert_eq!(g.value(ys[0]), &array(&[2], vec![6., 15.]));
    }
}

#[test]
fn transpose_test() {
    let mut g = new_graph();
    let x = backprop(&mut g, ArrayD::zeros(IxDyn(&[1, 2, 3])));
    let y = Transpose::new(vec![1, 2, 0]).call(&mut g, &[x]).pop().unwrap();
    assert_eq!(g.shape(y), &[2, 3, 1]);

    let grads = gradients(&mut g, &[y], &[x], false);
    assert_eq!(g.shape(grads[0]), &[1, 2, 3]);
}

#[test]
fn gradients_of_product_plus_constant() {
    let mut g = new_graph();
    let a = g.new_node(scalar(3.0));
    let b = g.new_node(scalar(2.0));
    let c = g.new_node(scalar(1.0));
    let product = call(&mut g, Op::Mul, &[a, b]);
    let y = add(&mut g, product, c);
    assert_eq!(item(&g, y), 7.0);

    let grads = gradients(&mut g, &[y], &[a, b], false);
    assert_eq!(grads.len(), 2);
    assert_eq!(item(&g, grads[0]), 2.0);
    assert_eq!(item(&g, grads[1]), 3.0);
    // Nothing is stored in the nodes by the free function.
    assert_eq!(g.get_gradient(a), None);
    assert_eq!(g.get_gradient(b), None);
}

#[test]
fn shared_input_doubles_gradient() {
    let mut g = new_graph();
    let x = g.new_node(scalar(3.0));
    let y = Add.call(&mut g, &[x, x])[0];
    assert_eq!(item(&g, y), 6.0);
    let grads = gradients(&mut g, &[y], &[x], false);
    assert_eq!(item(&g, grads[0]), 2.0);
}

#[test]
fn diamond_sums_both_paths() {
    // y = (x * x) + (-x), at x = 3: dy/dx = 2x - 1 = 5.
    let mut g = new_graph();
    let x = g.new_node(scalar(3.0));
    let square = call(&mut g, Op::Mul, &[x, x]);
    let negated = Neg.call(&mut g, &[x])[0];
    let y = add(&mut g, square, negated);
    assert_eq!(item(&g, y), 6.0);
    let grads = gradients(&mut g, &[y], &[x], false);
    assert_eq!(item(&g, grads[0]), 5.0);
}

#[test]
fn gradients_without_graph_are_leaves() {
    let mut g = new_graph();
    let a = g.new_node(scalar(3.0));
    let b = g.new_node(scalar(2.0));
    let product = call(&mut g, Op::Mul, &[a, b]);
    let y = add(&mut g, product, a);
    let grads = gradients(&mut g, &[y], &[a, b, y], false);
    for grad in grads.iter() {
        assert!(g.is_leaf(*grad));
        assert_eq!(g.creator(*grad), None);
        assert_eq!(collect_function_calls(&g, vec![*grad]).unwrap().len(), 0);
    }
    assert_eq!(item(&g, grads[0]), 3.0);
    assert_eq!(item(&g, grads[1]), 3.0);
    assert_eq!(item(&g, grads[2]), 1.0);
    // A backward pass from such a gradient reaches nothing but itself.
    let again = gradients(&mut g, &[grads[0]], &[grads[0]], false);
    assert_eq!(item(&g, again[0]), 1.0);
    assert!(matches!(
        try_gradients(&mut g, &[grads[0]], &[a], false),
        Err(BackwardError::Unreachable { node }) if node == a
    ));
}

#[test]
fn second_derivative_with_create_graph() {
    // y = x^3 at x = 2: y' = 3x^2 = 12, y'' = 6x = 12.
    let mut g = new_graph();
    let x = g.new_node(scalar(2.0));
    let y = call(&mut g, Op::Pow(3.0), &[x]);
    assert_eq!(item(&g, y), 8.0);
    let first = gradients(&mut g, &[y], &[x], true);
    assert_eq!(item(&g, first[0]), 12.0);
    assert!(!g.is_leaf(first[0]));
    let second = gradients(&mut g, &[first[0]], &[x], false);
    assert_eq!(item(&g, second[0]), 12.0);
    assert!(g.is_leaf(second[0]));
}

#[test]
fn seeds_are_traced_only_with_create_graph() {
    let mut g = new_graph();
    let x = g.new_node(scalar(2.0));
    let traced = gradients(&mut g, &[x], &[x], true);
    assert_eq!(item(&g, traced[0]), 1.0);
    let creator = g.creator(traced[0]).unwrap();
    assert!(matches!(g.function_call(creator).backward, Rule::Leaf));
    let plain = gradients(&mut g, &[x], &[x], false);
    assert_eq!(item(&g, plain[0]), 1.0);
    assert!(g.is_leaf(plain[0]));
}

#[test]
fn forced_cycle_is_reported() {
    let mut g = new_graph();
    let x = g.new_node(scalar(1.0));
    let y = Neg.call(&mut g, &[x])[0];
    // Make the creator of x a call that reads y, which was made from x.
    let closing = g.chain(&[y], &[x], true, Rule::Neg(Neg)).unwrap();
    assert_eq!(g.creator(x), Some(closing));

    let calls = collect_function_calls(&g, vec![y]).unwrap();
    assert_eq!(calls.len(), 2);
    assert_eq!(try_sort_for_backward(&g, calls), None);
    assert!(matches!(try_gradients(&mut g, &[y], &[x], false), Err(BackwardError::Cycle)));
    assert!(matches!(g.backward(y, false), Err(BackwardError::Cycle)));
}

#[test]
fn self_loop_is_a_cycle() {
    let mut g = new_graph();
    let x = g.new_node(scalar(1.0));
    g.chain(&[x], &[x], true, Rule::Neg(Neg)).unwrap();
    assert!(matches!(try_gradients(&mut g, &[x], &[x], false), Err(BackwardError::Cycle)));
}

#[test]
fn backward_order_puts_creators_last() {
    let mut g = new_graph();
    let x = backprop(&mut g, scalar(1.0));
    let a = Neg.call(&mut g, &[x])[0];
    let b = Neg.call(&mut g, &[a])[0];
    let c = add(&mut g, a, b);
    let marker = g.creator(x).unwrap();
    let made_a = g.creator(a).unwrap();
    let made_b = g.creator(b).unwrap();
    let made_c = g.creator(c).unwrap();

    let order = sort_for_backward(&g, vec![made_b, marker, made_c, made_a]);
    assert_eq!(order, vec![made_c, made_b, made_a, marker]);
    let place = |e: usize| order.iter().position(|o| *o == e).unwrap();
    for e in order.iter() {
        for input in g.function_call(*e).get_xs() {
            if let Some(creator) = g.creator(input) {
                assert!(place(*e) < place(creator));
            }
        }
    }
    // Calls of one layer keep the order in which they were given.
    let y = g.new_node(scalar(2.0));
    let p = Neg.call(&mut g, &[y])[0];
    let q = Neg.call(&mut g, &[y])[0];
    let made_p = g.creator(p).unwrap();
    let made_q = g.creator(q).unwrap();
    assert_eq!(try_sort_for_backward(&g, vec![made_q, made_p]), Some(vec![made_p, made_q]));
    assert_eq!(try_sort_for_backward(&g, vec![made_p, made_q]), Some(vec![made_q, made_p]));
    assert_eq!(try_sort_for_backward(&g, vec![]), Some(vec![]));
    // A call whose input was made by a call that is not given cannot be placed.
    assert_eq!(try_sort_for_backward(&g, vec![made_c, made_b]), None);
}

#[test]
fn weight_tying_gives_one_update() {
    let mut g = new_graph();
    let weight = Optimizee::new(7);
    let other = Optimizee::new(9);
    let w = weight.get(&mut g, scalar(3.0));
    let v = other.get(&mut g, scalar(5.0));
    let x = g.new_node(scalar(2.0));
    // loss = w * x + w * v + w
    let first = call(&mut g, Op::Mul, &[w, x]);
    let second = call(&mut g, Op::Mul, &[w, v]);
    let loss = multi_add(&mut g, &[first, second, w]);
    assert_eq!(item(&g, loss), 24.0);

    let updates = optimize(&mut g, loss).ok().unwrap();
    assert_eq!(updates.len(), 2);
    let for_weight: Vec<_> = updates.iter().filter(|u| u.optimizee == 7).collect();
    assert_eq!(for_weight.len(), 1);
    assert_eq!(for_weight[0].parameter, w);
    assert_eq!(item(&g, for_weight[0].gradient), 8.0);
    assert!(g.is_leaf(for_weight[0].gradient));
    let for_other: Vec<_> = updates.iter().filter(|u| u.optimizee == 9).collect();
    assert_eq!(for_other.len(), 1);
    assert_eq!(for_other[0].parameter, v);
    assert_eq!(item(&g, for_other[0].gradient), 3.0);
}

#[test]
fn optimize_without_parameters_asks_for_nothing() {
    let mut g = new_graph();
    let x = g.new_node(scalar(2.0));
    let y = Neg.call(&mut g, &[x])[0];
    assert_eq!(optimize(&mut g, y).ok().unwrap().len(), 0);
}

#[test]
fn parameter_mark_is_made_without_recording() {
    let mut g = new_graph();
    g.set_tracing(false);
    let p = Optimizee::new(1).get(&mut g, scalar(4.0));
    let creator = g.creator(p).unwrap();
    assert_eq!(g.function_call(creator).backward.get_optimizee(), Some(1));
    assert_eq!(g.function_call(creator).get_ys(&g), vec![p]);
    assert_eq!(g.function_call(creator).get_xs(), Vec::<usize>::new());
    assert_eq!(Rule::<Op>::Leaf.get_optimizee(), None);
    assert_eq!(Rule::<Op>::Custom(Op::Mul).get_optimizee(), None);
}

#[test]
fn wrong_number_of_gradients_is_reported() {
    let mut g = new_graph();
    let x = g.new_node(scalar(1.0));
    let y = call(&mut g, Op::Forgetful, &[x]);
    let made = g.creator(y).unwrap();
    match try_gradients(&mut g, &[y], &[x], false) {
        Err(BackwardError::ArityMismatch { call, inputs, gradients }) => {
            assert_eq!(call, made);
            assert_eq!(inputs, 1);
            assert_eq!(gradients, 0);
        }
        _ => panic!("expected an arity mismatch"),
    }
}

#[test]
fn unknown_gradient_handle_is_reported() {
    let mut g = new_graph();
    let x = g.new_node(scalar(1.0));
    let y = call(&mut g, Op::Lost, &[x]);
    let made = g.creator(y).unwrap();
    assert!(matches!(
        try_gradients(&mut g, &[y], &[x], false),
        Err(BackwardError::UnknownGradient { call }) if call == made
    ));
}

#[test]
fn output_without_gradient_is_reported() {
    let mut g = new_graph();
    let x = g.new_node(scalar(1.0));
    let outs = call_many(&mut g, Op::Split, &[x]);
    assert_eq!(outs.len(), 2);
    let made = g.creator(outs[0]).unwrap();
    assert_eq!(g.creator(outs[1]), Some(made));
    // Only the first output is used, so the second never gets a gradient.
    let y = Neg.call(&mut g, &[outs[0]])[0];
    match try_gradients(&mut g, &[y], &[x], false) {
        Err(BackwardError::MissingGradient { call, node }) => {
            assert_eq!(call, made);
            assert_eq!(node, outs[1]);
        }
        _ => panic!("expected a missing gradient"),
    }
    // With both outputs used, gradients are matched to outputs by position.
    let z = add(&mut g, outs[0], outs[1]);
    let grads = gradients(&mut g, &[z], &[x], false);
    assert_eq!(item(&g, grads[0]), 0.0);
    let twice = add(&mut g, outs[0], outs[0]);
    let z = add(&mut g, twice, outs[1]);
    let grads = gradients(&mut g, &[z], &[x], false);
    assert_eq!(item(&g, grads[0]), 1.0);
}

#[test]
fn unreached_target_is_reported() {
    let mut g = new_graph();
    let x = g.new_node(scalar(1.0));
    let aside = g.new_node(scalar(2.0));
    let y = Neg.call(&mut g, &[x])[0];
    assert!(matches!(
        try_gradients(&mut g, &[y], &[x, aside], false),
        Err(BackwardError::Unreachable { node }) if node == aside
    ));
}

#[test]
fn unchain_stops_the_flow() {
    let mut g = new_graph();
    let x = g.new_node(scalar(1.0));
    let y = Neg.call(&mut g, &[x])[0];
    let z = Neg.call(&mut g, &[y])[0];
    assert!(!g.is_leaf(y));
    g.unchain(y);
    assert!(g.is_leaf(y));
    assert_eq!(g.creator(y), None);
    let grads = gradients(&mut g, &[z], &[y], false);
    assert_eq!(item(&g, grads[0]), -1.0);
    assert!(matches!(
        try_gradients(&mut g, &[z], &[x], false),
        Err(BackwardError::Unreachable { node }) if node == x
    ));
}

#[test]
fn nothing_is_recorded_when_tracing_is_off() {
    let mut g = new_graph();
    assert!(g.is_tracing());
    g.set_tracing(false);
    assert!(!g.is_tracing());
    let x = g.new_node(scalar(1.0));
    let y = add(&mut g, x, x);
    let z = Neg.call(&mut g, &[y])[0];
    let w = call(&mut g, Op::Mul, &[z, z]);
    assert_eq!(item(&g, w), 4.0);
    assert!(g.is_leaf(y) && g.is_leaf(z) && g.is_leaf(w));
    assert_eq!(g.call_count(), 0);
    assert_eq!(g.chain(&[x], &[y], false, Rule::Neg(Neg)), None);
    assert!(g.is_leaf(y));
    // A forced call is recorded all the same.
    let forced = call(&mut g, Op::Forced, &[x]);
    assert!(!g.is_leaf(forced));
    let bridged = CreateGraph::new(scalar(9.0)).call(&mut g)[0];
    assert_eq!(item(&g, bridged), 9.0);
    let creator = g.creator(bridged).unwrap();
    assert!(matches!(g.function_call(creator).backward, Rule::Bridge));
    let root = backprop(&mut g, scalar(1.0));
    assert!(!g.is_leaf(root));
    assert_eq!(g.call_count(), 3);
}

#[test]
fn bridge_has_no_gradients() {
    assert_eq!(CreateGraph::<Array>::backward(&[3]).len(), 0);
    let mut g = new_graph();
    let bridged = CreateGraph::new(scalar(2.0)).call(&mut g)[0];
    let y = Neg.call(&mut g, &[bridged])[0];
    let grads = gradients(&mut g, &[y], &[bridged], false);
    assert_eq!(item(&g, grads[0]), -1.0);
}

#[test]
fn chain_wires_outputs_to_the_new_call() {
    let mut g = new_graph();
    let a = g.new_node(scalar(1.0));
    let b = g.new_node(scalar(2.0));
    let out = g.new_node(scalar(3.0));
    assert_eq!(g.node_count(), 3);
    let e = g.chain(&[a, b], &[out], false, Rule::Add(Add)).unwrap();
    assert_eq!(e, 0);
    assert_eq!(g.call_count(), 1);
    assert_eq!(g.creator(out), Some(e));
    assert_eq!(g.creator(a), None);
    assert_eq!(g.function_call(e).get_xs(), vec![a, b]);
    assert_eq!(g.function_call(e).get_ys(&g), vec![out]);
    assert_eq!(g.node(out).creator, Some(e));
}

#[test]
fn function_call_keeps_inputs_and_outputs() {
    let record: FunctionCall<Op> = FunctionCall::new(Rule::Custom(Op::Mul), vec![4, 5], &[6]);
    assert_eq!(record.get_xs(), vec![4, 5]);
    assert_eq!(record.ys, vec![6]);
    assert!(matches!(record.backward, Rule::Custom(Op::Mul)));
}

#[test]
fn rules_know_their_arity() {
    assert!(Rule::<Op>::Leaf.check_fits(0, 1));
    assert!(!Rule::<Op>::Leaf.check_fits(1, 1));
    assert!(Rule::<Op>::Parameter(0).check_fits(0, 1));
    assert!(!Rule::<Op>::Parameter(0).check_fits(0, 2));
    assert!(Rule::<Op>::Bridge.check_fits(0, 1));
    assert!(Rule::<Op>::Add(Add).check_fits(3, 1));
    assert!(!Rule::<Op>::Add(Add).check_fits(0, 1));
    assert!(!Rule::<Op>::Add(Add).check_fits(2, 2));
    assert!(Rule::<Op>::Neg(Neg).check_fits(1, 1));
    assert!(Rule::<Op>::Mul(Mul).check_fits(2, 1));
    assert!(!Rule::<Op>::Mul(Mul).check_fits(1, 1));
    assert!(Rule::<Op>::Exp(Exp).check_fits(1, 1));
    assert!(Rule::<Op>::Sin(Sin).check_fits(1, 1));
    assert!(!Rule::<Op>::Cos(Cos).check_fits(0, 1));
    assert!(Rule::<Op>::Square(Square).check_fits(1, 1));
    assert!(!Rule::<Op>::Neg(Neg).check_fits(2, 1));
    assert!(Rule::<Op>::Sum(Sum::new(vec![0], false)).check_fits(1, 1));
    assert!(Rule::<Op>::Broadcast(Broadcast::new(vec![2])).check_fits(1, 1));
    assert!(Rule::<Op>::Reshape(Reshape::new(vec![2])).check_fits(1, 1));
    assert!(!Rule::<Op>::Transpose(Transpose::new(vec![0])).check_fits(1, 0));
    assert!(Rule::<Op>::Custom(Op::Split).check_fits(5, 7));
}

#[test]
fn node_attributes() {
    let mut g = new_graph();
    let x = g.new_node(array(&[2, 3], vec![0.; 6]));
    assert_eq!(g.shape(x), vec![2, 3]);
    assert_eq!(g.rank(x), 2);
    assert_eq!(g.get_gradient(x), None);
    assert_eq!(*g.get_name(x), None);
    g.set_name(x, String::from("x"));
    assert_eq!(*g.get_name(x), Some(String::from("x")));
    let grad = g.new_node(array(&[2, 3], vec![1.; 6]));
    g.set_gradient(x, grad);
    assert_eq!(g.get_gradient(x), Some(grad));
    let other = g.new_node(array(&[2, 3], vec![2.; 6]));
    g.set_gradient(x, other);
    assert_eq!(g.get_gradient(x), Some(other));
    let s = g.new_node(scalar(1.0));
    assert_eq!(g.shape(s), Vec::<usize>::new());
    assert_eq!(g.rank(s), 0);
    assert_eq!(g.kernel().shape(g.value(s)), Vec::<usize>::new());
}

#[test]
fn node_backward_stores_gradients_in_leaves() {
    let mut g = new_graph();
    let a = g.new_node(scalar(3.0));
    let b = backprop(&mut g, scalar(2.0));
    let product = call(&mut g, Op::Mul, &[a, b]);
    let y = Neg.call(&mut g, &[product])[0];
    g.backward(y, false).unwrap();
    assert_eq!(item(&g, g.get_gradient(y).unwrap()), 1.0);
    assert_eq!(item(&g, g.get_gradient(a).unwrap()), -2.0);
    // b has a creator (the mark), so it is no leaf and nothing is stored in it.
    assert_eq!(g.get_gradient(b), None);
    assert_eq!(g.get_gradient(product), None);
}

#[test]
fn collect_variables_lists_inputs() {
    let mut g = new_graph();
    let x = g.new_node(scalar(1.0));
    let y = g.new_node(scalar(2.0));
    let s = add(&mut g, x, x);
    let t = add(&mut g, s, y);
    let vars = collect_variables(&g, vec![t]).unwrap();
    // Inputs of the call that made t, then of the call that made s;
    // the repeated x is listed once.
    assert_eq!(vars, vec![s, y, x]);
    assert_eq!(collect_variables(&g, vec![x]), Ok(Vec::<usize>::new()));
    assert_eq!(ruzero::walk::dedup(&vec![1, 1, 2, 1, 1, 1, 3, 3]), vec![1, 2, 1, 3]);
    assert_eq!(ruzero::walk::dedup(&vec![]), Vec::<usize>::new());
    let mut stack = vec![1, 2];
    ruzero::walk::push_all(&mut stack, &vec![3, 4]);
    assert_eq!(stack, vec![1, 2, 3, 4]);
}

#[test]
fn collect_follows_outputs_too() {
    let mut g = new_graph();
    let x = backprop(&mut g, scalar(1.0));
    let outs = call_many(&mut g, Op::Split, &[x]);
    // Starting from one output, its sibling is visited and the call is listed once.
    let calls = collect_function_calls(&g, vec![outs[1], outs[0]]).unwrap();
    assert_eq!(calls.len(), 2);
    assert_eq!(collect_function_calls(&g, vec![]).unwrap().len(), 0);
    let lone = g.new_node(scalar(0.0));
    assert_eq!(collect_function_calls(&g, vec![lone, lone]).unwrap().len(), 0);
}

#[test]
fn negation_and_its_gradient() {
    let mut g = new_graph();
    let x = g.new_node(array(&[2], vec![1., -2.]));
    let y = Neg.call(&mut g, &[x])[0];
    assert_eq!(g.value(y), &array(&[2], vec![-1., 2.]));
    assert_eq!(Neg.forward(&g, &[x]), array(&[2], vec![-1., 2.]));
    let grads = gradients(&mut g, &[y], &[x], false);
    assert_eq!(g.value(grads[0]), &array(&[2], vec![-1., -1.]));
}

#[test]
fn broadcast_add_reduces_gradient() {
    let mut g = new_graph();
    let a = g.new_node(array(&[2, 3], vec![1., 2., 3., 4., 5., 6.]));
    let b = g.new_node(array(&[3], vec![10., 20., 30.]));
    let c = g.new_node(array(&[2, 1], vec![100., 200.]));
    let y = multi_add(&mut g, &[a, b, c]);
    assert_eq!(g.value(y), &array(&[2, 3], vec![111., 122., 133., 214., 225., 236.]));
    assert_eq!(Add.forward(&g, &[a, b]), array(&[2, 3], vec![11., 22., 33., 14., 25., 36.]));
    let grads = gradients(&mut g, &[y], &[a, b, c], false);
    assert_eq!(g.value(grads[0]), &array(&[2, 3], vec![1.; 6]));
    assert_eq!(g.value(grads[1]), &array(&[3], vec![2.; 3]));
    assert_eq!(g.value(grads[2]), &array(&[2, 1], vec![3.; 2]));
}

#[test]
fn sum_to_reduces_and_reshapes() {
    let mut g = new_graph();
    let x = g.new_node(array(&[2, 3], vec![1., 2., 3., 4., 5., 6.]));
    let same = sum_to(&mut g, x, &[2, 3]);
    assert_eq!(same, x);
    let columns = sum_to(&mut g, x, &[3]);
    assert_eq!(g.value(columns), &array(&[3], vec![5., 7., 9.]));
    let rows = sum_to(&mut g, x, &[2, 1]);
    assert_eq!(g.value(rows), &array(&[2, 1], vec![6., 15.]));
    let all = sum_to(&mut g, x, &[]);
    assert_eq!(item(&g, all), 21.0);
}

#[test]
fn sum_gradient_is_broadcast_back() {
    let mut g = new_graph();
    let x = g.new_node(array(&[2, 3], vec![1., 2., 3., 4., 5., 6.]));
    let y = Sum::new(vec![0], false).call(&mut g, &[x])[0];
    let grads = gradients(&mut g, &[y], &[x], false);
    assert_eq!(g.value(grads[0]), &array(&[2, 3], vec![1.; 6]));
    let kept = Sum::new(vec![1], true).call(&mut g, &[x])[0];
    assert_eq!(g.value(kept), &array(&[2, 1], vec![6., 15.]));
    let grads = gradients(&mut g, &[kept], &[x], false);
    assert_eq!(g.value(grads[0]), &array(&[2, 3], vec![1.; 6]));
    let everything = Sum::new(vec![0, 1], false).call(&mut g, &[x])[0];
    assert_eq!(item(&g, everything), 21.0);
    let copy = Sum::new(vec![0, 1], true).copy();
    assert_eq!(copy.axes, vec![0, 1]);
    assert!(copy.keep_dim);
    assert_eq!(copy.forward(&g, &[x]), array(&[1, 1], vec![21.]));
}

#[test]
fn broadcast_and_its_gradient() {
    let mut g = new_graph();
    let x = g.new_node(array(&[3], vec![1., 2., 3.]));
    let y = Broadcast::new(vec![2, 3]).call(&mut g, &[x])[0];
    assert_eq!(g.value(y), &array(&[2, 3], vec![1., 2., 3., 1., 2., 3.]));
    let grads = gradients(&mut g, &[y], &[x], false);
    assert_eq!(g.value(grads[0]), &array(&[3], vec![2.; 3]));
    let copy = Broadcast::new(vec![2, 3]).copy();
    assert_eq!(copy.shape, vec![2, 3]);
    assert_eq!(copy.forward(&g, &[x]), array(&[2, 3], vec![1., 2., 3., 1., 2., 3.]));
}

#[test]
fn reshape_and_its_gradient() {
    let mut g = new_graph();
    let x = g.new_node(array(&[2, 3], vec![1., 2., 3., 4., 5., 6.]));
    let y = reshape(&mut g, x, vec![6]);
    assert_eq!(g.value(y), &array(&[6], vec![1., 2., 3., 4., 5., 6.]));
    let z = Neg.call(&mut g, &[y])[0];
    let grads = gradients(&mut g, &[z], &[x], false);
    assert_eq!(g.value(grads[0]), &array(&[2, 3], vec![-1.; 6]));
    let copy = Reshape::new(vec![3, 2]).copy();
    assert_eq!(copy.shape, vec![3, 2]);
    assert_eq!(copy.forward(&g, &[x]), array(&[3, 2], vec![1., 2., 3., 4., 5., 6.]));
}

#[test]
fn transpose_and_its_gradient() {
    let mut g = new_graph();
    let x = g.new_node(array(&[2, 3], vec![1., 2., 3., 4., 5., 6.]));
    let y = transpose(&mut g, x, vec![1, 0]);
    assert_eq!(g.shape(y), vec![3, 2]);
    assert_eq!(g.value(y), &array(&[3, 2], vec![1., 4., 2., 5., 3., 6.]));
    let weights = g.new_node(array(&[3, 2], vec![1., 2., 3., 4., 5., 6.]));
    let z = call(&mut g, Op::Mul, &[y, weights]);
    let grads = gradients(&mut g, &[z], &[x], false);
    assert_eq!(g.value(grads[0]), &array(&[2, 3], vec![1., 3., 5., 2., 4., 6.]));

    let t = Transpose::new(vec![1, 2, 0]);
    let cube = g.new_node(ArrayD::zeros(IxDyn(&[4, 5, 6])));
    assert_eq!(t.forward(&g, &[cube]).shape(), &[5, 6, 4]);
    assert_eq!(t.inverse().forward(&g, &[cube]).shape(), &[6, 4, 5]);
    assert_eq!(t.copy().forward(&g, &[cube]).shape(), &[5, 6, 4]);
}

#[test]
fn rules_are_run_by_backward_of() {
    let mut g = new_graph();
    let x = g.new_node(scalar(2.0));
    let y = g.new_node(scalar(5.0));
    let z = call(&mut g, Op::Mul, &[x, y]);
    let made = g.creator(z).unwrap();
    let gz = g.new_node(scalar(1.0));
    let gxs = backward_of(&mut g, made, &[gz]);
    assert_eq!(gxs.len(), 2);
    assert_eq!(item(&g, gxs[0]), 5.0);
    assert_eq!(item(&g, gxs[1]), 2.0);

    let root = backprop(&mut g, scalar(1.0));
    let marker = g.creator(root).unwrap();
    assert_eq!(backward_of(&mut g, marker, &[gz]).len(), 0);

    let s = multi_add(&mut g, &[x, y, root]);
    let made = g.creator(s).unwrap();
    let gxs = backward_of(&mut g, made, &[gz]);
    assert_eq!(gxs, vec![gz, gz, gz]);
}

#[test]
fn call_returns_the_last_output() {
    let mut g = new_graph();
    let x = g.new_node(scalar(2.0));
    let outs = call_many(&mut g, Op::Split, &[x]);
    assert_eq!(outs, vec![1, 2]);
    assert_eq!(item(&g, outs[0]), 2.0);
    assert_eq!(item(&g, outs[1]), -2.0);
    let last = call(&mut g, Op::Split, &[x]);
    assert_eq!(last, 4);
    assert_eq!(item(&g, last), -2.0);
    let made = g.creator(last).unwrap();
    assert_eq!(g.function_call(made).get_ys(&g), vec![3, 4]);
    assert!(matches!(g.function_call(made).backward, Rule::Custom(Op::Split)));
}

#[test]
fn table_steps() {
    let mut g = new_graph();
    let a = g.new_node(scalar(1.0));
    let b = g.new_node(array(&[2], vec![0., 0.]));
    let mut table = seed(&mut g, &[a, b], false);
    assert_eq!(table.len(), 2);
    let seed_a = table[&a];
    let seed_b = table[&b];
    assert_eq!(item(&g, seed_a), 1.0);
    assert_eq!(g.value(seed_b), &array(&[2], vec![1., 1.]));
    assert!(g.is_leaf(seed_a));

    assert_eq!(gather(&table, &[b, a]), Ok(vec![seed_b, seed_a]));
    assert_eq!(gather(&table, &[b, 77, a, 78]), Err(77));
    assert_eq!(gather(&table, &[]), Ok(vec![]));

    // a: a second contribution is added to the first; c: two contributions in one go.
    let c = g.new_node(scalar(0.0));
    let two = g.new_node(scalar(2.0));
    let three = g.new_node(scalar(3.0));
    let four = g.new_node(scalar(4.0));
    let before = g.node_count();
    accumulate(&mut g, &mut table, &[a, c, c], &[two, three, four], false);
    assert_eq!(g.node_count(), before + 2);
    assert_eq!(table[&a], before);
    assert_eq!(table[&c], before + 1);
    assert_eq!(item(&g, table[&a]), 3.0);
    assert_eq!(item(&g, table[&c]), 7.0);
    assert_eq!(table[&b], seed_b);
    assert!(g.is_leaf(table[&a]));

    let before = g.node_count();
    accumulate(&mut g, &mut table, &[a], &[two], true);
    assert_eq!(table[&a], before);
    assert_eq!(item(&g, table[&a]), 5.0);
    assert!(!g.is_leaf(table[&a]));

    release(&mut table, &[a, b, 99], &[b]);
    assert_eq!(table.len(), 2);
    assert!(table.contains_key(&b) && table.contains_key(&c) && !table.contains_key(&a));

    assert!(has_all_nodes(&g, &[a, b, c]));
    assert!(!has_all_nodes(&g, &[a, g.node_count()]));
    assert!(has_all_nodes(&g, &[]));

    let y = Neg.call(&mut g, &[a])[0];
    let z = Neg.call(&mut g, &[y])[0];
    detach(&mut g, &[y, z]);
    assert!(g.is_leaf(y) && g.is_leaf(z));

    let traced = seed(&mut g, &[a], true);
    assert!(!g.is_leaf(traced[&a]));
}

#[test]
fn propagate_releases_intermediates() {
    let mut g = new_graph();
    let x = g.new_node(scalar(1.0));
    let y = Neg.call(&mut g, &[x])[0];
    let z = Neg.call(&mut g, &[y])[0];
    let order = sort_for_backward(&g, collect_function_calls(&g, vec![z]).unwrap());
    let mut table: HashMap<usize, usize> = seed(&mut g, &[z], false);
    assert!(propagate(&mut g, &order, &mut table, &[x], false).is_ok());
    // Only the target is left: the gradients of z and y were dropped on the way.
    assert_eq!(table.len(), 1);
    assert_eq!(item(&g, table[&x]), 1.0);

    let mut table: HashMap<usize, usize> = seed(&mut g, &[z], false);
    assert!(propagate(&mut g, &order, &mut table, &[y, z], false).is_ok());
    assert_eq!(table.len(), 3);
    assert_eq!(item(&g, table[&y]), -1.0);
}

#[test]
fn product_and_its_gradients() {
    let mut g = new_graph();
    let a = g.new_node(scalar(3.0));
    let b = g.new_node(scalar(2.0));
    let y = Mul.call(&mut g, &[a, b])[0];
    assert_eq!(item(&g, y), 6.0);
    assert_eq!(Mul.forward(&g, &[a, b]), scalar(6.0));
    let grads = gradients(&mut g, &[y], &[a, b], false);
    assert_eq!(item(&g, grads[0]), 2.0);
    assert_eq!(item(&g, grads[1]), 3.0);

    // With broadcasting, each gradient has the shape of its input.
    let m = g.new_node(array(&[2, 3], vec![1., 2., 3., 4., 5., 6.]));
    let v = g.new_node(array(&[3], vec![10., 20., 30.]));
    let y = Mul.call(&mut g, &[m, v])[0];
    assert_eq!(g.value(y), &array(&[2, 3], vec![10., 40., 90., 40., 100., 180.]));
    let grads = gradients(&mut g, &[y], &[m, v], false);
    assert_eq!(g.value(grads[0]), &array(&[2, 3], vec![10., 20., 30., 10., 20., 30.]));
    assert_eq!(g.value(grads[1]), &array(&[3], vec![5., 7., 9.]));
}

#[test]
fn square_and_its_gradient() {
    let mut g = new_graph();
    let x = g.new_node(scalar(3.0));
    let y = Square.call(&mut g, &[x])[0];
    assert_eq!(item(&g, y), 9.0);
    assert_eq!(Square.forward(&g, &[x]), scalar(9.0));
    let grads = gradients(&mut g, &[y], &[x], false);
    assert_eq!(item(&g, grads[0]), 6.0);
    // The second derivative of x * x is 2.
    let first = gradients(&mut g, &[y], &[x], true);
    let second = gradients(&mut g, &[first[0]], &[x], false);
    assert_eq!(item(&g, second[0]), 2.0);
}

#[test]
fn exponential_and_its_gradient() {
    let mut g = new_graph();
    let x = g.new_node(scalar(0.0));
    let y = Exp.call(&mut g, &[x])[0];
    assert_eq!(item(&g, y), 1.0);
    assert_eq!(Exp.forward(&g, &[x]), scalar(1.0));
    let grads = gradients(&mut g, &[y], &[x], false);
    assert_eq!(item(&g, grads[0]), 1.0);
    let one = g.new_node(scalar(1.0));
    let e = Exp.call(&mut g, &[one])[0];
    assert!((item(&g, e) - std::f32::consts::E).abs() < 1e-6);
}

#[test]
fn sine_cosine_and_their_gradients() {
    let mut g = new_graph();
    let x = g.new_node(scalar(0.0));
    let s = Sin.call(&mut g, &[x])[0];
    let c = Cos.call(&mut g, &[x])[0];
    assert_eq!(item(&g, s), 0.0);
    assert_eq!(item(&g, c), 1.0);
    assert_eq!(Sin.forward(&g, &[x]), scalar(0.0));
    assert_eq!(Cos.forward(&g, &[x]), scalar(1.0));
    let ds = gradients(&mut g, &[s], &[x], false);
    assert_eq!(item(&g, ds[0]), 1.0);
    let dc = gradients(&mut g, &[c], &[x], false);
    assert_eq!(item(&g, dc[0]), 0.0);
    // The third derivative of sin at 0 is -cos(0).
    let first = gradients(&mut g, &[s], &[x], true);
    let second = gradients(&mut g, &[first[0]], &[x], true);
    let third = gradients(&mut g, &[second[0]], &[x], false);
    assert_eq!(item(&g, third[0]), -1.0);
}

#[test]
fn absorb_checks_what_a_rule_returned() {
    let mut g = new_graph();
    let x = g.new_node(scalar(1.0));
    let y = g.new_node(scalar(2.0));
    let gy = g.new_node(scalar(1.0));
    let gx = Neg.call(&mut g, &[gy])[0];
    let mut table: HashMap<usize, usize> = HashMap::new();
    table.insert(y, gy);

    let unknown = g.node_count();
    assert_eq!(
        absorb(&mut g, &mut table, 5, &[x], &[y], &[unknown], &[x], false),
        Err(BackwardError::UnknownGradient { call: 5 })
    );
    assert_eq!(
        absorb(&mut g, &mut table, 5, &[x], &[y], &[gx, gx], &[x], false),
        Err(BackwardError::ArityMismatch { call: 5, inputs: 1, gradients: 2 })
    );
    assert_eq!(
        absorb(&mut g, &mut table, 5, &[x], &[y], &[], &[x], false),
        Err(BackwardError::ArityMismatch { call: 5, inputs: 1, gradients: 0 })
    );
    // An unknown handle is reported before a wrong count.
    assert_eq!(
        absorb(&mut g, &mut table, 5, &[x], &[y], &[gx, unknown], &[x], false),
        Err(BackwardError::UnknownGradient { call: 5 })
    );
    assert_eq!(table.len(), 1);
    assert!(!g.is_leaf(gx));

    assert_eq!(absorb(&mut g, &mut table, 5, &[x], &[y], &[gx], &[x], false), Ok(()));
    assert!(g.is_leaf(gx));
    assert_eq!(table.len(), 1);
    assert_eq!(table[&x], gx);

    // With create_graph the gradient keeps its creator and the sum is recorded.
    let again = Neg.call(&mut g, &[gy])[0];
    let calls = g.call_count();
    assert_eq!(absorb(&mut g, &mut table, 5, &[x], &[], &[again], &[], true), Ok(()));
    assert!(!g.is_leaf(again));
    assert_eq!(g.call_count(), calls + 1);
    let sum = g.function_call(calls);
    assert!(matches!(sum.backward, Rule::Add(_)));
    assert_eq!(sum.get_xs(), vec![gx, again]);
    assert_eq!(sum.get_ys(&g), vec![table[&x]]);
    assert_eq!(item(&g, table[&x]), -2.0);
}

#[test]
fn recording_results() {
    let mut g = new_graph();
    let x = g.new_node(scalar(1.0));
    let y = record(&mut g, &[x], scalar(5.0), Rule::Neg(Neg), true);
    assert_eq!(y, 1);
    assert_eq!(item(&g, y), 5.0);
    assert_eq!(g.creator(y), Some(0));
    assert_eq!(g.function_call(0).get_xs(), vec![x]);
    assert_eq!(g.function_call(0).get_ys(&g), vec![y]);
    let z = record(&mut g, &[x], scalar(6.0), Rule::Neg(Neg), false);
    assert_eq!(z, 2);
    assert!(g.is_leaf(z));
    assert_eq!(g.call_count(), 1);

    let outs = record_many(
        &mut g,
        &[x, y],
        vec![scalar(7.0), scalar(8.0), scalar(9.0)],
        Rule::Custom(Op::Split),
        true,
    );
    assert_eq!(outs, vec![3, 4, 5]);
    assert_eq!(item(&g, 3), 7.0);
    assert_eq!(item(&g, 4), 8.0);
    assert_eq!(item(&g, 5), 9.0);
    for out in outs.iter() {
        assert_eq!(g.creator(*out), Some(1));
        assert_eq!(g.get_gradient(*out), None);
    }
    assert_eq!(g.function_call(1).get_xs(), vec![x, y]);
    assert_eq!(g.function_call(1).get_ys(&g), vec![3, 4, 5]);
    let loose = record_many(&mut g, &[x], vec![scalar(1.0), scalar(2.0)], Rule::Custom(Op::Split), false);
    assert_eq!(loose, vec![6, 7]);
    assert_eq!(item(&g, 7), 2.0);
    assert!(g.is_leaf(6) && g.is_leaf(7));
    assert_eq!(g.call_count(), 2);
    let nothing = record_many(&mut g, &[x], vec![], Rule::Custom(Op::Split), true);
    assert_eq!(nothing, Vec::<usize>::new());
    assert_eq!(g.call_count(), 3);
}

fn alive_nodes(g: &G) -> Vec<usize> {
    (0..g.node_count()).filter(|n| g.is_alive(*n)).collect()
}

#[test]
fn sweep_releases_what_is_not_in_use() {
    let mut g = new_graph();
    let x = g.new_node(scalar(1.0));
    let y = Neg.call(&mut g, &[x])[0];
    let z = Neg.call(&mut g, &[y])[0];
    let aside = g.new_node(scalar(5.0));
    let grad = g.new_node(scalar(7.0));
    g.set_gradient(x, grad);
    assert_eq!(alive_nodes(&g), vec![x, y, z, aside, grad]);

    // Holding z keeps what z was made from, and the gradient stored in x.
    g.sweep(&[z]);
    assert_eq!(alive_nodes(&g), vec![x, y, z, grad]);
    assert!(!g.is_alive(aside));
    assert_eq!(g.node_count(), 5);
    assert_eq!(item(&g, z), 1.0);
    assert_eq!(g.creator(z), g.creator(z).filter(|_| true));
    assert_eq!(g.get_gradient(x), Some(grad));

    // Holding y alone releases z: being an output keeps nothing alive.
    let made_y = g.creator(y).unwrap();
    let made_z = g.creator(z).unwrap();
    g.sweep(&[y]);
    assert_eq!(alive_nodes(&g), vec![x, y, grad]);
    assert_eq!(g.creator(z), None);
    assert_eq!(g.node(z).value, None);
    // The call that made z goes with it; the call that made y stays.
    assert_eq!(g.call_count(), 2);
    assert!(matches!(g.function_call(made_z).backward, Rule::Leaf));
    assert_eq!(g.function_call(made_z).get_xs(), Vec::<usize>::new());
    assert_eq!(g.function_call(made_z).ys, Vec::<usize>::new());
    assert!(matches!(g.function_call(made_y).backward, Rule::Neg(_)));
    assert_eq!(g.function_call(made_y).get_xs(), vec![x]);
    assert_eq!(g.function_call(made_y).get_ys(&g), vec![y]);

    // A released handle holds nothing, and a handle may be given twice.
    g.sweep(&[z, x, x]);
    assert_eq!(alive_nodes(&g), vec![x, grad]);
    g.sweep(&[]);
    assert_eq!(alive_nodes(&g), Vec::<usize>::new());
    assert!(!g.is_alive(99));

    // Handles are not given out again.
    let fresh = g.new_node(scalar(1.0));
    assert_eq!(fresh, 5);
}

#[test]
fn pass_leaves_no_garbage() {
    let mut g = new_graph();
    let a = g.new_node(scalar(3.0));
    let b = g.new_node(scalar(2.0));
    let product = Mul.call(&mut g, &[a, b])[0];
    let y = Exp.call(&mut g, &[product])[0];
    let before = g.node_count();

    let grads = gradients(&mut g, &[y], &[a], false);
    assert!(g.node_count() > before + 1);
    assert!(grads[0] >= before);
    for n in 0..before {
        assert!(g.is_alive(n));
    }

    g.sweep(&[y, grads[0]]);
    // Of what the pass added only the returned gradient is left.
    assert_eq!(alive_nodes(&g), vec![a, b, product, y, grads[0]]);
    assert!((item(&g, grads[0]) - 2.0 * 6.0f32.exp()).abs() < 1e-2);

    // With create_graph the gradient keeps what it was computed from.
    let traced = gradients(&mut g, &[y], &[a], true);
    g.sweep(&[y, traced[0]]);
    assert!(alive_nodes(&g).len() > 5);
    assert!(!g.is_alive(grads[0]));
    let second = gradients(&mut g, &[traced[0]], &[a], false);
    assert!((item(&g, second[0]) - 4.0 * 6.0f32.exp()).abs() < 1e-1);
}

#[test]
fn released_output_is_reported() {
    let mut g = new_graph();
    let x = g.new_node(scalar(1.0));
    let outs = call_many(&mut g, Op::Split, &[x]);
    let made = g.creator(outs[0]).unwrap();
    let y = Neg.call(&mut g, &[outs[0]])[0];
    // Only y is held: the second output of the split is released while
    // the split itself is still needed.
    g.sweep(&[y]);
    assert!(g.is_alive(x) && g.is_alive(outs[0]) && !g.is_alive(outs[1]));

    assert_eq!(
        collect_function_calls(&g, vec![y]),
        Err(Released { call: made, node: outs[1] })
    );
    assert_eq!(
        collect_variables(&g, vec![y]),
        Err(Released { call: made, node: outs[1] })
    );
    assert_eq!(
        try_gradients(&mut g, &[y], &[x], false),
        Err(BackwardError::Released { call: made, node: outs[1] })
    );
    assert_eq!(g.backward(y, false), Err(BackwardError::Released { call: made, node: outs[1] }));
    assert_eq!(
        optimize(&mut g, y),
        Err(BackwardError::Released { call: made, node: outs[1] })
    );
    assert!(!has_all_nodes(&g, &[x, outs[1]]));
    // A released node is no gradient either.
    let mut table: HashMap<usize, usize> = HashMap::new();
    assert_eq!(
        absorb(&mut g, &mut table, made, &[x], &[], &[outs[1]], &[], false),
        Err(BackwardError::UnknownGradient { call: made })
    );
}
