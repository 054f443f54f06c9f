use rand::rngs::StdRng;
use rand::{Rng, SeedableRng};
use tapegrad::layer::Layer;
use tapegrad::mlp::{loss, MLP};
use tapegrad::neuron::Neuron;
use tapegrad::node::{Node, Op};
use tapegrad::scalar::Scalar;
use tapegrad::state::State;

#[derive(Clone, Copy, Debug, PartialEq)]
struct G(f32);

impl Scalar for G {
    fn zero_value() -> G {
        G(0.0)
    }
    fn one_value() -> G {
        G(1.0)
    }
    fn sum(a: G, b: G) -> G {
        G(a.0 + b.0)
    }
    fn difference(a: G, b: G) -> G {
        G(a.0 - b.0)
    }
    fn product(a: G, b: G) -> G {
        G(a.0 * b.0)
    }
    fn quotient(a: G, b: G) -> G {
        G(a.0 / b.0)
    }
    fn exponential(a: G) -> G {
        G(a.0.exp())
    }
    fn power(a: G, n: G) -> G {
        G(a.0.powf(n.0))
    }
    fn zero() -> G {
        Self::zero_value()
    }
    fn one() -> G {
        Self::one_value()
    }
    fn plus(&self, other: &G) -> G {
        Self::sum(*self, *other)
    }
    fn minus(&self, other: &G) -> G {
        Self::difference(*self, *other)
    }
    fn times(&self, other: &G) -> G {
        Self::product(*self, *other)
    }
    fn divided_by(&self, other: &G) -> G {
        Self::quotient(*self, *other)
    }
    fn exp(&self) -> G {
        Self::exponential(*self)
    }
    fn powf(&self, exponent: &G) -> G {
        Self::power(*self, *exponent)
    }
    fn text(&self) -> String {
        self.0.to_string()
    }
}

/// Initial values for a network, drawn uniformly from (-1, 1) with a fixed seed.
fn seeded(n_in: u32, sizes: &Vec<u32>, seed: u64) -> Vec<G> {
    let mut rng = StdRng::seed_from_u64(seed);
    let count = MLP::count_parameters(n_in, sizes).unwrap();
    (0..count).map(|_| G(rng.gen_range(-1.0..1.0))).collect()
}

/// `count` values counting up from 1/8 in steps of 1/8.
fn counting(count: usize) -> Vec<G> {
    (0..count).map(|k| G((k + 1) as f32 * 0.125)).collect()
}

fn network(n_in: u32, sizes: Vec<u32>, values: &Vec<G>, state: &mut State<G>) -> MLP {
    MLP::new(n_in, sizes, state, values)
}

fn samples() -> (Vec<Vec<(G, &'static str)>>, Vec<G>) {
    let xs = vec![
        vec![(G(2.0), "x11"), (G(3.0), "x12"), (G(-1.0), "x13")],
        vec![(G(3.0), "x21"), (G(-1.0), "x22"), (G(0.5), "x23")],
        vec![(G(0.5), "x31"), (G(1.0), "x32"), (G(1.0), "x33")],
        vec![(G(1.0), "x41"), (G(1.0), "x42"), (G(-1.0), "x43")],
    ];
    let ys = vec![G(1.0), G(-1.0), G(-1.0), G(1.0)];
    (xs, ys)
}

fn tanh_f(x: f32) -> f32 {
    ((2.0 * x).exp() - 1.0) / ((2.0 * x).exp() + 1.0)
}

#[test]
fn neuron_new_appends_weights_then_bias() {
    let mut state: State<G> = State::new();
    let n = Neuron::new(3, String::from("n"), &mut state, &counting(4), 0);
    assert_eq!(n.weights, vec![0, 1, 2]);
    assert_eq!(n.bias, 3);
    assert_eq!(state.len(), 4);
    assert_eq!(state.names[0], "nw1");
    assert_eq!(state.names[2], "nw3");
    assert_eq!(state.names[3], "nb");
    assert_eq!(state.data(0), G(0.125));
    assert_eq!(state.data(3), G(0.5));
    for i in 0..4 {
        assert!(state.nodes[i].parameter);
        assert!(matches!(state.nodes[i].op, Op::End));
    }
}

#[test]
fn neuron_apply_builds_checkpointed_tanh() {
    let mut state: State<G> = State::new();
    let n = Neuron::new(2, String::from("n"), &mut state, &counting(3), 0);
    let x0 = Node::new(G(2.0), String::from("a"), false, &mut state);
    let x1 = Node::new(G(-1.0), String::from("b"), false, &mut state);
    let before = state.len();
    let out = n.apply(&vec![x0, x1], &mut state);
    assert_eq!(state.len(), before + 2 * 2 + 2);
    assert_eq!(out, state.len() - 1);
    assert!(matches!(state.nodes[out].op, Op::Pass(_)));
    assert!(matches!(state.nodes[out - 1].op, Op::Tanh(_)));
    assert_eq!(state.names[out], "Checkpoint(n)");
    let expected = tanh_f(0.125 * 2.0 + 0.25 * -1.0 + 0.375);
    assert_eq!(state.data(out), G(expected));
    assert_eq!(n.eval(&vec![G(2.0), G(-1.0)], &state), G(expected));
}

#[test]
fn layer_new_and_apply() {
    let mut state: State<G> = State::new();
    let layer = Layer::new(2, 3, String::from("ins"), &mut state, &counting(9), 0);
    assert_eq!(layer.neurons.len(), 3);
    assert_eq!(state.len(), 9);
    assert_eq!(layer.neurons[0].name, "linsn0");
    assert_eq!(layer.neurons[2].name, "linsn2");
    assert_eq!(layer.neurons[1].weights, vec![3, 4]);
    assert_eq!(layer.neurons[1].bias, 5);
    let a = Node::new(G(1.0), String::from("a"), false, &mut state);
    let b = Node::new(G(0.5), String::from("b"), false, &mut state);
    let outs = layer.apply(&vec![a, b], &mut state);
    assert_eq!(outs.len(), 3);
    let vals = layer.eval(&vec![G(1.0), G(0.5)], &state);
    for k in 0..3 {
        assert_eq!(state.data(outs[k]), vals[k]);
    }
}

#[test]
fn mlp_counts_and_places_parameters() {
    let mut state: State<G> = State::new();
    assert_eq!(MLP::count_parameters(3, &vec![4, 4, 1]), Some(41));
    let mlp = network(3, vec![4, 4, 1], &seeded(3, &vec![4, 4, 1], 7), &mut state);
    assert_eq!(mlp.n_inputs(), 3);
    assert_eq!(mlp.n_parameters(), 4 * 4 + 4 * 5 + 1 * 5);
    assert_eq!(state.len(), 41);
    for i in 0..41 {
        assert!(state.nodes[i].parameter);
    }
}

#[test]
fn state_vector_lists_outermost_layer_first() {
    let mut state: State<G> = State::new();
    let mlp = network(1, vec![2, 1], &counting(7), &mut state);
    // Tape: first layer n0 (w 0, b 1), n1 (w 2, b 3); output neuron (w 4, 5, b 6).
    let values = mlp.get_state(&state);
    let expected: Vec<G> = [6usize, 4, 5, 1, 0, 3, 2].iter().map(|&i| state.data(i)).collect();
    assert_eq!(values, expected);
}

#[test]
fn get_then_set_state_changes_nothing() {
    let mut state: State<G> = State::new();
    let mlp = network(3, vec![4, 4, 1], &seeded(3, &vec![4, 4, 1], 11), &mut state);
    let before: Vec<G> = (0..state.len()).map(|i| state.data(i)).collect();
    let snapshot = mlp.get_state(&state);
    mlp.set_state(snapshot.clone(), &mut state);
    let after: Vec<G> = (0..state.len()).map(|i| state.data(i)).collect();
    assert_eq!(before, after);
    assert_eq!(mlp.get_state(&state), snapshot);
}

#[test]
fn set_state_overwrites_values_in_order() {
    let mut state: State<G> = State::new();
    let mlp = network(1, vec![2, 1], &counting(7), &mut state);
    let w: Vec<G> = (0..7).map(|k| G(k as f32 * -1.0)).collect();
    state.nodes[6].grad = G(0.75);
    mlp.set_state(w.clone(), &mut state);
    assert_eq!(mlp.get_state(&state), w);
    assert_eq!(state.data(6), G(0.0));
    assert_eq!(state.data(4), G(-1.0));
    assert_eq!(state.grad(6), G(0.75));
}

#[test]
fn parameter_count_refuses_an_overflow() {
    assert_eq!(MLP::count_parameters(2, &vec![1]), Some(3));
    assert_eq!(MLP::count_parameters(1, &vec![3, 0, 2]), Some(6 + 0 + 2));
    assert_eq!(MLP::count_parameters(u32::MAX, &vec![u32::MAX, u32::MAX, u32::MAX, u32::MAX]), None);
}

#[test]
fn new_places_initial_values_in_order() {
    let mut state: State<G> = State::new();
    let values = counting(41);
    let mlp = network(3, vec![4, 4, 1], &values, &mut state);
    for i in 0..41 {
        assert_eq!(state.data(i), values[i]);
        assert_eq!(state.grad(i), G(0.0));
    }
    assert_eq!(mlp.get_state(&state)[0], values[40]);
}

#[test]
fn loss_sums_squared_errors() {
    let mut state: State<G> = State::new();
    let a = Node::new(G(3.0), String::from("a"), false, &mut state);
    let b = Node::new(G(-2.0), String::from("b"), false, &mut state);
    let one = loss(&vec![G(1.0)], &vec![a], &mut state);
    assert_eq!(state.data(one), G(4.0));
    assert_eq!(state.len(), 2 + 5);
    let start = state.len();
    let two = loss(&vec![G(1.0), G(0.5)], &vec![a, b], &mut state);
    assert_eq!(state.len(), start + 6 * 2 - 1);
    assert_eq!(state.data(two), G(4.0 + 6.25));
    assert_eq!(state.data(start), G(1.0));
    assert_eq!(state.data(start + 1), G(0.5));
    assert_eq!(state.names[start], "{e:1}");
}

#[test]
fn loss_backward_gives_twice_the_error() {
    let mut state: State<G> = State::new();
    let a = Node::new(G(3.0), String::from("a"), false, &mut state);
    let l = loss(&vec![G(1.0)], &vec![a], &mut state);
    state.nodes[l].grad = G(1.0);
    tapegrad::node::back(l, &mut state);
    assert_eq!(state.grad(a), G(4.0));
}

#[test]
fn train_step_leaves_only_parameters_on_tape() {
    let mut state: State<G> = State::new();
    let mlp = network(3, vec![4, 4, 1], &seeded(3, &vec![4, 4, 1], 5), &mut state);
    let (xs, ys) = samples();
    mlp.train_step(&xs, &ys, G(0.01), &mut state);
    assert_eq!(state.len(), mlp.n_parameters());
    mlp.train_step(&xs, &ys, G(0.01), &mut state);
    assert_eq!(state.len(), mlp.n_parameters());
}

#[test]
fn train_step_moves_against_the_gradient() {
    let mut state: State<G> = State::new();
    let mlp = network(3, vec![4, 1], &seeded(3, &vec![4, 1], 9), &mut state);
    let (xs, ys) = samples();
    let before = mlp.get_state(&state);
    mlp.train_step(&xs, &ys, G(0.1), &mut state);
    let after = mlp.get_state(&state);
    let mut moved = false;
    for i in 0..state.len() {
        let pos = [20usize, 16, 17, 18, 19, 3, 0, 1, 2, 7, 4, 5, 6, 11, 8, 9, 10, 15, 12, 13, 14][i];
        let g = state.grad(pos).0;
        assert_eq!(after[i], G(before[i].0 - g * 0.1));
        moved = moved || g != 0.0;
    }
    assert!(moved);
}

#[test]
fn train_reports_after_last_round() {
    let mut state: State<G> = State::new();
    let mlp = network(3, vec![4, 4, 1], &seeded(3, &vec![4, 4, 1], 1), &mut state);
    let (xs, ys) = samples();
    let report = mlp.train(&xs, &ys, 1, G(0.01), &mut state).unwrap();
    assert_eq!(report.outputs.len(), 4);
    let mut sum = 0.0f32;
    for (o, y) in report.outputs.iter().zip(ys.iter()) {
        sum = sum + (o.0 - y.0).powf(2.0);
    }
    assert!((report.loss.0 - sum).abs() < 1e-5);
    for (k, x) in xs.iter().enumerate() {
        let vals: Vec<G> = x.iter().map(|p| p.0).collect();
        assert_eq!(mlp.eval(&vals, &state)[0], report.outputs[k]);
    }
    assert!(mlp.train(&xs, &ys, 0, G(0.01), &mut state).is_none());
}

#[test]
fn training_lowers_the_loss() {
    let (xs, ys) = samples();
    let mut state: State<G> = State::new();
    let mlp = network(3, vec![4, 4, 1], &seeded(3, &vec![4, 4, 1], 42), &mut state);
    let start = mlp.get_state(&state);
    let untrained = mlp.train(&xs, &ys, 1, G(0.01), &mut state).unwrap().loss;
    state.truncate(mlp.n_parameters());
    mlp.set_state(start, &mut state);
    let trained = mlp.train(&xs, &ys, 1000, G(0.01), &mut state).unwrap().loss;
    assert!(trained.0 < untrained.0);
}

#[test]
fn training_rarely_raises_the_loss() {
    let (xs, ys) = samples();
    let mut lower = 0;
    for seed in 0..5u64 {
        let mut state: State<G> = State::new();
        let mlp = network(3, vec![4, 4, 1], &seeded(3, &vec![4, 4, 1], seed), &mut state);
        let first = mlp.train_step(&xs, &ys, G(0.01), &mut state);
        let mut last = first;
        for _ in 0..20 {
            last = mlp.train_step(&xs, &ys, G(0.01), &mut state);
        }
        if last.0 <= first.0 {
            lower += 1;
        }
    }
    assert!(lower >= 3);
}

#[test]
fn backprop_reaches_the_bias_through_the_checkpoint() {
    let mut state: State<G> = State::new();
    let mlp = network(1, vec![1], &vec![G(0.5), G(-0.25)], &mut state);
    let (outs, checks) = mlp.apply(&vec![(G(2.0), "x")], &mut state);
    assert_eq!(checks.len(), 1);
    let l = loss(&vec![G(0.25)], &vec![outs[0]], &mut state);
    mlp.backprop(l, &vec![checks], &mut state);
    let sum = 0.5f32 * 2.0 + -0.25;
    let y = tanh_f(sum);
    assert_eq!(state.data(outs[0]), G(y));
    let d = y + 0.25 * -1.0;
    let g = 2.0f32 * d.powf(2.0 - 1.0) * 1.0;
    assert_eq!(state.grad(outs[0]), G(g));
    let expected_bias = (1.0 - y.powf(2.0)) * g;
    assert_eq!(state.grad(1), G(expected_bias));
    assert_eq!(state.grad(0), G((2.0 * expected_bias) + 0.0));
}
