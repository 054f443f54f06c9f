use tapegrad::node::{add, back, checkpoint, exp, mul, sub, tanh, tanh_value, Node, Op};
use tapegrad::scalar::Scalar;
use tapegrad::state::State;

#[derive(Clone, Copy, Debug, PartialEq)]
struct F(f32);

impl Scalar for F {
    fn zero_value() -> F {
        F(0.0)
    }
    fn one_value() -> F {
        F(1.0)
    }
    fn sum(a: F, b: F) -> F {
        F(a.0 + b.0)
    }
    fn difference(a: F, b: F) -> F {
        F(a.0 - b.0)
    }
    fn product(a: F, b: F) -> F {
        F(a.0 * b.0)
    }
    fn quotient(a: F, b: F) -> F {
        F(a.0 / b.0)
    }
    fn exponential(a: F) -> F {
        F(a.0.exp())
    }
    fn power(a: F, n: F) -> F {
        F(a.0.powf(n.0))
    }
    fn zero() -> F {
        Self::zero_value()
    }
    fn one() -> F {
        Self::one_value()
    }
    fn plus(&self, other: &F) -> F {
        Self::sum(*self, *other)
    }
    fn minus(&self, other: &F) -> F {
        Self::difference(*self, *other)
    }
    fn times(&self, other: &F) -> F {
        Self::product(*self, *other)
    }
    fn divided_by(&self, other: &F) -> F {
        Self::quotient(*self, *other)
    }
    fn exp(&self) -> F {
        Self::exponential(*self)
    }
    fn powf(&self, exponent: &F) -> F {
        Self::power(*self, *exponent)
    }
    fn text(&self) -> String {
        self.0.to_string()
    }
}

fn leaf(state: &mut State<F>, v: f32, name: &str) -> usize {
    Node::new(F(v), String::from(name), false, state)
}

#[test]
fn leaf_holds_its_value_and_position() {
    let mut state: State<F> = State::new();
    let a = leaf(&mut state, 2.5, "a");
    let p = Node::new(F(-0.5), String::from("p"), true, &mut state);
    assert_eq!(a, 0);
    assert_eq!(p, 1);
    assert_eq!(state.len(), 2);
    assert_eq!(state.data(a), F(2.5));
    assert_eq!(state.grad(a), F(0.0));
    assert_eq!(state.nodes[p].idx, 1);
    assert!(state.nodes[p].parameter);
    assert!(!state.nodes[a].parameter);
    assert!(matches!(state.nodes[a].op, Op::End));
    assert_eq!(state.names[p], "p");
}

#[test]
fn add_records_sum_and_operands() {
    let mut state: State<F> = State::new();
    let a = leaf(&mut state, 2.0, "a");
    let b = leaf(&mut state, 3.0, "b");
    let c = add(a, b, &mut state);
    assert_eq!(c, 2);
    assert_eq!(state.data(c), F(5.0));
    assert!(matches!(state.nodes[c].op, Op::Add(0, 1)));
    assert_eq!(state.names[c], "(a+b)");
}

#[test]
fn add_backward_passes_gradient_to_both() {
    let mut state: State<F> = State::new();
    let a = leaf(&mut state, 2.0, "a");
    let b = leaf(&mut state, 3.0, "b");
    let c = add(a, b, &mut state);
    state.nodes[c].grad = F(1.5);
    back(c, &mut state);
    assert_eq!(state.grad(a), F(1.5));
    assert_eq!(state.grad(b), F(1.5));
    assert_eq!(state.grad(c), F(1.5));
}

#[test]
fn multiply_backward_swaps_operand_values() {
    let pairs = [(3.0f32, -4.0f32), (0.5, 2.0), (-1.25, -7.5), (0.0, 9.0), (1e3, 1e-3)];
    for (x, y) in pairs {
        let mut state: State<F> = State::new();
        let a = leaf(&mut state, x, "a");
        let b = leaf(&mut state, y, "b");
        let m = mul(a, b, &mut state);
        assert_eq!(state.data(m), F(x * y));
        state.nodes[m].grad = F(1.0);
        back(m, &mut state);
        assert_eq!(state.grad(a), F(y));
        assert_eq!(state.grad(b), F(x));
    }
}

#[test]
fn tanh_uses_exponential_definition() {
    for x in [-3.0f32, -0.5, 0.0, 0.25, 1.0, 2.0] {
        let mut state: State<F> = State::new();
        let a = leaf(&mut state, x, "x");
        let t = tanh(a, &mut state);
        let e = (2.0 * x).exp();
        let expected = (e - 1.0) / (e + 1.0);
        assert_eq!(state.data(t), F(expected));
        assert!((state.data(t).0 - x.tanh()).abs() < 1e-6);
        assert_eq!(tanh_value(F(x)), F(expected));
        assert_eq!(state.names[t], "tanh(x)");
    }
}

#[test]
fn tanh_backward_uses_forward_formula() {
    for x in [-2.0f32, -0.3, 0.0, 0.7, 1.5] {
        let mut state: State<F> = State::new();
        let a = leaf(&mut state, x, "x");
        let t = tanh(a, &mut state);
        state.nodes[t].grad = F(1.0);
        back(t, &mut state);
        let fwd = state.data(t).0;
        assert_eq!(state.grad(a), F(1.0 - fwd.powf(2.0)));
    }
}

#[test]
fn square_accumulates_both_paths() {
    for x in [3.0f32, -2.5, 0.125] {
        let mut state: State<F> = State::new();
        let a = leaf(&mut state, x, "a");
        let y = mul(a, a, &mut state);
        state.nodes[y].grad = F(1.0);
        back(y, &mut state);
        assert_eq!(state.grad(a), F(2.0 * x));
    }
}

#[test]
fn sub_appends_constant_product_and_sum() {
    let mut state: State<F> = State::new();
    let a = leaf(&mut state, 5.0, "a");
    let b = leaf(&mut state, 3.5, "b");
    let d = sub(a, b, &mut state);
    assert_eq!(state.len(), 5);
    assert_eq!(d, 4);
    assert_eq!(state.data(d), F(1.5));
    assert_eq!(state.data(2), F(-1.0));
    assert!(matches!(state.nodes[2].op, Op::End));
    assert!(matches!(state.nodes[3].op, Op::Mul(1, 2)));
    assert!(matches!(state.nodes[4].op, Op::Add(0, 3)));
    state.nodes[d].grad = F(1.0);
    back(d, &mut state);
    assert_eq!(state.grad(a), F(1.0));
    assert_eq!(state.grad(b), F(-1.0));
}

#[test]
fn power_forward_and_backward() {
    let mut state: State<F> = State::new();
    let a = leaf(&mut state, 3.0, "a");
    let p = exp(a, F(2.0), &mut state);
    assert_eq!(state.data(p), F(9.0));
    assert_eq!(state.names[p], "(a^2)");
    state.nodes[p].grad = F(0.5);
    back(p, &mut state);
    assert_eq!(state.grad(a), F(3.0));
}

#[test]
fn checkpoint_passes_value_and_stops_traversal() {
    let mut state: State<F> = State::new();
    let a = leaf(&mut state, 2.0, "a");
    let b = leaf(&mut state, -3.0, "b");
    let m = mul(a, b, &mut state);
    let c = checkpoint(m, "m", &mut state);
    assert_eq!(state.data(c), F(-6.0));
    assert_eq!(state.names[c], "Checkpoint(m)");
    let k = leaf(&mut state, 4.0, "k");
    let z = add(c, k, &mut state);
    state.nodes[z].grad = F(1.0);
    back(z, &mut state);
    assert_eq!(state.grad(c), F(1.0));
    assert_eq!(state.grad(k), F(1.0));
    assert_eq!(state.grad(m), F(0.0));
    assert_eq!(state.grad(a), F(0.0));
    back(c, &mut state);
    assert_eq!(state.grad(m), F(1.0));
    assert_eq!(state.grad(a), F(-3.0));
    assert_eq!(state.grad(b), F(2.0));
}

#[test]
fn leaf_backward_is_a_no_op() {
    let mut state: State<F> = State::new();
    let a = leaf(&mut state, 2.0, "a");
    state.nodes[a].grad = F(1.0);
    back(a, &mut state);
    assert_eq!(state.grad(a), F(1.0));
    assert_eq!(state.len(), 1);
}

#[test]
fn truncate_keeps_the_prefix() {
    let mut state: State<F> = State::new();
    let a = leaf(&mut state, 1.0, "a");
    let b = leaf(&mut state, 2.0, "b");
    add(a, b, &mut state);
    state.truncate(2);
    assert_eq!(state.len(), 2);
    assert_eq!(state.data(b), F(2.0));
    state.truncate(10);
    assert_eq!(state.len(), 2);
}
