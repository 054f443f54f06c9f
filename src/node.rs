use vstd::prelude::*;

use crate::scalar::Scalar;
use crate::state::State;
use vstd::string::*;

verus! {

/// The operation that produced a node, with the positions of its operands.
pub enum Op<V> {
    Add(usize, usize),
    Mul(usize, usize),
    Tanh(usize),
    /// Raised to a fixed exponent.
    Exp(usize, V),
    /// Passes its operand through unchanged; backward traversal stops here.
    Pass(usize),
    /// A leaf: an input, a constant or a parameter.
    End,
}

impl<V> Op<V> {
    /// Every operand refers to a position strictly before `idx`.
    pub open spec fn operands_before(&self, idx: int) -> bool {
        match *self {
            Op::Add(a, b) => a < idx && b < idx,
            Op::Mul(a, b) => a < idx && b < idx,
            Op::Tanh(a) => a < idx,
            Op::Exp(a, _) => a < idx,
            Op::Pass(a) => a < idx,
            Op::End => true,
        }
    }
}

/// One scalar of the computation, with the gradient accumulated into it.
pub struct Node<V> {
    pub data: V,
    pub grad: V,
    pub idx: usize,
    pub op: Op<V>,
    pub parameter: bool,
}

impl<V: Scalar> Default for Node<V> {
    /// An unnamed leaf holding zero, not yet placed on a tape.
    fn default() -> (r: Self)
        ensures
            r.op == Op::<V>::End,
            r.data == V::zero_value(),
            r.grad == V::zero_value(),
            r.idx == 0,
            !r.parameter,
    {
        Node { data: V::zero(), grad: V::zero(), idx: 0, op: Op::End, parameter: false }
    }
}

/// `new` is `old` with one node appended at its end: made by `op`, holding
/// `data`, with a zero gradient.
pub open spec fn appended<V: Scalar>(old: Seq<Node<V>>, new: Seq<Node<V>>, op: Op<V>, data: V) -> bool {
    &&& new.len() == old.len() + 1
    &&& new.take(old.len() as int) =~= old
    &&& new.last().op == op
    &&& new.last().data == data
    &&& new.last().grad == V::zero_value()
    &&& new.last().idx == old.len()
    &&& !new.last().parameter
}

/// `t` with a leaf holding `data` appended.
pub open spec fn leaf_tape<V: Scalar>(t: Seq<Node<V>>, data: V, parameter: bool) -> Seq<Node<V>> {
    t.push(Node { data, grad: V::zero_value(), idx: t.len() as usize, op: Op::End, parameter })
}

/// `t` with a node made by `op`, holding `data`, appended.
pub open spec fn op_tape<V: Scalar>(t: Seq<Node<V>>, op: Op<V>, data: V) -> Seq<Node<V>> {
    t.push(Node { data, grad: V::zero_value(), idx: t.len() as usize, op, parameter: false })
}

/// `t` after `add(a, b)`.
pub open spec fn add_tape<V: Scalar>(t: Seq<Node<V>>, a: usize, b: usize) -> Seq<Node<V>> {
    op_tape(t, Op::Add(a, b), V::sum(t[a as int].data, t[b as int].data))
}

/// `t` after `mul(a, b)`.
pub open spec fn mul_tape<V: Scalar>(t: Seq<Node<V>>, a: usize, b: usize) -> Seq<Node<V>> {
    op_tape(t, Op::Mul(a, b), V::product(t[a as int].data, t[b as int].data))
}

/// `t` after `tanh(a)`.
pub open spec fn tanh_tape<V: Scalar>(t: Seq<Node<V>>, a: usize) -> Seq<Node<V>> {
    op_tape(t, Op::Tanh(a), tanh_spec(t[a as int].data))
}

/// `t` after `checkpoint(a, ..)`.
pub open spec fn pass_tape<V: Scalar>(t: Seq<Node<V>>, a: usize) -> Seq<Node<V>> {
    op_tape(t, Op::Pass(a), t[a as int].data)
}

/// `t` after `exp(a, n)`.
pub open spec fn exp_tape<V: Scalar>(t: Seq<Node<V>>, a: usize, n: V) -> Seq<Node<V>> {
    op_tape(t, Op::Exp(a, n), V::power(t[a as int].data, n))
}

/// `t` after `sub(a, b)`: a leaf holding `0 - 1`, the product of `b` with
/// it, and the sum of `a` with that.
pub open spec fn sub_tape<V: Scalar>(t: Seq<Node<V>>, a: usize, b: usize) -> Seq<Node<V>> {
    let t1 = leaf_tape(t, V::difference(V::zero_value(), V::one_value()), false);
    let t2 = mul_tape(t1, b, t.len() as usize);
    add_tape(t2, a, t1.len() as usize)
}

/// The hyperbolic tangent by its definition, `(e^(2x) - 1) / (e^(2x) + 1)`.
pub open spec fn tanh_spec<V: Scalar>(x: V) -> V {
    let e = V::exponential(V::sum(x, x));
    V::quotient(V::difference(e, V::one_value()), V::sum(e, V::one_value()))
}

impl<V: Scalar> Node<V> {
    /// Appends a leaf holding `data` and returns its position.
    pub fn new(data: V, name: String, is_parameter: bool, state: &mut State<V>) -> (idx: usize)
        requires
            old(state).wf(),
        ensures
            final(state).wf(),
            idx == old(state).nodes@.len(),
            final(state).nodes@.len() == old(state).nodes@.len() + 1,
            final(state).nodes@.take(idx as int) =~= old(state).nodes@,
            final(state).nodes@[idx as int].op == Op::<V>::End,
            final(state).nodes@[idx as int].data == data,
            final(state).nodes@[idx as int].grad == V::zero_value(),
            final(state).names@[idx as int]@ == name@,
            final(state).nodes@ == leaf_tape(old(state).nodes@, data, is_parameter),
            final(state).nodes@[idx as int].parameter == is_parameter,
    {
        let out = Node { data, grad: V::zero(), idx: 0, op: Op::End, parameter: is_parameter };
        out.push_on(name, state)
    }

    fn push_on(self, name: String, state: &mut State<V>) -> (idx: usize)
        requires
            old(state).wf(),
            self.op.operands_before(old(state).nodes@.len() as int),
        ensures
            final(state).wf(),
            idx == old(state).nodes@.len(),
            final(state).nodes@ == old(state).nodes@.push(Node { idx, ..self }),
            final(state).names@ == old(state).names@.push(name),
    {
        state.push(self, name)
    }
}

/// Appends a node that passes the value of `node` through unchanged, and at
/// which backward traversal from further down the graph stops.
pub fn checkpoint<V: Scalar>(node: usize, name: &str, state: &mut State<V>) -> (idx: usize)
    requires
        old(state).wf(),
        node < old(state).nodes@.len(),
    ensures
        final(state).wf(),
        idx == old(state).nodes@.len(),
        appended(old(state).nodes@, final(state).nodes@, Op::Pass(node), old(state).nodes@[node as int].data),
        final(state).nodes@ == pass_tape(old(state).nodes@, node),
{
    let label = String::from_str("Checkpoint(").concat(name).concat(")");
    let out = Node {
        data: state.nodes[node].data,
        grad: V::zero(),
        idx: 0,
        op: Op::Pass(node),
        parameter: false,
    };
    out.push_on(label, state)
}

/// The hyperbolic tangent, computed from its definition
/// `(e^(2x) - 1) / (e^(2x) + 1)`; the backward pass uses the same formula.
pub fn tanh_value<V: Scalar>(x: V) -> (r: V)
    ensures
        r == tanh_spec(x),
{
    let one = V::one();
    let e = x.plus(&x).exp();
    e.minus(&one).divided_by(&e.plus(&one))
}

/// Appends the hyperbolic tangent of `node`.
pub fn tanh<V: Scalar>(node: usize, state: &mut State<V>) -> (idx: usize)
    requires
        old(state).wf(),
        node < old(state).nodes@.len(),
    ensures
        final(state).wf(),
        idx == old(state).nodes@.len(),
        appended(old(state).nodes@, final(state).nodes@, Op::Tanh(node), tanh_spec(old(state).nodes@[node as int].data)),
        final(state).nodes@ == tanh_tape(old(state).nodes@, node),
{
    let t = tanh_value(state.nodes[node].data);
    let label = String::from_str("tanh(").concat(state.names[node].as_str()).concat(")");
    let out = Node { data: t, grad: V::zero(), idx: 0, op: Op::Tanh(node), parameter: false };
    out.push_on(label, state)
}

/// Appends the sum of `node` and `other`.
pub fn add<V: Scalar>(node: usize, other: usize, state: &mut State<V>) -> (idx: usize)
    requires
        old(state).wf(),
        node < old(state).nodes@.len(),
        other < old(state).nodes@.len(),
    ensures
        final(state).wf(),
        idx == old(state).nodes@.len(),
        appended(
            old(state).nodes@,
            final(state).nodes@,
            Op::Add(node, other),
            V::sum(old(state).nodes@[node as int].data, old(state).nodes@[other as int].data),
        ),
        final(state).nodes@ == add_tape(old(state).nodes@, node, other),
{
    let s = &state.nodes[node];
    let o = &state.nodes[other];
    let label = String::from_str("(").concat(state.names[node].as_str()).concat("+").concat(state.names[other].as_str()).concat(")");
    let out = Node {
        data: s.data.plus(&o.data),
        grad: V::zero(),
        idx: 0,
        op: Op::Add(node, other),
        parameter: false,
    };
    out.push_on(label, state)
}

/// Appends `node - other`, built as `node + other * (-1)`: a leaf holding
/// `-1`, then the product, then the sum.
pub fn sub<V: Scalar>(node: usize, other: usize, state: &mut State<V>) -> (idx: usize)
    requires
        old(state).wf(),
        node < old(state).nodes@.len(),
        other < old(state).nodes@.len(),
    ensures
        final(state).wf(),
        idx == old(state).nodes@.len() + 2,
        final(state).nodes@.len() == old(state).nodes@.len() + 3,
        final(state).nodes@.take(old(state).nodes@.len() as int) =~= old(state).nodes@,
        final(state).nodes@[idx - 2].op == Op::<V>::End,
        !final(state).nodes@[idx - 2].parameter,
        final(state).nodes@[idx - 1].op == Op::<V>::Mul(other, (idx - 2) as usize),
        !final(state).nodes@[idx - 1].parameter,
        final(state).nodes@[idx as int].op == Op::<V>::Add(node, (idx - 1) as usize),
        !final(state).nodes@[idx as int].parameter,
        final(state).nodes@[idx - 2].data == V::difference(V::zero_value(), V::one_value()),
        final(state).nodes@[idx - 1].data == V::product(
            old(state).nodes@[other as int].data,
            V::difference(V::zero_value(), V::one_value()),
        ),
        final(state).nodes@[idx as int].data == V::sum(
            old(state).nodes@[node as int].data,
            V::product(old(state).nodes@[other as int].data, V::difference(V::zero_value(), V::one_value())),
        ),
        final(state).nodes@[idx - 2].grad == V::zero_value(),
        final(state).nodes@[idx - 1].grad == V::zero_value(),
        final(state).nodes@[idx as int].grad == V::zero_value(),
        final(state).nodes@ == sub_tape(old(state).nodes@, node, other),
{
    let neg_one = V::zero().minus(&V::one());
    let neg_idx = Node::new(neg_one, String::from_str("neg"), false, state);
    let prod = crate::node::mul(other, neg_idx, state);
    let r = crate::node::add(node, prod, state);
    proof {
        let n = old(state).nodes@.len() as int;
        assert(final(state).nodes@.take(n) =~= old(state).nodes@);
        assert(final(state).nodes@[n] == final(state).nodes@.take(n + 2)[n]);
        assert(final(state).nodes@[n + 1] == final(state).nodes@.take(n + 2)[n + 1]);
    }
    r
}

/// Appends the product of `node` and `other`.
pub fn mul<V: Scalar>(node: usize, other: usize, state: &mut State<V>) -> (idx: usize)
    requires
        old(state).wf(),
        node < old(state).nodes@.len(),
        other < old(state).nodes@.len(),
    ensures
        final(state).wf(),
        idx == old(state).nodes@.len(),
        appended(
            old(state).nodes@,
            final(state).nodes@,
            Op::Mul(node, other),
            V::product(old(state).nodes@[node as int].data, old(state).nodes@[other as int].data),
        ),
        final(state).nodes@ == mul_tape(old(state).nodes@, node, other),
{
    let s = &state.nodes[node];
    let o = &state.nodes[other];
    let label = String::from_str("(").concat(state.names[node].as_str()).concat("*").concat(state.names[other].as_str()).concat(")");
    let out = Node {
        data: s.data.times(&o.data),
        grad: V::zero(),
        idx: 0,
        op: Op::Mul(node, other),
        parameter: false,
    };
    out.push_on(label, state)
}

/// Appends `node` raised to the exponent `n`.
pub fn exp<V: Scalar>(node: usize, n: V, state: &mut State<V>) -> (idx: usize)
    requires
        old(state).wf(),
        node < old(state).nodes@.len(),
    ensures
        final(state).wf(),
        idx == old(state).nodes@.len(),
        appended(old(state).nodes@, final(state).nodes@, Op::Exp(node, n), V::power(old(state).nodes@[node as int].data, n)),
        final(state).nodes@ == exp_tape(old(state).nodes@, node, n),
{
    let s = &state.nodes[node];
    let label = String::from_str("(").concat(state.names[node].as_str()).concat("^").concat(n.text().as_str()).concat(")");
    let out = Node {
        data: s.data.powf(&n),
        grad: V::zero(),
        idx: 0,
        op: Op::Exp(node, n),
        parameter: false,
    };
    out.push_on(label, state)
}

/// `new` is `old` with, at most, the gradients of the nodes before position
/// `bound` changed: the tape keeps its length, and every node its value,
/// position, operation and kind.
pub open spec fn grads_below<V>(old: Seq<Node<V>>, new: Seq<Node<V>>, bound: int) -> bool {
    &&& new.len() == old.len()
    &&& forall|i: int|
        0 <= i < old.len() ==> {
            &&& (#[trigger] new[i]).data == old[i].data
            &&& new[i].idx == old[i].idx
            &&& new[i].op == old[i].op
            &&& new[i].parameter == old[i].parameter
            &&& (i >= bound ==> new[i].grad == old[i].grad)
        }
}

/// `s` with `g` added to the gradient of the node at `i`.
pub open spec fn add_grad<V: Scalar>(s: Seq<Node<V>>, i: int, g: V) -> Seq<Node<V>> {
    s.update(i, Node { grad: V::sum(s[i].grad, g), ..s[i] })
}

/// The tape after propagating the gradient of node `o` backward, by the
/// chain rule: each operand's gradient grows by its share (never
/// overwritten), then the traversal goes on into the second operand, then
/// the first, and stops at checkpoints.
pub open spec fn backward<V: Scalar>(s: Seq<Node<V>>, o: int) -> Seq<Node<V>>
    decreases o, 1int,
{
    if 0 <= o < s.len() {
        let g = s[o].grad;
        match s[o].op {
            Op::Add(a, b) => if a < o && b < o {
                let s2 = add_grad(add_grad(s, a as int, g), b as int, g);
                backward_gated(backward_gated(s2, b as int), a as int)
            } else {
                s
            },
            Op::Mul(a, b) => if a < o && b < o {
                let s1 = add_grad(s, a as int, V::product(s[b as int].data, g));
                let s2 = add_grad(s1, b as int, V::product(s[a as int].data, g));
                backward_gated(backward_gated(s2, b as int), a as int)
            } else {
                s
            },
            Op::Exp(a, n) => if a < o {
                let slope = V::product(n, V::power(s[a as int].data, V::difference(n, V::one_value())));
                backward_gated(add_grad(s, a as int, V::product(slope, g)), a as int)
            } else {
                s
            },
            Op::Tanh(a) => if a < o {
                let one = V::one_value();
                let t = tanh_spec(s[a as int].data);
                let slope = V::difference(one, V::power(t, V::sum(one, one)));
                backward_gated(add_grad(s, a as int, V::product(slope, g)), a as int)
            } else {
                s
            },
            Op::Pass(a) => if a < o {
                backward_gated(add_grad(s, a as int, g), a as int)
            } else {
                s
            },
            Op::End => s,
        }
    } else {
        s
    }
}

/// `backward` from node `n`, unless `n` is a checkpoint, where it stops.
pub open spec fn backward_gated<V: Scalar>(s: Seq<Node<V>>, n: int) -> Seq<Node<V>>
    decreases n, 2int,
{
    if 0 <= n < s.len() && s[n].op is Pass {
        s
    } else {
        backward(s, n)
    }
}

/// Walking backward from a product of two distinct leaves adds to each
/// leaf the other's value times the product's gradient, and changes nothing
/// else.
pub proof fn lemma_product_backward<V: Scalar>(s: Seq<Node<V>>, o: int, a: usize, b: usize)
    requires
        0 <= o < s.len(),
        s[o].op == Op::<V>::Mul(a, b),
        a < o,
        b < o,
        a != b,
        s[a as int].op == Op::<V>::End,
        s[b as int].op == Op::<V>::End,
    ensures
        backward(s, o)[a as int].grad == V::sum(s[a as int].grad, V::product(s[b as int].data, s[o].grad)),
        backward(s, o)[b as int].grad == V::sum(s[b as int].grad, V::product(s[a as int].data, s[o].grad)),
        backward(s, o).len() == s.len(),
        forall|i: int| 0 <= i < s.len() && i != a && i != b ==> #[trigger] backward(s, o)[i] == s[i],
{
    let g = s[o].grad;
    let s1 = add_grad(s, a as int, V::product(s[b as int].data, g));
    let s2 = add_grad(s1, b as int, V::product(s[a as int].data, g));
    assert(backward(s2, b as int) == s2);
    assert(backward_gated(s2, b as int) == s2);
    assert(backward(s2, a as int) == s2);
    assert(backward_gated(s2, a as int) == s2);
    assert(backward(s, o) == s2);
}

/// Walking backward from the square `a * a` of a leaf adds both paths'
/// contributions to the leaf's gradient: it is accumulated, not overwritten.
pub proof fn lemma_square_backward<V: Scalar>(s: Seq<Node<V>>, o: int, a: usize)
    requires
        0 <= o < s.len(),
        s[o].op == Op::<V>::Mul(a, a),
        a < o,
        s[a as int].op == Op::<V>::End,
    ensures
        backward(s, o)[a as int].grad == V::sum(
            V::sum(s[a as int].grad, V::product(s[a as int].data, s[o].grad)),
            V::product(s[a as int].data, s[o].grad),
        ),
        backward(s, o).len() == s.len(),
        forall|i: int| 0 <= i < s.len() && i != a ==> #[trigger] backward(s, o)[i] == s[i],
{
    let g = s[o].grad;
    let s1 = add_grad(s, a as int, V::product(s[a as int].data, g));
    let s2 = add_grad(s1, a as int, V::product(s[a as int].data, g));
    assert(backward(s2, a as int) == s2);
    assert(backward_gated(s2, a as int) == s2);
    assert(backward(s, o) == s2);
}

/// Walking backward from `tanh` of a leaf takes the local derivative
/// `1 - t^2` at the forward value `t` that the node holds.
pub proof fn lemma_tanh_backward<V: Scalar>(s: Seq<Node<V>>, o: int, a: usize)
    requires
        0 <= o < s.len(),
        s[o].op == Op::<V>::Tanh(a),
        s[o].data == tanh_spec(s[a as int].data),
        a < o,
        s[a as int].op == Op::<V>::End,
    ensures
        backward(s, o)[a as int].grad == V::sum(
            s[a as int].grad,
            V::product(
                V::difference(V::one_value(), V::power(s[o].data, V::sum(V::one_value(), V::one_value()))),
                s[o].grad,
            ),
        ),
        backward(s, o).len() == s.len(),
        forall|i: int| 0 <= i < s.len() && i != a ==> #[trigger] backward(s, o)[i] == s[i],
{
    let one = V::one_value();
    let slope = V::difference(one, V::power(tanh_spec(s[a as int].data), V::sum(one, one)));
    let s1 = add_grad(s, a as int, V::product(slope, s[o].grad));
    assert(backward(s1, a as int) == s1);
    assert(backward_gated(s1, a as int) == s1);
    assert(backward(s, o) == s1);
}

/// Adds `g` to the gradient of the node at `i`.
fn accumulate<V: Scalar>(i: usize, g: V, state: &mut State<V>)
    requires
        old(state).wf(),
        i < old(state).nodes@.len(),
    ensures
        final(state).wf(),
        grads_below(old(state).nodes@, final(state).nodes@, i + 1),
        final(state).nodes@ == add_grad(old(state).nodes@, i as int, g),
{
    let cur = state.nodes[i].grad;
    state.nodes[i].grad = cur.plus(&g);
}

/// Propagates the gradient held by `node` into its operands, by the chain
/// rule, and on down the graph until leaves or checkpoints are reached.
pub fn back<V: Scalar>(node: usize, state: &mut State<V>)
    requires
        old(state).wf(),
        node < old(state).nodes@.len(),
    ensures
        final(state).wf(),
        grads_below(old(state).nodes@, final(state).nodes@, node as int),
        final(state).nodes@ == backward(old(state).nodes@, node as int),
    decreases node, 1nat,
{
    match state.nodes[node].op {
        Op::Add(a, b) => back_add(node, a, b, state),
        Op::Mul(a, b) => back_mul(node, a, b, state),
        Op::Exp(a, n) => back_exp(node, a, n, state),
        Op::Tanh(a) => back_tanh(node, a, state),
        Op::Pass(a) => back_pass(node, a, state),
        Op::End => {},
    }
}

/// Goes on backward from `node`, unless `node` is a checkpoint: the
/// gradient of a checkpoint is complete only once every path into it has
/// been walked, so it is walked on from there separately.
fn back_to_checkpoint<V: Scalar>(node: usize, state: &mut State<V>)
    requires
        old(state).wf(),
        node < old(state).nodes@.len(),
    ensures
        final(state).wf(),
        grads_below(old(state).nodes@, final(state).nodes@, node as int),
        final(state).nodes@ == backward_gated(old(state).nodes@, node as int),
    decreases node, 2nat,
{
    match state.nodes[node].op {
        Op::Pass(_) => {},
        _ => back(node, state),
    }
}

fn back_pass<V: Scalar>(o: usize, a: usize, state: &mut State<V>)
    requires
        old(state).wf(),
        old(state).nodes@[o as int].op == Op::<V>::Pass(a),
        o < old(state).nodes@.len(),
        a < o,
    ensures
        final(state).wf(),
        grads_below(old(state).nodes@, final(state).nodes@, o as int),
        final(state).nodes@ == backward(old(state).nodes@, o as int),
    decreases o, 0nat,
{
    let og = state.nodes[o].grad;
    accumulate(a, og, state);
    back_to_checkpoint(a, state);
}

fn back_add<V: Scalar>(o: usize, a: usize, b: usize, state: &mut State<V>)
    requires
        old(state).wf(),
        old(state).nodes@[o as int].op == Op::<V>::Add(a, b),
        o < old(state).nodes@.len(),
        a < o,
        b < o,
    ensures
        final(state).wf(),
        grads_below(old(state).nodes@, final(state).nodes@, o as int),
        final(state).nodes@ == backward(old(state).nodes@, o as int),
    decreases o, 0nat,
{
    let og = state.nodes[o].grad;
    accumulate(a, og, state);
    accumulate(b, og, state);
    back_to_checkpoint(b, state);
    back_to_checkpoint(a, state);
}

fn back_mul<V: Scalar>(o: usize, a: usize, b: usize, state: &mut State<V>)
    requires
        old(state).wf(),
        old(state).nodes@[o as int].op == Op::<V>::Mul(a, b),
        o < old(state).nodes@.len(),
        a < o,
        b < o,
    ensures
        final(state).wf(),
        grads_below(old(state).nodes@, final(state).nodes@, o as int),
        final(state).nodes@ == backward(old(state).nodes@, o as int),
    decreases o, 0nat,
{
    let og = state.nodes[o].grad;
    let ga = state.nodes[b].data.times(&og);
    accumulate(a, ga, state);
    let gb = state.nodes[a].data.times(&og);
    accumulate(b, gb, state);
    back_to_checkpoint(b, state);
    back_to_checkpoint(a, state);
}

fn back_exp<V: Scalar>(o: usize, s: usize, n: V, state: &mut State<V>)
    requires
        old(state).wf(),
        old(state).nodes@[o as int].op == Op::<V>::Exp(s, n),
        o < old(state).nodes@.len(),
        s < o,
    ensures
        final(state).wf(),
        grads_below(old(state).nodes@, final(state).nodes@, o as int),
        final(state).nodes@ == backward(old(state).nodes@, o as int),
    decreases o, 0nat,
{
    let og = state.nodes[o].grad;
    let slope = n.times(&state.nodes[s].data.powf(&n.minus(&V::one())));
    accumulate(s, slope.times(&og), state);
    back_to_checkpoint(s, state);
}

fn back_tanh<V: Scalar>(o: usize, s: usize, state: &mut State<V>)
    requires
        old(state).wf(),
        old(state).nodes@[o as int].op == Op::<V>::Tanh(s),
        o < old(state).nodes@.len(),
        s < o,
    ensures
        final(state).wf(),
        grads_below(old(state).nodes@, final(state).nodes@, o as int),
        final(state).nodes@ == backward(old(state).nodes@, o as int),
    decreases o, 0nat,
{
    let og = state.nodes[o].grad;
    let one = V::one();
    let t = tanh_value(state.nodes[s].data);
    let slope = one.minus(&t.powf(&one.plus(&one)));
    accumulate(s, slope.times(&og), state);
    back_to_checkpoint(s, state);
}

} // verus!
