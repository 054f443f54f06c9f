use vstd::prelude::*;

use crate::node::{add_tape, checkpoint, mul_tape, pass_tape, tanh, tanh_spec, tanh_tape, tanh_value, Node, Op};
use crate::scalar::Scalar;
use crate::state::State;
use vstd::seq_lib::seq_to_set_is_finite;
use vstd::set_lib::{lemma_int_range, lemma_subset_equality, set_int_range};
use vstd::string::*;

verus! {

/// The nodes of `s` at positions `from .. to` are parameter leaves.
pub open spec fn parameter_leaves<V>(s: Seq<Node<V>>, from: int, to: int) -> bool {
    forall|i: int| from <= i < to ==> (#[trigger] s[i]).op == Op::<V>::End && s[i].parameter
}

/// `s` holds each position from `lo` up to (not including) `hi` exactly once.
pub open spec fn covers(s: Seq<usize>, lo: int, hi: int) -> bool {
    &&& s.no_duplicates()
    &&& s.len() == hi - lo
    &&& forall|i: int| 0 <= i < s.len() ==> lo <= #[trigger] s[i] < hi
}

/// Two sequences that cover adjacent ranges together cover their union.
pub proof fn lemma_covers_concat(a: Seq<usize>, b: Seq<usize>, lo: int, mid: int, hi: int)
    requires
        covers(a, lo, mid),
        covers(b, mid, hi),
    ensures
        covers(b + a, lo, hi),
        covers(a + b, lo, hi),
{
    let ba = b + a;
    assert forall|i: int, j: int| 0 <= i < ba.len() && 0 <= j < ba.len() && i != j implies ba[i]
        != ba[j] by {
        if i < b.len() && j >= b.len() {
            assert(ba[i] == b[i] && ba[j] == a[j - b.len()]);
        } else if i >= b.len() && j < b.len() {
            assert(ba[j] == b[j] && ba[i] == a[i - b.len()]);
        }
    }
    assert forall|i: int| 0 <= i < ba.len() implies lo <= #[trigger] ba[i] < hi by {
        if i >= b.len() {
            assert(ba[i] == a[i - b.len()]);
        }
    }
    let ab = a + b;
    assert forall|i: int, j: int| 0 <= i < ab.len() && 0 <= j < ab.len() && i != j implies ab[i]
        != ab[j] by {
        if i < a.len() && j >= a.len() {
            assert(ab[i] == a[i] && ab[j] == b[j - a.len()]);
        } else if i >= a.len() && j < a.len() {
            assert(ab[j] == a[j] && ab[i] == b[i - a.len()]);
        }
    }
    assert forall|i: int| 0 <= i < ab.len() implies lo <= #[trigger] ab[i] < hi by {
        if i >= a.len() {
            assert(ab[i] == b[i - a.len()]);
        }
    }
}

/// A sequence that covers `0 .. n` holds every position of that range.
pub proof fn lemma_covers_onto(s: Seq<usize>, n: int, i: int)
    requires
        covers(s, 0, n),
        0 <= i < n,
    ensures
        exists|k: int| 0 <= k < s.len() && s[k] == i,
{
    let q = Seq::new(s.len(), |k: int| s[k] as int);
    assert forall|a: int, b: int| 0 <= a < q.len() && 0 <= b < q.len() && a != b implies q[a] != q[b] by {
        assert(s[a] != s[b]);
    }
    assert(q.no_duplicates());
    q.unique_seq_to_set();
    lemma_int_range(0, n);
    assert forall|x: int| q.to_set().contains(x) implies set_int_range(0, n).contains(x) by {
        assert(q.contains(x));
        let k = choose|k: int| 0 <= k < q.len() && q[k] == x;
        assert(0 <= s[k] < n);
    }
    seq_to_set_is_finite(q);
    lemma_subset_equality(q.to_set(), set_int_range(0, n));
    assert(set_int_range(0, n).contains(i));
    assert(q.to_set().contains(i));
    assert(q.contains(i));
    let k = choose|k: int| 0 <= k < q.len() && q[k] == i;
    assert(s[k] == i);
}

/// Appending one more parameter leaf keeps a run of parameter leaves that
/// reaches the end of the tape.
pub proof fn lemma_leaves_extend<V>(prev: Seq<Node<V>>, next: Seq<Node<V>>, from: int)
    requires
        0 <= from,
        parameter_leaves(prev, from, prev.len() as int),
        next.len() == prev.len() + 1,
        next.take(prev.len() as int) =~= prev,
        next.last().op == Op::<V>::End,
        next.last().parameter,
    ensures
        parameter_leaves(next, from, next.len() as int),
{
    assert forall|i: int| from <= i < next.len() implies (#[trigger] next[i]).op == Op::<V>::End
        && next[i].parameter by {
        if i < prev.len() {
            assert(next[i] == next.take(prev.len() as int)[i]);
        }
    }
}

/// A run of parameter leaves survives anything that keeps the tape's prefix.
pub proof fn lemma_leaves_kept<V>(prev: Seq<Node<V>>, next: Seq<Node<V>>, lo: int, hi: int)
    requires
        0 <= lo,
        hi <= prev.len() <= next.len(),
        next.take(prev.len() as int) =~= prev,
        parameter_leaves(prev, lo, hi),
    ensures
        parameter_leaves(next, lo, hi),
{
    assert forall|i: int| lo <= i < hi implies (#[trigger] next[i]).op == Op::<V>::End
        && next[i].parameter by {
        assert(next[i] == next.take(prev.len() as int)[i]);
    }
}

/// Changing only the values of nodes keeps a run of parameter leaves.
pub proof fn lemma_leaves_kept_data<V>(prev: Seq<Node<V>>, next: Seq<Node<V>>, hi: int)
    requires
        hi <= prev.len() == next.len(),
        parameter_leaves(prev, 0, hi),
        forall|i: int| 0 <= i < prev.len() ==> (#[trigger] next[i]).op == prev[i].op && next[i].parameter
            == prev[i].parameter,
    ensures
        parameter_leaves(next, 0, hi),
{
    assert forall|i: int| 0 <= i < hi implies (#[trigger] next[i]).op == Op::<V>::End
        && next[i].parameter by {
        assert(prev[i].op == Op::<V>::End);
    }
}

/// `w_0 * x_0 + ... + w_(n-1) * x_(n-1)` for `n >= 1`, added up from the
/// left, as the tape builds it.
pub open spec fn chain<V: Scalar>(ws: Seq<V>, xs: Seq<V>, n: int) -> V
    decreases n,
{
    if n <= 1 {
        V::product(ws[0], xs[0])
    } else {
        V::sum(chain(ws, xs, n - 1), V::product(ws[n - 1], xs[n - 1]))
    }
}

/// `t` after the first `i >= 1` products of `apply`, each added to the sum
/// of the ones before it.
pub open spec fn sum_tape<V: Scalar>(t: Seq<Node<V>>, n: Neuron, xs: Seq<usize>, i: int) -> Seq<Node<V>>
    decreases i,
{
    if i <= 1 {
        mul_tape(t, n.weights@[0], xs[0])
    } else {
        let t1 = sum_tape(t, n, xs, i - 1);
        let t2 = mul_tape(t1, n.weights@[i - 1], xs[i - 1]);
        add_tape(t2, (t1.len() - 1) as usize, (t2.len() - 1) as usize)
    }
}

/// The values of the nodes at `positions` of `s`.
pub open spec fn values_at<V>(s: Seq<Node<V>>, positions: Seq<usize>) -> Seq<V> {
    Seq::new(positions.len(), |k: int| s[positions[k] as int].data)
}

/// A weighted sum of its inputs plus a bias, squashed by `tanh`; the weights
/// and the bias are positions of parameter leaves on the tape.
pub struct Neuron {
    pub name: String,
    pub weights: Vec<usize>,
    pub bias: usize,
}

impl Neuron {
    /// The positions of this neuron's parameters: the bias, then the weights.
    pub open spec fn parameter_seq(&self) -> Seq<usize> {
        seq![self.bias] + self.weights@
    }

    /// The current values of the weights.
    pub open spec fn weight_values<V>(&self, s: Seq<Node<V>>) -> Seq<V> {
        values_at(s, self.weights@)
    }

    /// The value that `apply` builds from the input values `xv`, added up
    /// from the left: `tanh(w_0 * x_0 + ... + w_(n-1) * x_(n-1) + bias)`.
    pub open spec fn applied<V: Scalar>(&self, s: Seq<Node<V>>, xv: Seq<V>) -> V {
        tanh_spec(V::sum(chain(self.weight_values(s), xv, xv.len() as int), s[self.bias as int].data))
    }

    /// The value that `apply` builds on the input positions `xs`:
    /// `tanh(w_0 * x_0 + ... + w_(n-1) * x_(n-1) + bias)`, added up from the
    /// left.
    pub open spec fn applied_value<V: Scalar>(&self, s: Seq<Node<V>>, xs: Seq<usize>) -> V {
        tanh_spec(V::sum(chain(self.weight_values(s), values_at(s, xs), xs.len() as int), s[self.bias as int].data))
    }

    /// `t` after `apply` on the input positions `xs`.
    pub open spec fn apply_tape<V: Scalar>(&self, t: Seq<Node<V>>, xs: Seq<usize>) -> Seq<Node<V>> {
        let t1 = sum_tape(t, *self, xs, xs.len() as int);
        let t2 = add_tape(t1, (t1.len() - 1) as usize, self.bias);
        let t3 = tanh_tape(t2, (t2.len() - 1) as usize);
        pass_tape(t3, (t3.len() - 1) as usize)
    }

    /// Takes `n_in` inputs and refers only to positions below `bound`.
    pub open spec fn wf(&self, n_in: nat, bound: nat) -> bool {
        &&& self.weights@.len() == n_in
        &&& forall|k: int| 0 <= k < n_in ==> #[trigger] self.weights@[k] < bound
        &&& self.bias < bound
    }

    /// Appends `n_in` weights and then a bias, as parameter leaves holding
    /// `values[from ..= from + n_in]` in that order.
    pub fn new<V: Scalar>(n_in: u32, name: String, state: &mut State<V>, values: &Vec<V>, from: usize) -> (r: Neuron)
        requires
            old(state).wf(),
            from + n_in + 1 <= values@.len(),
        ensures
            forall|k: int|
                0 <= k <= n_in ==> #[trigger] final(state).nodes@[old(state).nodes@.len() + k].data == values@[from
                    + k],
            forall|k: int|
                0 <= k <= n_in ==> #[trigger] final(state).nodes@[old(state).nodes@.len() + k].grad == V::zero_value(),
            final(state).wf(),
            final(state).nodes@.len() == old(state).nodes@.len() + n_in + 1,
            final(state).nodes@.take(old(state).nodes@.len() as int) =~= old(state).nodes@,
            parameter_leaves(final(state).nodes@, old(state).nodes@.len() as int, final(state).nodes@.len() as int),
            r.weights@.len() == n_in,
            forall|k: int| 0 <= k < n_in ==> #[trigger] r.weights@[k] == old(state).nodes@.len() + k,
            r.bias == old(state).nodes@.len() + n_in,
            r.name@ == name@,
            covers(r.parameter_seq(), old(state).nodes@.len() as int, final(state).nodes@.len() as int),
    {
        let ghost start = state.nodes@.len();
        // The number of values, which fits in a `usize`.
        let available = values.len();
        let mut weights: Vec<usize> = Vec::new();
        let mut k: u32 = 0;
        while k < n_in
            invariant
                k <= n_in,
                state.wf(),
                state.nodes@.len() == start + k,
                state.nodes@.take(start as int) =~= old(state).nodes@,
                start == old(state).nodes@.len(),
                parameter_leaves(state.nodes@, start as int, state.nodes@.len() as int),
                weights@.len() == k,
                forall|j: int| 0 <= j < k ==> #[trigger] weights@[j] == start + j,
                from + n_in + 1 <= values@.len(),
                available == values@.len(),
                forall|j: int| 0 <= j < k ==> #[trigger] state.nodes@[start + j].data == values@[from + j],
                forall|j: int| 0 <= j < k ==> #[trigger] state.nodes@[start + j].grad == V::zero_value(),
            decreases n_in - k,
        {
            let number: u64 = k as u64 + 1;
            let label = String::from_str(name.as_str()).concat("w").concat(number.to_string().as_str());
            let value = values[from + k as usize];
            let ghost prev = state.nodes@;
            let w = Node::new(value, label, true, state);
            proof {
                assert forall|j: int| 0 <= j < k implies #[trigger] state.nodes@[start + j] == prev[start + j] by {
                    assert(state.nodes@[start + j] == state.nodes@.take(prev.len() as int)[start + j]);
                }
                lemma_leaves_extend(prev, state.nodes@, start as int);
                assert(state.nodes@.take(start as int) =~= prev.take(start as int));
            }
            weights.push(w);
            k = k + 1;
        }
        let label = String::from_str(name.as_str()).concat("b");
        let value = values[from + n_in as usize];
        let ghost prev = state.nodes@;
        let bias = Node::new(value, label, true, state);
        proof {
            assert forall|j: int| 0 <= j < n_in implies #[trigger] state.nodes@[start + j] == prev[start + j] by {
                assert(state.nodes@[start + j] == state.nodes@.take(prev.len() as int)[start + j]);
            }
            lemma_leaves_extend(prev, state.nodes@, start as int);
            assert(state.nodes@.take(start as int) =~= prev.take(start as int));
        }
        let r = Neuron { name, weights, bias };
        proof {
            let ps = r.parameter_seq();
            assert forall|i: int| 0 <= i < ps.len() implies #[trigger] ps[i] == start + if i == 0 {
                n_in as int
            } else {
                i - 1
            } by {
                if i > 0 {
                    assert(ps[i] == r.weights@[i - 1]);
                }
            }
        }
        r
    }

    /// Builds, on the tape, `tanh(w_0 * x_0 + ... + w_(n-1) * x_(n-1) + bias)`
    /// over the input positions `xs`, wrapped in a checkpoint named after the
    /// neuron; returns the position of the checkpoint.
    pub fn apply<V: Scalar>(&self, xs: &Vec<usize>, state: &mut State<V>) -> (r: usize)
        requires
            old(state).wf(),
            xs@.len() >= 1,
            self.wf(xs@.len(), old(state).nodes@.len() as nat),
            forall|k: int| 0 <= k < xs@.len() ==> #[trigger] xs@[k] < old(state).nodes@.len(),
        ensures
            final(state).wf(),
            final(state).nodes@.take(old(state).nodes@.len() as int) =~= old(state).nodes@,
            final(state).nodes@.len() == old(state).nodes@.len() + 2 * xs@.len() + 2,
            r == final(state).nodes@.len() - 1,
            final(state).nodes@[r as int].op == Op::<V>::Pass((r - 1) as usize),
            final(state).nodes@[r - 1].op == Op::<V>::Tanh((r - 2) as usize),
            final(state).nodes@[r - 2].op == Op::<V>::Add((r - 3) as usize, self.bias),
            final(state).nodes@[r as int].data == final(state).nodes@[r - 1].data,
            final(state).nodes@[r as int].data == self.applied_value(old(state).nodes@, xs@),
            final(state).nodes@ == self.apply_tape(old(state).nodes@, xs@),
    {
        let ghost start = state.nodes@.len();
        let ghost o = old(state).nodes@;
        let ghost ws = self.weight_values(o);
        let ghost vs = values_at(o, xs@);
        let mut act = crate::node::mul(self.weights[0], xs[0], state);
        let mut i: usize = 1;
        while i < xs.len()
            invariant
                1 <= i <= xs@.len(),
                self.wf(xs@.len(), start as nat),
                forall|k: int| 0 <= k < xs@.len() ==> #[trigger] xs@[k] < start,
                start == old(state).nodes@.len(),
                state.wf(),
                state.nodes@.take(start as int) =~= old(state).nodes@,
                state.nodes@.len() == start + 2 * i - 1,
                act == state.nodes@.len() - 1,
                o == old(state).nodes@,
                ws == self.weight_values(o),
                vs == values_at(o, xs@),
                state.nodes@[act as int].data == chain(ws, vs, i as int),
                state.nodes@ == sum_tape(o, *self, xs@, i as int),
            decreases xs@.len() - i,
        {
            let ghost prev = state.nodes@;
            proof {
                assert(prev[self.weights@[i as int] as int] == prev.take(start as int)[self.weights@[i as int] as int]);
                assert(prev[xs@[i as int] as int] == prev.take(start as int)[xs@[i as int] as int]);
            }
            let m = crate::node::mul(self.weights[i], xs[i], state);
            let ghost mid = state.nodes@;
            proof {
                assert(mid[act as int] == mid.take(prev.len() as int)[act as int]);
            }
            act = crate::node::add(act, m, state);
            proof {
                assert(mid.take(start as int) =~= prev.take(start as int));
                assert(state.nodes@.take(start as int) =~= mid.take(start as int));
            }
            i = i + 1;
        }
        let ghost before = state.nodes@;
        proof {
            assert(before[self.bias as int] == before.take(start as int)[self.bias as int]);
        }
        let sum = crate::node::add(act, self.bias, state);
        let ghost s1 = state.nodes@;
        let t = tanh(sum, state);
        let ghost s2 = state.nodes@;
        proof {
            assert(s2[sum as int] == s2.take(s1.len() as int)[sum as int]);
        }
        let r = checkpoint(t, self.name.as_str(), state);
        proof {
            assert(s1.take(start as int) =~= before.take(start as int));
            assert(s2.take(start as int) =~= s1.take(start as int));
            assert(state.nodes@.take(start as int) =~= s2.take(start as int));
            assert(state.nodes@[r - 1] == state.nodes@.take(r as int)[r - 1]);
            assert(state.nodes@[r - 2] == state.nodes@.take(r as int)[r - 2]);
            assert(s2[r - 2] == s2.take(r - 1)[r - 2]);
        }
        r
    }

    /// Computes `tanh(w_0 * x_0 + ... + w_(n-1) * x_(n-1) + bias)` directly
    /// from the current values of the weights and the bias, adding up as
    /// `apply` does, without touching the tape.
    pub fn eval<V: Scalar>(&self, xs: &Vec<V>, state: &State<V>) -> (r: V)
        requires
            xs@.len() >= 1,
            self.wf(xs@.len(), state.nodes@.len() as nat),
        ensures
            r == self.applied(state.nodes@, xs@),
    {
        let mut act = state.nodes[self.weights[0]].data.times(&xs[0]);
        let mut i: usize = 1;
        while i < self.weights.len()
            invariant
                1 <= i <= self.weights@.len(),
                xs@.len() == self.weights@.len(),
                self.wf(xs@.len(), state.nodes@.len() as nat),
                act == chain(self.weight_values(state.nodes@), xs@, i as int),
            decreases self.weights@.len() - i,
        {
            act = act.plus(&state.nodes[self.weights[i]].data.times(&xs[i]));
            i = i + 1;
        }
        tanh_value(act.plus(&state.nodes[self.bias].data))
    }
}

} // verus!
