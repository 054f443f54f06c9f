use vstd::prelude::*;

use crate::node::Node;
use crate::neuron::{covers, lemma_covers_concat, parameter_leaves, Neuron};
use crate::scalar::Scalar;
use crate::state::State;
use vstd::string::*;

verus! {

/// The positions of the parameters of `ns`, neuron by neuron.
pub open spec fn neurons_parameter_seq(ns: Seq<Neuron>) -> Seq<usize>
    decreases ns.len(),
{
    if ns.len() == 0 {
        Seq::empty()
    } else {
        neurons_parameter_seq(ns.drop_last()) + ns.last().parameter_seq()
    }
}

/// Neurons that all read the same inputs.
pub struct Layer {
    pub neurons: Vec<Neuron>,
}

impl Layer {
    /// Every neuron takes `n_in` inputs and refers only to positions below
    /// `bound`.
    pub open spec fn wf(&self, n_in: nat, bound: nat) -> bool {
        forall|k: int| 0 <= k < self.neurons@.len() ==> (#[trigger] self.neurons@[k]).wf(n_in, bound)
    }

    /// Each neuron's `applied` value on the input values `xv`, in neuron
    /// order.
    pub open spec fn applied_values<V: Scalar>(&self, s: Seq<Node<V>>, xv: Seq<V>) -> Seq<V> {
        Seq::new(self.neurons@.len(), |k: int| self.neurons@[k].applied(s, xv))
    }

    /// The positions of this layer's parameters, in neuron order, each
    /// neuron's bias before its weights.
    pub open spec fn parameter_seq(&self) -> Seq<usize> {
        neurons_parameter_seq(self.neurons@)
    }

    /// A layer that refers only to positions below `b1` refers only to
    /// positions below any larger `b2`.
    pub proof fn lemma_wf_grow(&self, n_in: nat, b1: nat, b2: nat)
        requires
            self.wf(n_in, b1),
            b1 <= b2,
        ensures
            self.wf(n_in, b2),
    {
        assert forall|k: int| 0 <= k < self.neurons@.len() implies (#[trigger] self.neurons@[k]).wf(
            n_in,
            b2,
        ) by {
            let nk = self.neurons@[k];
            assert(nk.wf(n_in, b1));
            assert forall|j: int| 0 <= j < n_in implies #[trigger] nk.weights@[j] < b2 by {
                assert(nk.weights@[j] < b1);
            }
        }
    }

    /// Appends the parameters of `n_out` neurons of `n_in` inputs each:
    /// neuron `j` owns the block of `n_in + 1` positions starting at
    /// `j * (n_in + 1)` past the old end, its weights and then its bias, and
    /// the block holds `values` from `from` on, in the same order.
    pub fn new<V: Scalar>(
        n_in: u32,
        n_out: u32,
        name: String,
        state: &mut State<V>,
        values: &Vec<V>,
        from: usize,
    ) -> (r: Layer)
        requires
            old(state).wf(),
            from + n_out * (n_in + 1) <= values@.len(),
        ensures
            forall|i: int|
                0 <= i < n_out * (n_in + 1) ==> #[trigger] final(state).nodes@[old(state).nodes@.len() + i].data
                    == values@[from + i],
            forall|i: int|
                0 <= i < n_out * (n_in + 1) ==> #[trigger] final(state).nodes@[old(state).nodes@.len() + i].grad
                    == V::zero_value(),
            forall|j: int, k: int|
                0 <= j < n_out && 0 <= k < n_in ==> #[trigger] r.neurons@[j].weights@[k] == old(state).nodes@.len()
                    + j * (n_in + 1) + k,
            forall|j: int|
                0 <= j < n_out ==> #[trigger] r.neurons@[j].bias == old(state).nodes@.len() + j * (n_in + 1)
                    + n_in,
            final(state).wf(),
            final(state).nodes@.take(old(state).nodes@.len() as int) =~= old(state).nodes@,
            final(state).nodes@.len() == old(state).nodes@.len() + r.parameter_seq().len(),
            parameter_leaves(final(state).nodes@, old(state).nodes@.len() as int, final(state).nodes@.len() as int),
            r.neurons@.len() == n_out,
            r.wf(n_in as nat, final(state).nodes@.len() as nat),
            covers(r.parameter_seq(), old(state).nodes@.len() as int, final(state).nodes@.len() as int),
            r.parameter_seq().len() == n_out * (n_in + 1),
    {
        let ghost start = state.nodes@.len();
        let mut neurons: Vec<Neuron> = Vec::new();
        // The number of values, which fits in a `usize`.
        let available = values.len();
        let mut n: u32 = 0;
        let mut at: usize = from;
        proof {
            assert(0 * (n_in + 1) == 0) by (nonlinear_arith);
        }
        while n < n_out
            invariant
                n <= n_out,
                start == old(state).nodes@.len(),
                state.wf(),
                state.nodes@.take(start as int) =~= old(state).nodes@,
                state.nodes@.len() == start + neurons_parameter_seq(neurons@).len(),
                parameter_leaves(state.nodes@, start as int, state.nodes@.len() as int),
                covers(neurons_parameter_seq(neurons@), start as int, state.nodes@.len() as int),
                neurons_parameter_seq(neurons@).len() == n * (n_in + 1),
                neurons@.len() == n,
                forall|k: int| 0 <= k < n ==> (#[trigger] neurons@[k]).wf(n_in as nat, state.nodes@.len() as nat),
                from + n_out * (n_in + 1) <= values@.len(),
                available == values@.len(),
                at == from + n * (n_in + 1),
                forall|i: int| 0 <= i < n * (n_in + 1) ==> #[trigger] state.nodes@[start + i].data == values@[from + i],
                forall|i: int| 0 <= i < n * (n_in + 1) ==> #[trigger] state.nodes@[start + i].grad == V::zero_value(),
                forall|j: int, k: int|
                    0 <= j < n && 0 <= k < n_in ==> #[trigger] neurons@[j].weights@[k] == start + j * (n_in + 1) + k,
                forall|j: int| 0 <= j < n ==> #[trigger] neurons@[j].bias == start + j * (n_in + 1) + n_in,
            decreases n_out - n,
        {
            let label = String::from_str("l").concat(name.as_str()).concat("n").concat(n.to_string().as_str());
            let ghost prev = state.nodes@;
            let ghost prev_neurons = neurons@;
            proof {
                assert((n + 1) * (n_in + 1) <= n_out * (n_in + 1)) by (nonlinear_arith)
                    requires n < n_out;
                assert((n + 1) * (n_in + 1) == n * (n_in + 1) + n_in + 1) by (nonlinear_arith);
            }
            let neuron = Neuron::new(n_in, label, state, values, at);
            proof {
                assert forall|i: int| 0 <= i < (n + 1) * (n_in + 1) implies #[trigger] state.nodes@[start + i].data
                    == values@[from + i] by {
                    if i < n * (n_in + 1) {
                        assert(state.nodes@[start + i] == state.nodes@.take(prev.len() as int)[start + i]);
                    } else {
                        let k = i - n * (n_in + 1);
                        assert(state.nodes@[prev.len() + k].data == values@[at + k]);
                    }
                }
                assert forall|i: int| 0 <= i < (n + 1) * (n_in + 1) implies #[trigger] state.nodes@[start + i].grad
                    == V::zero_value() by {
                    if i < n * (n_in + 1) {
                        assert(state.nodes@[start + i] == state.nodes@.take(prev.len() as int)[start + i]);
                    } else {
                        let k = i - n * (n_in + 1);
                        assert(state.nodes@[prev.len() + k].grad == V::zero_value());
                    }
                }
                assert(state.nodes@.take(start as int) =~= prev.take(start as int));
                assert forall|i: int| start <= i < state.nodes@.len() implies (#[trigger] state.nodes@[i]).op
                    == crate::node::Op::<V>::End && state.nodes@[i].parameter by {
                    if i < prev.len() {
                        assert(state.nodes@[i] == state.nodes@.take(prev.len() as int)[i]);
                    }
                }
                assert forall|k: int| 0 <= k < n_in implies #[trigger] neuron.weights@[k] < state.nodes@.len() by {}
            }
            neurons.push(neuron);
            proof {
                assert(neurons@.drop_last() =~= prev_neurons);
                lemma_covers_concat(
                    neurons_parameter_seq(prev_neurons),
                    neuron.parameter_seq(),
                    start as int,
                    prev.len() as int,
                    state.nodes@.len() as int,
                );
            }
            proof {
                assert((n + 1) * (n_in + 1) == n * (n_in + 1) + n_in + 1) by (nonlinear_arith);
            }
            n = n + 1;
            at = at + n_in as usize + 1;
        }
        Layer { neurons }
    }

    /// `t` after the first `k` neurons' `apply` on the input positions `xs`.
    pub open spec fn apply_tape<V: Scalar>(&self, t: Seq<Node<V>>, xs: Seq<usize>, k: int) -> Seq<Node<V>>
        decreases k,
    {
        if k <= 0 {
            t
        } else {
            self.neurons@[k - 1].apply_tape(self.apply_tape(t, xs, k - 1), xs)
        }
    }

    /// Applies every neuron to the input positions `xs`; returns the
    /// positions of their outputs, in neuron order. Each output is a
    /// checkpoint.
    pub fn apply<V: Scalar>(&self, xs: &Vec<usize>, state: &mut State<V>) -> (outs: Vec<usize>)
        requires
            old(state).wf(),
            xs@.len() >= 1,
            self.wf(xs@.len(), old(state).nodes@.len() as nat),
            forall|k: int| 0 <= k < xs@.len() ==> #[trigger] xs@[k] < old(state).nodes@.len(),
        ensures
            final(state).wf(),
            final(state).nodes@.len() >= old(state).nodes@.len(),
            final(state).nodes@.take(old(state).nodes@.len() as int) =~= old(state).nodes@,
            outs@.len() == self.neurons@.len(),
            forall|k: int| 0 <= k < outs@.len() ==> #[trigger] outs@[k] < final(state).nodes@.len(),
            forall|k: int| 0 <= k < outs@.len() ==> (#[trigger] final(state).nodes@[outs@[k] as int]).op
                is Pass,
            final(state).nodes@.len() == old(state).nodes@.len() + self.neurons@.len() * (2 * xs@.len() + 2),
            forall|k: int|
                0 <= k < outs@.len() ==> #[trigger] outs@[k] == old(state).nodes@.len() + (k + 1) * (2 * xs@.len()
                    + 2) - 1,
            forall|k: int|
                0 <= k < outs@.len() ==> #[trigger] final(state).nodes@[outs@[k] as int].data
                    == self.neurons@[k].applied_value(old(state).nodes@, xs@),
            final(state).nodes@ == self.apply_tape(old(state).nodes@, xs@, self.neurons@.len() as int),
    {
        let ghost start = state.nodes@.len();
        let ghost w = 2 * xs@.len() + 2;
        proof {
            assert(0 * w == 0) by (nonlinear_arith);
        }
        let mut outs: Vec<usize> = Vec::new();
        let mut k: usize = 0;
        while k < self.neurons.len()
            invariant
                k <= self.neurons@.len(),
                xs@.len() >= 1,
                start == old(state).nodes@.len(),
                self.wf(xs@.len(), start as nat),
                forall|j: int| 0 <= j < xs@.len() ==> #[trigger] xs@[j] < start,
                state.wf(),
                state.nodes@.len() >= start,
                state.nodes@.take(start as int) =~= old(state).nodes@,
                outs@.len() == k,
                forall|j: int| 0 <= j < k ==> #[trigger] outs@[j] < state.nodes@.len(),
                forall|j: int| 0 <= j < k ==> (#[trigger] state.nodes@[outs@[j] as int]).op is Pass,
                w == 2 * xs@.len() + 2,
                state.nodes@.len() == start + k * w,
                state.nodes@ == self.apply_tape(old(state).nodes@, xs@, k as int),
                forall|j: int| 0 <= j < k ==> #[trigger] outs@[j] == start + (j + 1) * w - 1,
                forall|j: int|
                    0 <= j < k ==> #[trigger] state.nodes@[outs@[j] as int].data
                        == self.neurons@[j].applied_value(old(state).nodes@, xs@),
            decreases self.neurons@.len() - k,
        {
            let ghost prev = state.nodes@;
            let neuron = &self.neurons[k];
            proof {
                assert(neuron.wf(xs@.len(), start as nat));
                assert forall|j: int| 0 <= j < xs@.len() implies #[trigger] neuron.weights@[j] < state.nodes@.len() by {}
            }
            proof {
                let o = old(state).nodes@;
                assert(neuron.weight_values(prev) =~= neuron.weight_values(o)) by {
                    assert forall|j: int| 0 <= j < neuron.weights@.len() implies prev[neuron.weights@[j] as int]
                        == o[neuron.weights@[j] as int] by {
                        assert(prev[neuron.weights@[j] as int] == prev.take(start as int)[neuron.weights@[j] as int]);
                    }
                }
                assert(crate::neuron::values_at(prev, xs@) =~= crate::neuron::values_at(o, xs@)) by {
                    assert forall|j: int| 0 <= j < xs@.len() implies prev[xs@[j] as int] == o[xs@[j] as int] by {
                        assert(prev[xs@[j] as int] == prev.take(start as int)[xs@[j] as int]);
                    }
                }
                assert(prev[neuron.bias as int] == prev.take(start as int)[neuron.bias as int]);
            }
            let o = neuron.apply(xs, state);
            proof {
                assert(state.nodes@.take(start as int) =~= prev.take(start as int));
                assert forall|j: int| 0 <= j < k implies #[trigger] state.nodes@[outs@[j] as int] == prev[outs@[j] as int] by {
                    assert(state.nodes@[outs@[j] as int] == state.nodes@.take(prev.len() as int)[outs@[j] as int]);
                }
                assert((k + 1) * w == k * w + w) by (nonlinear_arith);
            }
            outs.push(o);
            k = k + 1;
        }
        outs
    }

    /// Evaluates every neuron on the values `xs`, without touching the tape.
    pub fn eval<V: Scalar>(&self, xs: &Vec<V>, state: &State<V>) -> (outs: Vec<V>)
        requires
            xs@.len() >= 1,
            self.wf(xs@.len(), state.nodes@.len() as nat),
        ensures
            outs@ =~= self.applied_values(state.nodes@, xs@),
    {
        let mut outs: Vec<V> = Vec::new();
        let mut k: usize = 0;
        while k < self.neurons.len()
            invariant
                k <= self.neurons@.len(),
                self.wf(xs@.len(), state.nodes@.len() as nat),
                xs@.len() >= 1,
                outs@ =~= self.applied_values(state.nodes@, xs@).take(k as int),
            decreases self.neurons@.len() - k,
        {
            outs.push(self.neurons[k].eval(xs, state));
            k = k + 1;
        }
        outs
    }
}

} // verus!
