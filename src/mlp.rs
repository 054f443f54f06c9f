use vstd::prelude::*;

use crate::layer::Layer;
use crate::node::{add_tape, back, backward, exp_tape, grads_below, leaf_tape, sub_tape, Node, Op};
use crate::neuron::{covers, lemma_covers_concat, lemma_covers_onto, lemma_leaves_kept, lemma_leaves_kept_data, parameter_leaves};
use crate::scalar::Scalar;
use crate::state::State;
use vstd::string::*;

verus! {

/// The positions of the parameters of the layers of `ls` from index `from`
/// on, the outermost layer first.
pub open spec fn layers_parameter_seq(ls: Seq<Layer>, from: int) -> Seq<usize>
    decreases ls.len() - from,
{
    if from < 0 || from >= ls.len() {
        Seq::empty()
    } else {
        layers_parameter_seq(ls, from + 1) + ls[from].parameter_seq()
    }
}

/// The number of parameters of a network with `n_in` inputs and layers of
/// the given widths: each neuron has one weight per input and a bias.
pub open spec fn parameter_count(n_in: int, widths: Seq<u32>) -> int
    decreases widths.len(),
{
    if widths.len() == 0 {
        0
    } else {
        let n = if widths.len() == 1 { n_in } else { widths[widths.len() - 2] as int };
        parameter_count(n_in, widths.drop_last()) + widths.last() * (n + 1)
    }
}

/// The number of neurons in the layers of `ls`.
pub open spec fn neuron_total(ls: Seq<Layer>) -> nat
    decreases ls.len(),
{
    if ls.len() == 0 {
        0
    } else {
        neuron_total(ls.drop_last()) + ls.last().neurons@.len()
    }
}

/// What the last round of training reports: the loss, and the network's
/// output for each sample.
pub struct Report<V> {
    pub loss: V,
    pub outputs: Vec<V>,
}

/// `new` has the nodes of `old`, in the same places, with the same
/// operations and kinds; only values, gradients and names may differ.
pub open spec fn same_shape<V>(old: Seq<Node<V>>, new: Seq<Node<V>>) -> bool {
    &&& new.len() == old.len()
    &&& forall|i: int|
        0 <= i < old.len() ==> {
            &&& (#[trigger] new[i]).idx == old[i].idx
            &&& new[i].op == old[i].op
            &&& new[i].parameter == old[i].parameter
        }
}

/// The values that a forward pass on the tape builds for the outputs of the
/// first `n` layers of `ls`, from the input values `xv` and the parameter
/// values in `s`.
pub open spec fn forward_applied<V: Scalar>(ls: Seq<Layer>, s: Seq<Node<V>>, xv: Seq<V>, n: int) -> Seq<V>
    decreases n,
{
    if n <= 0 {
        xv
    } else {
        ls[n - 1].applied_values(s, forward_applied(ls, s, xv, n - 1))
    }
}

/// The values of a sample's named inputs.
pub open spec fn sample_values<'a, V>(xs: Seq<(V, &'a str)>) -> Seq<V> {
    Seq::new(xs.len(), |k: int| xs[k].0)
}

/// `t` with a leaf for each of the first `i` values of `xv`.
pub open spec fn inputs_tape<V: Scalar>(t: Seq<Node<V>>, xv: Seq<V>, i: int) -> Seq<Node<V>>
    decreases i,
{
    if i <= 0 {
        t
    } else {
        leaf_tape(inputs_tape(t, xv, i - 1), xv[i - 1], false)
    }
}

/// The positions of the outputs of a layer of `m` neurons applied at the
/// end of a tape of length `b`, each neuron appending `w` nodes.
pub open spec fn layer_outputs(b: int, m: int, w: int) -> Seq<usize> {
    Seq::new(m as nat, |k: int| (b + (k + 1) * w - 1) as usize)
}

/// The tape after the first `n` layers of `ls` are applied, the first fed
/// the positions `xs`, with the positions of the last of those layers'
/// outputs.
pub open spec fn layers_tape<V: Scalar>(t: Seq<Node<V>>, ls: Seq<Layer>, xs: Seq<usize>, n: int) -> (
    Seq<Node<V>>,
    Seq<usize>,
)
    decreases n,
{
    if n <= 0 {
        (t, xs)
    } else {
        let prev = layers_tape(t, ls, xs, n - 1);
        let l = ls[n - 1];
        (
            l.apply_tape(prev.0, prev.1, l.neurons@.len() as int),
            layer_outputs(prev.0.len() as int, l.neurons@.len() as int, 2 * prev.1.len() as int + 2),
        )
    }
}

/// The positions of the checkpoints that the first `n` layers create, layer
/// by layer, each in neuron order.
pub open spec fn layers_created<V: Scalar>(t: Seq<Node<V>>, ls: Seq<Layer>, xs: Seq<usize>, n: int) -> Seq<usize>
    decreases n,
{
    if n <= 0 {
        Seq::empty()
    } else {
        layers_created(t, ls, xs, n - 1) + layers_tape(t, ls, xs, n).1
    }
}

/// `s` in reverse order.
pub open spec fn reversed(s: Seq<usize>) -> Seq<usize> {
    Seq::new(s.len(), |j: int| s[s.len() - 1 - j])
}

/// What `apply` of a network with layers `ls` on the named inputs `xs` does
/// to the tape `t`: the new tape, the outputs, and the checkpoints.
pub open spec fn apply_result<'a, V: Scalar>(t: Seq<Node<V>>, ls: Seq<Layer>, xs: Seq<(V, &'a str)>) -> (
    Seq<Node<V>>,
    Seq<usize>,
    Seq<usize>,
) {
    let n = xs.len() as int;
    let t0 = inputs_tape(t, sample_values(xs), n);
    let pos = Seq::new(n as nat, |k: int| (t.len() + k) as usize);
    let r = layers_tape(t0, ls, pos, ls.len() as int);
    (r.0, r.1, reversed(layers_created(t0, ls, pos, ls.len() as int)))
}

/// The tape after the forward passes of the first `s` samples of `inputs`.
pub open spec fn forward_tape<'a, V: Scalar>(t: Seq<Node<V>>, ls: Seq<Layer>, inputs: Seq<Vec<(V, &'a str)>>, s: int) -> Seq<
    Node<V>,
>
    decreases s,
{
    if s <= 0 {
        t
    } else {
        apply_result(forward_tape(t, ls, inputs, s - 1), ls, inputs[s - 1]@).0
    }
}

/// The first output of each sample's forward pass.
pub open spec fn forward_outputs<'a, V: Scalar>(t: Seq<Node<V>>, ls: Seq<Layer>, inputs: Seq<Vec<(V, &'a str)>>) -> Seq<
    usize,
> {
    Seq::new(inputs.len(), |s: int| apply_result(forward_tape(t, ls, inputs, s), ls, inputs[s]@).1[0])
}

/// The checkpoints of each sample's forward pass.
pub open spec fn forward_checkpoints<'a, V: Scalar>(t: Seq<Node<V>>, ls: Seq<Layer>, inputs: Seq<Vec<(V, &'a str)>>) -> Seq<
    Seq<usize>,
> {
    Seq::new(inputs.len(), |s: int| apply_result(forward_tape(t, ls, inputs, s), ls, inputs[s]@).2)
}

/// `t` with a leaf for each of the first `i` expected values.
pub open spec fn expect_tape<V: Scalar>(t: Seq<Node<V>>, e: Seq<V>, i: int) -> Seq<Node<V>>
    decreases i,
{
    if i <= 0 {
        t
    } else {
        leaf_tape(expect_tape(t, e, i - 1), e[i - 1], false)
    }
}

/// `t` after the squared errors of the first `i` pairs, the expected value
/// of pair `k` being at position `start + k`, each added to the sum of the
/// ones before it.
pub open spec fn pairs_tape<V: Scalar>(t: Seq<Node<V>>, actual: Seq<usize>, start: int, i: int) -> Seq<Node<V>>
    decreases i,
{
    if i <= 0 {
        t
    } else {
        let t1 = pairs_tape(t, actual, start, i - 1);
        let d = sub_tape(t1, actual[i - 1], (start + i - 1) as usize);
        let q = exp_tape(d, (d.len() - 1) as usize, V::sum(V::one_value(), V::one_value()));
        if i == 1 {
            q
        } else {
            add_tape(q, (t1.len() - 1) as usize, (q.len() - 1) as usize)
        }
    }
}

/// `t` after `loss(e, actual)`.
pub open spec fn loss_tape<V: Scalar>(t: Seq<Node<V>>, e: Seq<V>, actual: Seq<usize>) -> Seq<Node<V>> {
    pairs_tape(expect_tape(t, e, e.len() as int), actual, t.len() as int, e.len() as int)
}

/// `t` with the value of every node before position `p` moved by `-step`
/// times its gradient.
pub open spec fn learn_tape<V: Scalar>(t: Seq<Node<V>>, p: int, step: V) -> Seq<Node<V>> {
    Seq::new(
        t.len(),
        |i: int|
            if i < p {
                Node { data: V::difference(t[i].data, V::product(t[i].grad, step)), ..t[i] }
            } else {
                t[i]
            },
    )
}

/// `t` with the gradients of the nodes before position `p` set to zero,
/// then the gradient of node `l` set to one.
pub open spec fn seeded<V: Scalar>(t: Seq<Node<V>>, p: int, l: int) -> Seq<Node<V>> {
    let z = Seq::new(t.len(), |i: int| if i < p { Node { grad: V::zero_value(), ..t[i] } } else { t[i] });
    z.update(l, Node { grad: V::one_value(), ..z[l] })
}

/// The tape after walking backward from the level-`j` checkpoints of the
/// first `n` samples, in sample order.
pub open spec fn back_level<V: Scalar>(t: Seq<Node<V>>, checks: Seq<Seq<usize>>, j: int, n: int) -> Seq<Node<V>>
    decreases n,
{
    if n <= 0 {
        t
    } else {
        backward(back_level(t, checks, j, n - 1), checks[n - 1][j] as int)
    }
}

/// The tape after walking backward from the checkpoints of levels
/// `0 .. m`, one level (every sample) after the other.
pub open spec fn back_levels<V: Scalar>(t: Seq<Node<V>>, checks: Seq<Seq<usize>>, m: int) -> Seq<Node<V>>
    decreases m,
{
    if m <= 0 {
        t
    } else {
        back_level(back_levels(t, checks, m - 1), checks, m - 1, checks.len() as int)
    }
}

/// The number of nodes that the first `n` layers of `ls` append in one
/// forward pass, the first layer taking `n_in` inputs: each neuron appends
/// `2 * inputs + 2` nodes.
pub open spec fn pass_size(ls: Seq<Layer>, n_in: int, n: int) -> int
    decreases n,
{
    if n <= 0 {
        0
    } else {
        let inputs = if n == 1 { n_in } else { ls[n - 2].neurons@.len() as int };
        pass_size(ls, n_in, n - 1) + ls[n - 1].neurons@.len() * (2 * inputs + 2)
    }
}

/// The inputs of the last layer of `ls`, the first taking `n_in`.
pub open spec fn last_inputs(ls: Seq<Layer>, n_in: int) -> int {
    if ls.len() <= 1 { n_in } else { ls[ls.len() - 2].neurons@.len() as int }
}

/// The number of nodes that one sample's forward pass appends: its input
/// leaves, then every neuron's nodes.
pub open spec fn sample_size(ls: Seq<Layer>, n_in: int) -> int {
    n_in + pass_size(ls, n_in, ls.len() as int)
}

/// Where, within the nodes that one sample's forward pass appends, the
/// checkpoint of the first neuron of the last layer sits.
pub open spec fn first_output_offset(ls: Seq<Layer>, n_in: int) -> int {
    let w = 2 * last_inputs(ls, n_in) + 2;
    sample_size(ls, n_in) - ls.last().neurons@.len() * w + w - 1
}

/// One term of the loss as the tape builds it: `(a + e * (0 - 1))^(1 + 1)`.
pub open spec fn error_term<V: Scalar>(e: V, a: V) -> V {
    let neg = V::difference(V::zero_value(), V::one_value());
    V::power(V::sum(a, V::product(e, neg)), V::sum(V::one_value(), V::one_value()))
}

/// The terms of the first `n >= 1` pairs, added up from the first pair on.
pub open spec fn squared_error<V: Scalar>(expect: Seq<V>, actual: Seq<V>, n: int) -> V
    decreases n,
{
    if n <= 1 {
        error_term(expect[0], actual[0])
    } else {
        V::sum(squared_error(expect, actual, n - 1), error_term(expect[n - 1], actual[n - 1]))
    }
}

/// The parameters of the first `i` layers are no more than those of all.
pub proof fn lemma_count_prefix(n_in: int, widths: Seq<u32>, i: int)
    requires
        n_in >= 0,
        0 <= i <= widths.len(),
    ensures
        parameter_count(n_in, widths.take(i)) <= parameter_count(n_in, widths),
    decreases widths.len(),
{
    if i < widths.len() {
        lemma_count_prefix(n_in, widths.drop_last(), i);
        assert(widths.drop_last().take(i) =~= widths.take(i));
        let n = if widths.len() == 1 { n_in } else { widths[widths.len() - 2] as int };
        let w = widths.last() as int;
        assert(w * (n + 1) >= 0) by (nonlinear_arith)
            requires
                w >= 0,
                n >= 0,
        ;
    } else {
        assert(widths.take(i) =~= widths);
    }
}

/// A layer added on the inside goes last in the outermost-first order.
pub proof fn lemma_layers_push(ls: Seq<Layer>, l: Layer, from: int)
    requires
        0 <= from <= ls.len(),
    ensures
        layers_parameter_seq(ls.push(l), from) =~= l.parameter_seq() + layers_parameter_seq(ls, from),
    decreases ls.len() - from,
{
    if from < ls.len() {
        lemma_layers_push(ls, l, from + 1);
        assert(ls.push(l)[from] == ls[from]);
    } else {
        assert(layers_parameter_seq(ls.push(l), from + 1) =~= Seq::<usize>::empty());
    }
}

/// A multi-layer perceptron whose weights and biases are parameter leaves
/// at the front of the tape.
pub struct MLP {
    n_in: u32,
    layers: Vec<Layer>,
    parameters: Vec<usize>,
}

impl MLP {
    /// The positions of the parameters, in the order of the state vector.
    pub closed spec fn parameter_positions(&self) -> Seq<usize> {
        self.parameters@
    }

    /// The layers, the input layer first.
    pub closed spec fn layer_seq(&self) -> Seq<Layer> {
        self.layers@
    }

    /// The number of inputs of each sample.
    pub closed spec fn input_width(&self) -> nat {
        self.n_in as nat
    }

    /// The number of neurons of each layer, the input layer first.
    pub open spec fn layer_widths(&self) -> Seq<nat> {
        self.layer_seq().map_values(|l: Layer| l.neurons@.len())
    }

    /// The network's layers fit together and fit `state`: the parameters are
    /// exactly the leaves at positions `0 .. P` of the tape, each listed once.
    pub closed spec fn wf<V>(&self, state: &State<V>) -> bool {
        let p = self.parameters@.len();
        let ls = self.layers@;
        &&& state.wf()
        &&& self.n_in >= 1
        &&& ls.len() >= 1
        &&& forall|li: int| 0 <= li < ls.len() ==> (#[trigger] ls[li]).neurons@.len() >= 1
        &&& ls[0].wf(self.n_in as nat, p as nat)
        &&& forall|li: int| 1 <= li < ls.len() ==> (#[trigger] ls[li]).wf(ls[li - 1].neurons@.len(), p as nat)
        &&& self.parameters@ == layers_parameter_seq(ls, 0)
        &&& covers(self.parameters@, 0, p as int)
        &&& p <= state.nodes@.len()
        &&& parameter_leaves(state.nodes@, 0, p as int)
    }

    /// Builds a network taking `n_in` inputs, with one layer per entry of
    /// `layer_sizes` (the last one being the output layer), on an empty tape.
    /// The tape position `i` gets the initial value `values[i]`: layer by
    /// layer from the input side, neuron by neuron, its weights then its bias.
    pub fn new<V: Scalar>(n_in: u32, layer_sizes: Vec<u32>, state: &mut State<V>, values: &Vec<V>) -> (r: MLP)
        requires
            old(state).wf(),
            old(state).nodes@.len() == 0,
            n_in >= 1,
            layer_sizes@.len() >= 1,
            forall|k: int| 0 <= k < layer_sizes@.len() ==> #[trigger] layer_sizes@[k] >= 1,
            values@.len() == parameter_count(n_in as int, layer_sizes@),
        ensures
            covers(r.parameter_positions(), 0, r.parameter_positions().len() as int),
            parameter_leaves(final(state).nodes@, 0, r.parameter_positions().len() as int),
            forall|i: int| 0 <= i < values@.len() ==> #[trigger] final(state).nodes@[i].data == values@[i],
            forall|i: int| 0 <= i < values@.len() ==> #[trigger] final(state).nodes@[i].grad == V::zero_value(),
            r.wf(final(state)),
            r.input_width() == n_in,
            r.layer_widths() =~= layer_sizes@.map_values(|w: u32| w as nat),
            r.layer_seq().len() == layer_sizes@.len(),
            forall|k: int| 0 <= k < layer_sizes@.len() ==> #[trigger] r.layer_seq()[k].neurons@.len() == layer_sizes@[k],
            r.layer_seq()[0].wf(n_in as nat, r.parameter_positions().len() as nat),
            forall|k: int|
                1 <= k < layer_sizes@.len() ==> #[trigger] r.layer_seq()[k].wf(
                    layer_sizes@[k - 1] as nat,
                    r.parameter_positions().len() as nat,
                ),
            r.parameter_positions().len() == parameter_count(n_in as int, layer_sizes@),
            final(state).nodes@.len() == r.parameter_positions().len(),
    {
        let ghost sizes = layer_sizes@;
        let mut layers: Vec<Layer> = Vec::new();
        proof {
            assert(sizes.take(1).drop_last() =~= Seq::<u32>::empty());
            assert(sizes.take(1).last() == sizes[0]);
            assert(parameter_count(n_in as int, Seq::<u32>::empty()) == 0);
            lemma_count_prefix(n_in as int, sizes, 1);
        }
        let first = Layer::new(n_in, layer_sizes[0], String::from_str("ins"), state, values, 0);
        layers.push(first);
        proof {
            assert forall|j: int| 0 <= j < state.nodes@.len() implies #[trigger] state.nodes@[j].data == values@[j] by {
                assert(state.nodes@[0 + j].data == values@[0 + j]);
            }
            assert forall|j: int| 0 <= j < state.nodes@.len() implies #[trigger] state.nodes@[j].grad == V::zero_value() by {
                assert(state.nodes@[0 + j].grad == V::zero_value());
            }
            lemma_layers_push(Seq::empty(), first, 0);
            assert(Seq::<Layer>::empty().push(first) =~= layers@);
            assert(layers_parameter_seq(Seq::<Layer>::empty(), 0) =~= Seq::<usize>::empty());
            assert(first.parameter_seq() + Seq::<usize>::empty() =~= first.parameter_seq());
            assert(sizes.take(1).drop_last() =~= Seq::<u32>::empty());
            assert(sizes.take(1).last() == sizes[0]);
            assert(parameter_count(n_in as int, Seq::<u32>::empty()) == 0);
        }
        let mut i: usize = 1;
        while i < layer_sizes.len()
            invariant
                1 <= i <= sizes.len(),
                sizes == layer_sizes@,
                n_in >= 1,
                forall|k: int| 0 <= k < sizes.len() ==> #[trigger] sizes[k] >= 1,
                layers@.len() == i,
                state.wf(),
                state.nodes@.len() == layers_parameter_seq(layers@, 0).len(),
                covers(layers_parameter_seq(layers@, 0), 0, state.nodes@.len() as int),
                parameter_leaves(state.nodes@, 0, state.nodes@.len() as int),
                state.nodes@.len() == parameter_count(n_in as int, sizes.take(i as int)),
                forall|li: int| 0 <= li < i ==> (#[trigger] layers@[li]).neurons@.len() == sizes[li],
                layers@[0].wf(n_in as nat, state.nodes@.len() as nat),
                forall|li: int|
                    1 <= li < i ==> (#[trigger] layers@[li]).wf(sizes[li - 1] as nat, state.nodes@.len() as nat),
                values@.len() == parameter_count(n_in as int, sizes),
                forall|j: int| 0 <= j < state.nodes@.len() ==> #[trigger] state.nodes@[j].data == values@[j],
                forall|j: int| 0 <= j < state.nodes@.len() ==> #[trigger] state.nodes@[j].grad == V::zero_value(),
            decreases sizes.len() - i,
        {
            let label = i.to_string();
            let ghost prev = state.nodes@;
            let ghost prev_layers = layers@;
            proof {
                assert(sizes.take(i + 1).drop_last() =~= sizes.take(i as int));
                assert(sizes.take(i + 1).last() == sizes[i as int]);
                assert(sizes.take(i + 1)[i - 1] == sizes[i - 1]);
                lemma_count_prefix(n_in as int, sizes, i + 1);
            }
            let at = state.nodes.len();
            let layer = Layer::new(layer_sizes[i - 1], layer_sizes[i], label, state, values, at);
            layers.push(layer);
            proof {
                assert forall|j: int| 0 <= j < state.nodes@.len() implies #[trigger] state.nodes@[j].data
                    == values@[j] by {
                    if j < prev.len() {
                        assert(state.nodes@[j] == state.nodes@.take(prev.len() as int)[j]);
                    } else {
                        assert(state.nodes@[prev.len() + (j - prev.len())].data == values@[at + (j - prev.len())]);
                    }
                }
                assert forall|j: int| 0 <= j < state.nodes@.len() implies #[trigger] state.nodes@[j].grad
                    == V::zero_value() by {
                    if j < prev.len() {
                        assert(state.nodes@[j] == state.nodes@.take(prev.len() as int)[j]);
                    } else {
                        assert(state.nodes@[prev.len() + (j - prev.len())].grad == V::zero_value());
                    }
                }
                let len = state.nodes@.len() as nat;
                lemma_layers_push(prev_layers, layer, 0);
                lemma_covers_concat(
                    layers_parameter_seq(prev_layers, 0),
                    layer.parameter_seq(),
                    0,
                    prev.len() as int,
                    len as int,
                );
                lemma_leaves_kept(prev, state.nodes@, 0, prev.len() as int);
                assert forall|j: int| 0 <= j < len implies (#[trigger] state.nodes@[j]).op
                    == crate::node::Op::<V>::End && state.nodes@[j].parameter by {
                    if j < prev.len() {
                        assert(parameter_leaves(state.nodes@, 0, prev.len() as int));
                    }
                }
                prev_layers[0].lemma_wf_grow(n_in as nat, prev.len() as nat, len);
                assert forall|li: int| 1 <= li < i + 1 implies (#[trigger] layers@[li]).wf(
                    sizes[li - 1] as nat,
                    len,
                ) by {
                    if li < i {
                        assert(prev_layers[li].wf(sizes[li - 1] as nat, prev.len() as nat));
                        prev_layers[li].lemma_wf_grow(sizes[li - 1] as nat, prev.len() as nat, len);
                    }
                }
                assert(sizes.take(i + 1).drop_last() =~= sizes.take(i as int));
            }
            i = i + 1;
        }
        let ghost len = state.nodes@.len();
        let mut parameters: Vec<usize> = Vec::new();
        let mut li: usize = layers.len();
        while li > 0
            invariant
                li <= layers@.len(),
                parameters@ == layers_parameter_seq(layers@, li as int),
            decreases li,
        {
            li = li - 1;
            let layer = &layers[li];
            let ghost base = parameters@;
            let mut k: usize = 0;
            while k < layer.neurons.len()
                invariant
                    k <= layer.neurons@.len(),
                    parameters@ == base + crate::layer::neurons_parameter_seq(layer.neurons@.take(k as int)),
                decreases layer.neurons@.len() - k,
            {
                let neuron = &layer.neurons[k];
                let ghost before = parameters@;
                parameters.push(neuron.bias);
                let mut j: usize = 0;
                while j < neuron.weights.len()
                    invariant
                        j <= neuron.weights@.len(),
                        parameters@ == before + seq![neuron.bias] + neuron.weights@.take(j as int),
                    decreases neuron.weights@.len() - j,
                {
                    parameters.push(neuron.weights[j]);
                    proof {
                        assert(neuron.weights@.take(j + 1) =~= neuron.weights@.take(j as int).push(neuron.weights@[j as int]));
                    }
                    j = j + 1;
                }
                proof {
                    assert(neuron.weights@.take(j as int) =~= neuron.weights@);
                    assert(layer.neurons@.take(k + 1).drop_last() =~= layer.neurons@.take(k as int));
                    assert(parameters@ =~= base + crate::layer::neurons_parameter_seq(layer.neurons@.take(k + 1)));
                }
                k = k + 1;
            }
            proof {
                assert(layer.neurons@.take(k as int) =~= layer.neurons@);
            }
        }
        let r = MLP { n_in, layers, parameters };
        proof {
            assert(r.layer_widths() =~= sizes.map_values(|w: u32| w as nat));
            assert(sizes.take(sizes.len() as int) =~= sizes);
        }
        r
    }

    /// The first output that a forward pass on the tape builds for the named
    /// inputs `xs`, from the parameter values in `s`.
    pub open spec fn prediction<'a, V: Scalar>(&self, s: Seq<Node<V>>, xs: Seq<(V, &'a str)>) -> V {
        forward_applied(self.layer_seq(), s, sample_values(xs), self.layer_seq().len() as int)[0]
    }

    /// The prediction for each sample of `inputs`.
    pub open spec fn predictions<'a, V: Scalar>(&self, s: Seq<Node<V>>, inputs: Seq<Vec<(V, &'a str)>>) -> Seq<V> {
        Seq::new(inputs.len(), |t: int| self.prediction(s, inputs[t]@))
    }

    /// The tape after the forward passes of every sample of `inputs` and the
    /// loss against `expected`, from the tape `t`.
    pub open spec fn round_tape<'a, V: Scalar>(
        &self,
        t: Seq<Node<V>>,
        inputs: Seq<Vec<(V, &'a str)>>,
        expected: Seq<V>,
    ) -> Seq<Node<V>> {
        let ls = self.layer_seq();
        loss_tape(forward_tape(t, ls, inputs, inputs.len() as int), expected, forward_outputs(t, ls, inputs))
    }

    /// The tape after one `train_step` from the tape `t`: the round's
    /// forward passes and loss, `backprop` from the loss and the round's
    /// checkpoints, the descent step, and the cut back to the parameters.
    pub open spec fn step_tape<'a, V: Scalar>(
        &self,
        t: Seq<Node<V>>,
        inputs: Seq<Vec<(V, &'a str)>>,
        expected: Seq<V>,
        step: V,
    ) -> Seq<Node<V>> {
        let p = self.parameter_positions().len() as int;
        let r = self.round_tape(t, inputs, expected);
        let l = r.len() - 1;
        let cs = forward_checkpoints(t, self.layer_seq(), inputs);
        let g = back_levels(backward(seeded(r, p, l), l), cs, cs[0].len() as int);
        learn_tape(g, p, step).take(p)
    }

    /// The tape after `n` rounds of `train_step` from the tape `t`.
    pub open spec fn trained<'a, V: Scalar>(
        &self,
        t: Seq<Node<V>>,
        inputs: Seq<Vec<(V, &'a str)>>,
        expected: Seq<V>,
        step: V,
        n: int,
    ) -> Seq<Node<V>>
        decreases n,
    {
        if n <= 0 {
            t
        } else {
            self.step_tape(self.trained(t, inputs, expected, step, n - 1), inputs, expected, step)
        }
    }

    /// The number of checkpoints that one forward pass creates: one per neuron.
    pub closed spec fn checkpoint_count(&self) -> nat {
        neuron_total(self.layers@)
    }

    /// The current value of every parameter, in the order of the state vector.
    pub open spec fn parameter_values<V>(&self, state: &State<V>) -> Seq<V> {
        let ps = self.parameter_positions();
        Seq::new(ps.len(), |k: int| state.nodes@[ps[k] as int].data)
    }

    /// `after` is `before` with the parameter values replaced by `w`, in
    /// order; nothing else differs.
    pub open spec fn loaded<V>(&self, before: Seq<Node<V>>, w: Seq<V>, after: Seq<Node<V>>) -> bool {
        let ps = self.parameter_positions();
        &&& after.len() == before.len()
        &&& forall|k: int|
            0 <= k < ps.len() ==> #[trigger] after[ps[k] as int] == (Node { data: w[k], ..before[ps[k] as int] })
        &&& forall|i: int| ps.len() <= i < before.len() ==> #[trigger] after[i] == before[i]
    }

    /// Creates a leaf for each named input value, then threads them through
    /// the layers in order. Returns the outputs of the last layer, and the
    /// checkpoints of all neurons in the reverse of the order they were
    /// created in, so that walking them in turn goes from the output back
    /// towards the inputs.
    pub fn apply<V: Scalar>(&self, xs: &Vec<(V, &str)>, state: &mut State<V>) -> (r: (Vec<usize>, Vec<usize>))
        requires
            self.wf(old(state)),
            xs@.len() == self.input_width(),
        ensures
            self.wf(final(state)),
            final(state).nodes@.len() >= old(state).nodes@.len(),
            final(state).nodes@.take(old(state).nodes@.len() as int) =~= old(state).nodes@,
            r.0@.len() == self.layer_widths().last(),
            r.0@.len() >= 1,
            forall|k: int| 0 <= k < r.0@.len() ==> #[trigger] r.0@[k] < final(state).nodes@.len(),
            r.1@.len() == self.checkpoint_count(),
            forall|k: int| 0 <= k < r.1@.len() ==> #[trigger] r.1@[k] < final(state).nodes@.len(),
            final(state).nodes@.len() >= old(state).nodes@.len() + xs@.len(),
            final(state).nodes@.len() == old(state).nodes@.len() + xs@.len() + pass_size(
                self.layer_seq(),
                self.input_width() as int,
                self.layer_seq().len() as int,
            ),
            forall|a: int, b: int| 0 <= a < b < r.0@.len() ==> r.0@[a] < r.0@[b],
            r.0@.last() == final(state).nodes@.len() - 1,
            r.0@[0] == old(state).nodes@.len() + first_output_offset(self.layer_seq(), self.input_width() as int),
            final(state).nodes@ == apply_result(old(state).nodes@, self.layer_seq(), xs@).0,
            r.0@ == apply_result(old(state).nodes@, self.layer_seq(), xs@).1,
            r.1@ == apply_result(old(state).nodes@, self.layer_seq(), xs@).2,
            forall|k: int|
                0 <= k < r.0@.len() ==> #[trigger] final(state).nodes@[r.0@[k] as int].data == forward_applied(
                    self.layer_seq(),
                    old(state).nodes@,
                    sample_values(xs@),
                    self.layer_seq().len() as int,
                )[k],
            forall|k: int| 0 <= k < r.0@.len() ==> (#[trigger] final(state).nodes@[r.0@[k] as int]).op is Pass,
            forall|a: int, b: int| 0 <= a < b < r.1@.len() ==> r.1@[a] > r.1@[b],
            forall|k: int| 0 <= k < r.1@.len() ==> (#[trigger] final(state).nodes@[r.1@[k] as int]).op is Pass,
            forall|k: int|
                0 <= k < xs@.len() ==> {
                    &&& (#[trigger] final(state).nodes@[old(state).nodes@.len() + k]).op == Op::<V>::End
                    &&& final(state).nodes@[old(state).nodes@.len() + k].data == xs@[k].0
                    &&& !final(state).nodes@[old(state).nodes@.len() + k].parameter
                },
    {
        let ghost start = state.nodes@.len();
        let ghost p = self.parameters@.len();
        let mut inputs: Vec<usize> = Vec::new();
        let mut i: usize = 0;
        while i < xs.len()
            invariant
                i <= xs@.len(),
                state.wf(),
                state.nodes@.len() == start + i,
                state.nodes@.take(start as int) =~= old(state).nodes@,
                start == old(state).nodes@.len(),
                inputs@.len() == i,
                forall|k: int| 0 <= k < i ==> #[trigger] inputs@[k] < state.nodes@.len(),
                forall|k: int| 0 <= k < i ==> #[trigger] inputs@[k] == start + k,
                state.nodes@ == inputs_tape(old(state).nodes@, sample_values(xs@), i as int),
                forall|k: int|
                    0 <= k < i ==> {
                        &&& (#[trigger] state.nodes@[start + k]).op == Op::<V>::End
                        &&& state.nodes@[start + k].data == xs@[k].0
                        &&& !state.nodes@[start + k].parameter
                    },
            decreases xs@.len() - i,
        {
            let ghost prev = state.nodes@;
            let idx = Node::new(xs[i].0, String::from_str(xs[i].1), false, state);
            proof {
                assert(state.nodes@.take(start as int) =~= prev.take(start as int));
                assert forall|k: int| 0 <= k < i implies #[trigger] state.nodes@[start + k] == prev[start + k] by {
                    assert(state.nodes@[start + k] == state.nodes@.take(prev.len() as int)[start + k]);
                }
            }
            inputs.push(idx);
            i = i + 1;
        }
        let ghost with_inputs = state.nodes@;
        let ghost pos = Seq::new(xs@.len(), |k: int| (start + k) as usize);
        proof {
            assert(inputs@ =~= pos);
        }
        let mut outputs: Vec<usize> = inputs;
        let mut created: Vec<usize> = Vec::new();
        let mut li: usize = 0;
        while li < self.layers.len()
            invariant
                li <= self.layers@.len(),
                self.layers@.len() >= 1,
                forall|j: int| 0 <= j < self.layers@.len() ==> (#[trigger] self.layers@[j]).neurons@.len() >= 1,
                self.layers@[0].wf(self.n_in as nat, p as nat),
                forall|j: int|
                    1 <= j < self.layers@.len() ==> (#[trigger] self.layers@[j]).wf(
                        self.layers@[j - 1].neurons@.len(),
                        p as nat,
                    ),
                p <= start,
                xs@.len() == self.n_in,
                state.wf(),
                state.nodes@.len() >= with_inputs.len(),
                with_inputs.len() == start + xs@.len(),
                state.nodes@.take(with_inputs.len() as int) =~= with_inputs,
                with_inputs.take(start as int) =~= old(state).nodes@,
                li == 0 ==> outputs@.len() == self.n_in,
                li > 0 ==> outputs@.len() == self.layers@[li - 1].neurons@.len(),
                outputs@.len() >= 1,
                forall|k: int| 0 <= k < outputs@.len() ==> #[trigger] outputs@[k] < state.nodes@.len(),
                created@.len() == neuron_total(self.layers@.take(li as int)),
                forall|k: int| 0 <= k < created@.len() ==> #[trigger] created@[k] < state.nodes@.len(),
                state.nodes@.len() == with_inputs.len() + pass_size(self.layers@, self.n_in as int, li as int),
                forall|a: int, b: int| 0 <= a < b < created@.len() ==> created@[a] < created@[b],
                forall|k: int| 0 <= k < created@.len() ==> (#[trigger] state.nodes@[created@[k] as int]).op is Pass,
                li > 0 ==> forall|a: int, b: int| 0 <= a < b < outputs@.len() ==> outputs@[a] < outputs@[b],
                li > 0 ==> outputs@.last() == state.nodes@.len() - 1,
                self.wf(old(state)),
                pos == Seq::new(xs@.len(), |k: int| (start + k) as usize),
                state.nodes@ == layers_tape(with_inputs, self.layers@, pos, li as int).0,
                outputs@ == layers_tape(with_inputs, self.layers@, pos, li as int).1,
                created@ == layers_created(with_inputs, self.layers@, pos, li as int),
                forall|k: int|
                    0 <= k < outputs@.len() ==> #[trigger] state.nodes@[outputs@[k] as int].data == forward_applied(
                        self.layers@,
                        old(state).nodes@,
                        sample_values(xs@),
                        li as int,
                    )[k],
                li > 0 ==> outputs@[0] + self.layers@[li - 1].neurons@.len() * (2 * last_inputs(
                    self.layers@.take(li as int),
                    self.n_in as int,
                ) + 2) == state.nodes@.len() + (2 * last_inputs(self.layers@.take(li as int), self.n_in as int) + 2) - 1,
                li > 0 ==> forall|k: int|
                    0 <= k < outputs@.len() ==> (#[trigger] state.nodes@[outputs@[k] as int]).op is Pass,
            decreases self.layers@.len() - li,
        {
            let layer = &self.layers[li];
            let ghost prev = state.nodes@;
            let ghost before_created = created@;
            proof {
                assert(prev.take(p as int) =~= old(state).nodes@.take(p as int)) by {
                    assert(prev.take(p as int) =~= prev.take(with_inputs.len() as int).take(p as int));
                    assert(with_inputs.take(p as int) =~= with_inputs.take(start as int).take(p as int));
                }
                self.lemma_applied_params(old(state), prev, sample_values(xs@), li as int);
                self.lemma_applied_params(old(state), prev, sample_values(xs@), li + 1);
                assert(crate::neuron::values_at(prev, outputs@) =~= forward_applied(
                    self.layers@,
                    prev,
                    sample_values(xs@),
                    li as int,
                ));
            }
            proof {
                if li == 0 {
                    layer.lemma_wf_grow(self.n_in as nat, p as nat, prev.len() as nat);
                } else {
                    layer.lemma_wf_grow(self.layers@[li - 1].neurons@.len(), p as nat, prev.len() as nat);
                }
            }
            let outs = layer.apply(&outputs, state);
            proof {
                assert(state.nodes@.take(with_inputs.len() as int) =~= prev.take(with_inputs.len() as int));
                let w = 2 * outputs@.len() + 2;
                let m = outs@.len() as int;
                assert forall|a: int, b: int| 0 <= a < b < m implies outs@[a] < outs@[b] by {
                    assert((a + 1) * w < (b + 1) * w) by (nonlinear_arith)
                        requires
                            a < b,
                            w >= 2,
                    ;
                }
                assert forall|a: int| 0 <= a < m implies prev.len() <= #[trigger] outs@[a] by {
                    assert((a + 1) * w >= 1) by (nonlinear_arith)
                        requires
                            a >= 0,
                            w >= 2,
                    ;
                }
                assert(outs@[m - 1] == prev.len() + m * w - 1);
                assert forall|k: int| 0 <= k < m implies #[trigger] state.nodes@[outs@[k] as int].data
                    == forward_applied(self.layers@, old(state).nodes@, sample_values(xs@), li + 1)[k] by {
                    assert(forward_applied(self.layers@, prev, sample_values(xs@), li + 1)[k]
                        == layer.neurons@[k].applied(prev, forward_applied(self.layers@, prev, sample_values(xs@), li as int)));
                }
                let t = self.layers@.take(li + 1);
                assert(t.len() == li + 1);
                if li == 0 {
                    assert(last_inputs(t, self.n_in as int) == self.n_in);
                } else {
                    assert(t[li - 1] == self.layers@[li - 1]);
                    assert(last_inputs(t, self.n_in as int) == self.layers@[li - 1].neurons@.len());
                }
                assert(w == 2 * last_inputs(t, self.n_in as int) + 2);
                assert(outs@[0] == prev.len() + (0 + 1) * w - 1);
                assert((0 + 1) * w == w) by (nonlinear_arith);
                assert(state.nodes@.len() == prev.len() + m * w);
                assert forall|k: int| 0 <= k < before_created.len() implies (#[trigger] state.nodes@[before_created[k] as int]).op is Pass by {
                    assert(state.nodes@[before_created[k] as int] == state.nodes@.take(prev.len() as int)[before_created[k] as int]);
                }
            }
            let mut k: usize = 0;
            let ghost before = created@;
            while k < outs.len()
                invariant
                    k <= outs@.len(),
                    created@ == before + outs@.take(k as int),
                    forall|j: int| 0 <= j < before.len() ==> #[trigger] before[j] < prev.len(),
                    prev.len() <= state.nodes@.len(),
                    forall|j: int| 0 <= j < outs@.len() ==> #[trigger] outs@[j] < state.nodes@.len(),
                decreases outs@.len() - k,
            {
                created.push(outs[k]);
                proof {
                    assert(outs@.take(k + 1) =~= outs@.take(k as int).push(outs@[k as int]));
                }
                k = k + 1;
            }
            proof {
                assert(self.layers@.take(li + 1).drop_last() =~= self.layers@.take(li as int));
                assert(outs@.take(outs@.len() as int) =~= outs@);
                assert(outs@ =~= layer_outputs(prev.len() as int, outs@.len() as int, 2 * outputs@.len() as int + 2));
                assert(created@ =~= layers_created(with_inputs, self.layers@, pos, li + 1));
                assert forall|j: int| 0 <= j < created@.len() implies #[trigger] created@[j] < state.nodes@.len()
                    && (state.nodes@[created@[j] as int]).op is Pass by {
                    if j < before.len() {
                        assert(created@[j] == before[j]);
                    } else {
                        assert(created@[j] == outs@[j - before.len()]);
                    }
                }
                assert forall|a: int, b: int| 0 <= a < b < created@.len() implies created@[a] < created@[b] by {
                    if b < before.len() {
                        assert(created@[a] == before[a] && created@[b] == before[b]);
                    } else if a < before.len() {
                        assert(created@[a] == before[a] && created@[b] == outs@[b - before.len()]);
                    } else {
                        assert(created@[a] == outs@[a - before.len()] && created@[b] == outs@[b - before.len()]);
                    }
                }
            }
            outputs = outs;
            li = li + 1;
        }
        let mut checkpoints: Vec<usize> = Vec::new();
        let mut k: usize = created.len();
        while k > 0
            invariant
                k <= created@.len(),
                checkpoints@.len() == created@.len() - k,
                forall|j: int| 0 <= j < created@.len() ==> #[trigger] created@[j] < state.nodes@.len(),
                forall|j: int| 0 <= j < checkpoints@.len() ==> #[trigger] checkpoints@[j] < state.nodes@.len(),
                forall|j: int| 0 <= j < checkpoints@.len() ==> #[trigger] checkpoints@[j] == created@[created@.len() - 1 - j],
                forall|a: int, b: int| 0 <= a < b < created@.len() ==> created@[a] < created@[b],
            decreases k,
        {
            k = k - 1;
            checkpoints.push(created[k]);
        }
        proof {
            assert(self.layers@.take(self.layers@.len() as int) =~= self.layers@);
            assert(state.nodes@.take(start as int) =~= with_inputs.take(start as int));
            assert forall|k: int| 0 <= k < xs@.len() implies #[trigger] state.nodes@[start + k] == with_inputs[start + k] by {
                assert(state.nodes@[start + k] == state.nodes@.take(with_inputs.len() as int)[start + k]);
            }
            lemma_leaves_kept(old(state).nodes@, state.nodes@, 0, p as int);
            assert(self.layer_widths().last() == self.layers@.last().neurons@.len());
            if self.layers@.len() >= 2 {
                assert(self.layers@[self.layers@.len() - 2] == self.layers@.take(self.layers@.len() as int)[self.layers@.len() - 2]);
            }
            assert forall|a: int, b: int| 0 <= a < b < checkpoints@.len() implies checkpoints@[a] > checkpoints@[b] by {
                assert(checkpoints@[a] == created@[created@.len() - 1 - a]);
                assert(checkpoints@[b] == created@[created@.len() - 1 - b]);
            }
            assert forall|j: int| 0 <= j < checkpoints@.len() implies (#[trigger] state.nodes@[checkpoints@[j] as int]).op is Pass by {
                assert(checkpoints@[j] == created@[created@.len() - 1 - j]);
            }
            assert(checkpoints@ =~= reversed(created@));
            assert(pos =~= Seq::new(xs@.len(), |k: int| (old(state).nodes@.len() + k) as usize));
        }
        (outputs, checkpoints)
    }

    /// The current value of every parameter, in the order of the state vector.
    pub fn get_state<V: Scalar>(&self, state: &State<V>) -> (r: Vec<V>)
        requires
            self.wf(state),
        ensures
            r@ =~= self.parameter_values(state),
    {
        let mut r: Vec<V> = Vec::new();
        let mut k: usize = 0;
        while k < self.parameters.len()
            invariant
                k <= self.parameters@.len(),
                self.wf(state),
                r@ =~= self.parameter_values(state).take(k as int),
            decreases self.parameters@.len() - k,
        {
            r.push(state.nodes[self.parameters[k]].data);
            k = k + 1;
        }
        r
    }

    /// Overwrites the value of every parameter, in order, with `weights`;
    /// gradients are left as they are. The vector must hold exactly one
    /// value per parameter.
    pub fn set_state<V: Scalar>(&self, weights: Vec<V>, state: &mut State<V>)
        requires
            self.wf(old(state)),
            weights@.len() == self.parameter_positions().len(),
        ensures
            self.wf(final(state)),
            self.loaded(old(state).nodes@, weights@, final(state).nodes@),
    {
        let ghost ps = self.parameters@;
        let mut k: usize = 0;
        while k < self.parameters.len()
            invariant
                k <= ps.len(),
                ps == self.parameters@,
                self.wf(old(state)),
                weights@.len() == ps.len(),
                self.wf(state),
                state.nodes@.len() == old(state).nodes@.len(),
                forall|j: int|
                    0 <= j < k ==> #[trigger] state.nodes@[ps[j] as int] == (Node {
                        data: weights@[j],
                        ..old(state).nodes@[ps[j] as int]
                    }),
                forall|i: int|
                    0 <= i < old(state).nodes@.len() && !ps.take(k as int).contains(i as usize)
                        ==> #[trigger] state.nodes@[i] == old(state).nodes@[i],
            decreases ps.len() - k,
        {
            let pos = self.parameters[k];
            state.nodes[pos].data = weights[k];
            proof {
                self.lemma_param_step(old(state).nodes@, state.nodes@, k as int);
                lemma_leaves_kept_data(old(state).nodes@, state.nodes@, ps.len() as int);
            }
            k = k + 1;
        }
        // The tape's length, which fits in a `usize`.
        let total = state.nodes.len();
        proof {
            self.lemma_param_rest(old(state).nodes@, state.nodes@, k as int);
        }
    }

    /// One more parameter written: positions outside the first `k + 1`
    /// parameters are still untouched.
    proof fn lemma_param_step<V>(&self, before: Seq<Node<V>>, after: Seq<Node<V>>, k: int)
        requires
            covers(self.parameters@, 0, self.parameters@.len() as int),
            0 <= k < self.parameters@.len(),
            forall|i: int|
                0 <= i < before.len() && !self.parameters@.take(k).contains(i as usize) && i
                    != self.parameters@[k] ==> #[trigger] after[i] == before[i],
        ensures
            forall|j: int| 0 <= j < k ==> self.parameters@[j] != self.parameters@[k],
            forall|i: int|
                0 <= i < before.len() && !self.parameters@.take(k + 1).contains(i as usize)
                    ==> #[trigger] after[i] == before[i],
    {
        let ps = self.parameters@;
        assert forall|j: int| 0 <= j < k implies ps[j] != ps[k] by {
            assert(ps.no_duplicates());
        }
        assert forall|i: int|
            0 <= i < before.len() && !ps.take(k + 1).contains(i as usize) implies #[trigger] after[i]
                == before[i] by {
            assert(ps.take(k + 1)[k] == ps[k]);
            if ps.take(k).contains(i as usize) {
                let j = choose|j: int| 0 <= j < k && ps.take(k)[j] == i as usize;
                assert(ps.take(k + 1)[j] == i as usize);
            }
        }
    }

    /// Once every parameter is written, the nodes after them are untouched.
    proof fn lemma_param_rest<V>(&self, before: Seq<Node<V>>, after: Seq<Node<V>>, k: int)
        requires
            covers(self.parameters@, 0, self.parameters@.len() as int),
            k == self.parameters@.len(),
            before.len() <= usize::MAX,
            forall|i: int|
                0 <= i < before.len() && !self.parameters@.take(k).contains(i as usize) ==> #[trigger] after[i]
                    == before[i],
        ensures
            forall|i: int| k <= i < before.len() ==> #[trigger] after[i] == before[i],
    {
        let ps = self.parameters@;
        assert forall|i: int| k <= i < before.len() implies #[trigger] after[i] == before[i] by {
            if ps.take(k).contains(i as usize) {
                let j = choose|j: int| 0 <= j < k && ps.take(k)[j] == i as usize;
                assert(ps[j] < ps.len());
            }
        }
    }

    /// The values a forward pass builds depend on the tape only through the
    /// parameters.
    proof fn lemma_applied_params<V: Scalar>(&self, s1: &State<V>, s2: Seq<Node<V>>, xv: Seq<V>, n: int)
        requires
            self.wf(s1),
            s2.len() >= self.parameters@.len(),
            s2.take(self.parameters@.len() as int) =~= s1.nodes@.take(self.parameters@.len() as int),
            0 <= n <= self.layers@.len(),
        ensures
            forward_applied(self.layers@, s1.nodes@, xv, n) =~= forward_applied(self.layers@, s2, xv, n),
        decreases n,
    {
        if n > 0 {
            self.lemma_applied_params(s1, s2, xv, n - 1);
            let p = self.parameters@.len() as int;
            let l = self.layers@[n - 1];
            let inputs = if n == 1 { self.n_in as nat } else { self.layers@[n - 2].neurons@.len() };
            assert(l.wf(inputs, p as nat));
            let x = forward_applied(self.layers@, s1.nodes@, xv, n - 1);
            assert forall|k: int| 0 <= k < l.neurons@.len() implies l.neurons@[k].applied(s1.nodes@, x)
                == l.neurons@[k].applied(s2, x) by {
                let nk = l.neurons@[k];
                assert(nk.wf(inputs, p as nat));
                assert(nk.weight_values(s1.nodes@) =~= nk.weight_values(s2)) by {
                    assert forall|j: int| 0 <= j < nk.weights@.len() implies s1.nodes@[nk.weights@[j] as int]
                        == s2[nk.weights@[j] as int] by {
                        assert(nk.weights@[j] < p);
                        assert(s2[nk.weights@[j] as int] == s2.take(p)[nk.weights@[j] as int]);
                        assert(s1.nodes@[nk.weights@[j] as int] == s1.nodes@.take(p)[nk.weights@[j] as int]);
                    }
                }
                assert(s2[nk.bias as int] == s2.take(p)[nk.bias as int]);
                assert(s1.nodes@[nk.bias as int] == s1.nodes@.take(p)[nk.bias as int]);
            }
            assert(l.applied_values(s1.nodes@, x) =~= l.applied_values(s2, x));
        }
    }

    /// A network that fits a tape fits any tape of the same shape.
    pub proof fn lemma_wf_same_shape<V>(&self, before: &State<V>, after: &State<V>)
        requires
            self.wf(before),
            same_shape(before.nodes@, after.nodes@),
            after.names@.len() == after.nodes@.len(),
        ensures
            self.wf(after),
    {
        assert forall|i: int| 0 <= i < self.parameters@.len() implies (#[trigger] after.nodes@[i]).op
            == Op::<V>::End && after.nodes@[i].parameter by {
            assert(before.nodes@[i].op == Op::<V>::End);
        }
    }

    /// Sets the gradient of every parameter to zero.
    fn zero_grad<V: Scalar>(&self, state: &mut State<V>)
        requires
            self.wf(old(state)),
        ensures
            self.wf(final(state)),
            grads_below(old(state).nodes@, final(state).nodes@, self.parameter_positions().len() as int),
            forall|k: int|
                0 <= k < self.parameter_positions().len() ==> #[trigger] final(state).nodes@[self.parameter_positions()[k] as int]
                    == (Node { grad: V::zero_value(), ..old(state).nodes@[self.parameter_positions()[k] as int] }),
    {
        let ghost ps = self.parameters@;
        let mut k: usize = 0;
        while k < self.parameters.len()
            invariant
                k <= ps.len(),
                ps == self.parameters@,
                self.wf(old(state)),
                state.wf(),
                grads_below(old(state).nodes@, state.nodes@, ps.len() as int),
                forall|j: int|
                    0 <= j < k ==> #[trigger] state.nodes@[ps[j] as int] == (Node {
                        grad: V::zero_value(),
                        ..old(state).nodes@[ps[j] as int]
                    }),
                forall|i: int|
                    0 <= i < old(state).nodes@.len() && !ps.take(k as int).contains(i as usize)
                        ==> #[trigger] state.nodes@[i] == old(state).nodes@[i],
            decreases ps.len() - k,
        {
            let pos = self.parameters[k];
            state.nodes[pos].grad = V::zero();
            proof {
                self.lemma_param_step(old(state).nodes@, state.nodes@, k as int);
            }
            k = k + 1;
        }
        proof {
            self.lemma_wf_same_shape(old(state), state);
        }
    }

    /// Takes one step of gradient descent: every parameter's value moves by
    /// `-step` times its gradient.
    fn learn<V: Scalar>(&self, state: &mut State<V>, step: V)
        requires
            self.wf(old(state)),
        ensures
            self.wf(final(state)),
            same_shape(old(state).nodes@, final(state).nodes@),
            forall|k: int|
                0 <= k < self.parameter_positions().len() ==> #[trigger] final(state).nodes@[self.parameter_positions()[k] as int]
                    == (Node {
                        data: V::difference(
                            old(state).nodes@[self.parameter_positions()[k] as int].data,
                            V::product(old(state).nodes@[self.parameter_positions()[k] as int].grad, step),
                        ),
                        ..old(state).nodes@[self.parameter_positions()[k] as int]
                    }),
            forall|i: int|
                self.parameter_positions().len() <= i < old(state).nodes@.len() ==> #[trigger] final(state).nodes@[i]
                    == old(state).nodes@[i],
            final(state).nodes@ == learn_tape(old(state).nodes@, self.parameter_positions().len() as int, step),
    {
        let ghost ps = self.parameters@;
        let mut k: usize = 0;
        while k < self.parameters.len()
            invariant
                k <= ps.len(),
                ps == self.parameters@,
                self.wf(old(state)),
                state.wf(),
                same_shape(old(state).nodes@, state.nodes@),
                forall|j: int|
                    0 <= j < k ==> #[trigger] state.nodes@[ps[j] as int] == (Node {
                        data: V::difference(
                            old(state).nodes@[ps[j] as int].data,
                            V::product(old(state).nodes@[ps[j] as int].grad, step),
                        ),
                        ..old(state).nodes@[ps[j] as int]
                    }),
                forall|i: int|
                    0 <= i < old(state).nodes@.len() && !ps.take(k as int).contains(i as usize)
                        ==> #[trigger] state.nodes@[i] == old(state).nodes@[i],
            decreases ps.len() - k,
        {
            let pos = self.parameters[k];
            proof {
                assert(!ps.take(k as int).contains(pos)) by {
                    if ps.take(k as int).contains(pos) {
                        let j = choose|j: int| 0 <= j < k && ps.take(k as int)[j] == pos;
                        assert(ps.no_duplicates());
                        assert(ps[j] == ps[k as int]);
                    }
                }
            }
            let moved = state.nodes[pos].data.minus(&state.nodes[pos].grad.times(&step));
            state.nodes[pos].data = moved;
            proof {
                self.lemma_param_step(old(state).nodes@, state.nodes@, k as int);
            }
            k = k + 1;
        }
        // The tape's length, which fits in a `usize`.
        let total = state.nodes.len();
        proof {
            self.lemma_wf_same_shape(old(state), state);
            self.lemma_param_rest(old(state).nodes@, state.nodes@, k as int);
            let p = ps.len() as int;
            let lt = learn_tape(old(state).nodes@, p, step);
            assert forall|i: int| 0 <= i < lt.len() implies #[trigger] state.nodes@[i] == lt[i] by {
                if i < p {
                    lemma_covers_onto(ps, p, i);
                    let j = choose|j: int| 0 <= j < ps.len() && ps[j] == i;
                    assert(state.nodes@[ps[j] as int] == lt[i]);
                }
            }
            assert(state.nodes@ =~= lt);
        }
    }

    /// Discards every node after the parameters.
    fn truncate_nodes<V: Scalar>(&self, state: &mut State<V>)
        requires
            self.wf(old(state)),
        ensures
            self.wf(final(state)),
            final(state).nodes@ =~= old(state).nodes@.take(self.parameter_positions().len() as int),
    {
        state.truncate(self.parameters.len());
        proof {
            assert forall|i: int| 0 <= i < self.parameters@.len() implies (#[trigger] state.nodes@[i]).op
                == Op::<V>::End && state.nodes@[i].parameter by {
                assert(state.nodes@[i] == old(state).nodes@[i]);
            }
        }
    }

    /// Runs a forward pass for every sample; returns each sample's first
    /// output and its checkpoints.
    fn forward<V: Scalar>(&self, inputs: &Vec<Vec<(V, &str)>>, state: &mut State<V>) -> (r: (
        Vec<usize>,
        Vec<Vec<usize>>,
    ))
        requires
            self.wf(old(state)),
            forall|s: int| 0 <= s < inputs@.len() ==> (#[trigger] inputs@[s])@.len() == self.input_width(),
        ensures
            self.wf(final(state)),
            final(state).nodes@.len() >= old(state).nodes@.len(),
            final(state).nodes@.take(old(state).nodes@.len() as int) =~= old(state).nodes@,
            r.0@.len() == inputs@.len(),
            r.1@.len() == inputs@.len(),
            forall|s: int| 0 <= s < r.0@.len() ==> #[trigger] r.0@[s] < final(state).nodes@.len(),
            forall|s: int| 0 <= s < r.1@.len() ==> (#[trigger] r.1@[s])@.len() == self.checkpoint_count(),
            forall|s: int, j: int|
                0 <= s < r.1@.len() && 0 <= j < self.checkpoint_count() ==> #[trigger] r.1@[s]@[j]
                    < final(state).nodes@.len(),
            final(state).nodes@.len() == old(state).nodes@.len() + inputs@.len() * sample_size(
                self.layer_seq(),
                self.input_width() as int,
            ),
            forall|s: int|
                0 <= s < r.0@.len() ==> #[trigger] r.0@[s] == old(state).nodes@.len() + s * sample_size(
                    self.layer_seq(),
                    self.input_width() as int,
                ) + first_output_offset(self.layer_seq(), self.input_width() as int),
            forall|s: int|
                0 <= s < r.0@.len() ==> #[trigger] final(state).nodes@[r.0@[s] as int].data == self.prediction(
                    old(state).nodes@,
                    inputs@[s]@,
                ),
            final(state).nodes@ == forward_tape(old(state).nodes@, self.layer_seq(), inputs@, inputs@.len() as int),
            r.0@ == forward_outputs(old(state).nodes@, self.layer_seq(), inputs@),
            r.1@.map_values(|c: Vec<usize>| c@) == forward_checkpoints(old(state).nodes@, self.layer_seq(), inputs@),
    {
        let ghost size = sample_size(self.layer_seq(), self.input_width() as int);
        let ghost offset = first_output_offset(self.layer_seq(), self.input_width() as int);
        proof {
            assert(0 * size == 0) by (nonlinear_arith);
        }
        let mut outs: Vec<usize> = Vec::new();
        let mut checkpoints: Vec<Vec<usize>> = Vec::new();
        let mut i: usize = 0;
        while i < inputs.len()
            invariant
                i <= inputs@.len(),
                forall|s: int| 0 <= s < inputs@.len() ==> (#[trigger] inputs@[s])@.len() == self.input_width(),
                self.wf(state),
                state.nodes@.len() >= old(state).nodes@.len(),
                state.nodes@.take(old(state).nodes@.len() as int) =~= old(state).nodes@,
                outs@.len() == i,
                checkpoints@.len() == i,
                forall|s: int| 0 <= s < i ==> #[trigger] outs@[s] < state.nodes@.len(),
                forall|s: int| 0 <= s < i ==> (#[trigger] checkpoints@[s])@.len() == self.checkpoint_count(),
                forall|s: int, j: int|
                    0 <= s < i && 0 <= j < self.checkpoint_count() ==> #[trigger] checkpoints@[s]@[j]
                        < state.nodes@.len(),
                size == sample_size(self.layer_seq(), self.input_width() as int),
                offset == first_output_offset(self.layer_seq(), self.input_width() as int),
                state.nodes@.len() == old(state).nodes@.len() + i * size,
                forall|s: int| 0 <= s < i ==> #[trigger] outs@[s] == old(state).nodes@.len() + s * size + offset,
                self.wf(old(state)),
                state.nodes@ == forward_tape(old(state).nodes@, self.layers@, inputs@, i as int),
                outs@ == forward_outputs(old(state).nodes@, self.layers@, inputs@).take(i as int),
                checkpoints@.map_values(|c: Vec<usize>| c@) == forward_checkpoints(
                    old(state).nodes@,
                    self.layers@,
                    inputs@,
                ).take(i as int),
                forall|s: int|
                    0 <= s < i ==> #[trigger] state.nodes@[outs@[s] as int].data == self.prediction(
                        old(state).nodes@,
                        inputs@[s]@,
                    ),
            decreases inputs@.len() - i,
        {
            let ghost prev = state.nodes@;
            proof {
                let p = self.parameters@.len() as int;
                assert(prev.take(p) =~= old(state).nodes@.take(p)) by {
                    assert(prev.take(p) =~= prev.take(old(state).nodes@.len() as int).take(p));
                }
                self.lemma_applied_params(old(state), prev, sample_values(inputs@[i as int]@), self.layers@.len() as int);
            }
            let (output, checks) = self.apply(&inputs[i], state);
            proof {
                assert(state.nodes@.take(old(state).nodes@.len() as int) =~= prev.take(
                    old(state).nodes@.len() as int,
                ));
            }
            proof {
                assert((i + 1) * size == i * size + size) by (nonlinear_arith);
                assert forall|s: int| 0 <= s < i implies #[trigger] state.nodes@[outs@[s] as int] == prev[outs@[s] as int] by {
                    assert(state.nodes@[outs@[s] as int] == state.nodes@.take(prev.len() as int)[outs@[s] as int]);
                }
            }
            let ghost before_outs = outs@;
            let ghost before_checks = checkpoints@;
            outs.push(output[0]);
            checkpoints.push(checks);
            proof {
                assert(outs@ =~= forward_outputs(old(state).nodes@, self.layers@, inputs@).take(i + 1));
                assert(checkpoints@.map_values(|c: Vec<usize>| c@) =~= forward_checkpoints(
                    old(state).nodes@,
                    self.layers@,
                    inputs@,
                ).take(i + 1)) by {
                    assert(before_checks.map_values(|c: Vec<usize>| c@) =~= forward_checkpoints(
                        old(state).nodes@,
                        self.layers@,
                        inputs@,
                    ).take(i as int));
                }
            }
            i = i + 1;
        }
        (outs, checkpoints)
    }

    /// One full round of training: a forward pass over every sample, the
    /// loss against `expected`, the backward pass from the loss (then on from
    /// the checkpoints, outermost first, every sample at one level before
    /// any sample at the next level down), a step of gradient descent, and
    /// last the tape cut back to the parameters. Returns the loss before the
    /// step.
    pub fn train_step<V: Scalar>(
        &self,
        inputs: &Vec<Vec<(V, &str)>>,
        expected: &Vec<V>,
        step: V,
        state: &mut State<V>,
    ) -> (loss_value: V)
        requires
            self.wf(old(state)),
            inputs@.len() >= 1,
            inputs@.len() == expected@.len(),
            forall|s: int| 0 <= s < inputs@.len() ==> (#[trigger] inputs@[s])@.len() == self.input_width(),
        ensures
            self.wf(final(state)),
            final(state).nodes@.len() == self.parameter_positions().len(),
            forall|k: int|
                0 <= k < self.parameter_positions().len() ==> #[trigger] final(state).nodes@[self.parameter_positions()[k] as int].data
                    == V::difference(
                    old(state).nodes@[self.parameter_positions()[k] as int].data,
                    V::product(final(state).nodes@[self.parameter_positions()[k] as int].grad, step),
                ),
            loss_value == squared_error(expected@, self.predictions(old(state).nodes@, inputs@), expected@.len() as int),
            final(state).nodes@ == self.step_tape(old(state).nodes@, inputs@, expected@, step),
    {
        let ghost ps = self.parameters@;
        let (outs, checkpoints) = self.forward(inputs, state);
        let ghost after_forward = *state;
        let loss_idx = loss(expected, &outs, state);
        let value = state.nodes[loss_idx].data;
        proof {
            assert(crate::neuron::values_at(after_forward.nodes@, outs@) =~= self.predictions(old(state).nodes@, inputs@));
        }
        proof {
            lemma_leaves_kept(after_forward.nodes@, state.nodes@, 0, self.parameters@.len() as int);
            assert forall|k: int| 0 <= k < ps.len() implies #[trigger] state.nodes@[ps[k] as int].data
                == old(state).nodes@[ps[k] as int].data by {
                assert(ps[k] < ps.len());
                assert(state.nodes@[ps[k] as int] == state.nodes@.take(after_forward.nodes@.len() as int)[ps[k] as int]);
                assert(after_forward.nodes@[ps[k] as int] == after_forward.nodes@.take(old(state).nodes@.len() as int)[ps[k] as int]);
            }
        }
        let ghost before_back = *state;
        self.backprop(loss_idx, &checkpoints, state);
        proof {
            assert forall|k: int| 0 <= k < ps.len() implies #[trigger] state.nodes@[ps[k] as int].data
                == old(state).nodes@[ps[k] as int].data by {
                assert(ps[k] < ps.len());
                assert(state.nodes@[ps[k] as int].data == before_back.nodes@[ps[k] as int].data);
            }
        }
        proof {
            assert(checkpoints@[0]@ == forward_checkpoints(old(state).nodes@, self.layers@, inputs@)[0]);
        }
        let ghost before_step = *state;
        self.learn(state, step);
        let ghost stepped = *state;
        self.truncate_nodes(state);
        proof {
            assert forall|k: int| 0 <= k < ps.len() implies #[trigger] state.nodes@[ps[k] as int].data
                == V::difference(old(state).nodes@[ps[k] as int].data, V::product(state.nodes@[ps[k] as int].grad, step)) by {
                assert(ps[k] < ps.len());
                assert(state.nodes@[ps[k] as int] == stepped.nodes@[ps[k] as int]);
                assert(stepped.nodes@[ps[k] as int].grad == before_step.nodes@[ps[k] as int].grad);
            }
        }
        value
    }

    /// The gradient half of a round of training: sets every parameter's
    /// gradient to zero and the gradient of the loss node to one, walks
    /// backward from the loss node (stopping at checkpoints), then walks
    /// backward from the checkpoints, level by level: at each level from
    /// every sample's checkpoint in turn.
    pub fn backprop<V: Scalar>(&self, loss_idx: usize, checkpoints: &Vec<Vec<usize>>, state: &mut State<V>)
        requires
            self.wf(old(state)),
            loss_idx < old(state).nodes@.len(),
            checkpoints@.len() >= 1,
            forall|s: int| 0 <= s < checkpoints@.len() ==> (#[trigger] checkpoints@[s])@.len() == checkpoints@[0]@.len(),
            forall|s: int, k: int|
                0 <= s < checkpoints@.len() && 0 <= k < checkpoints@[0]@.len() ==> #[trigger] checkpoints@[s]@[k]
                    < old(state).nodes@.len(),
        ensures
            self.wf(final(state)),
            grads_below(old(state).nodes@, final(state).nodes@, old(state).nodes@.len() as int),
            final(state).nodes@ == back_levels(
                backward(
                    seeded(old(state).nodes@, self.parameter_positions().len() as int, loss_idx as int),
                    loss_idx as int,
                ),
                checkpoints@.map_values(|c: Vec<usize>| c@),
                checkpoints@[0]@.len() as int,
            ),
    {
        let ghost cs = checkpoints@.map_values(|c: Vec<usize>| c@);
        let ghost p = self.parameters@.len() as int;
        self.zero_grad(state);
        proof {
            let z = Seq::new(old(state).nodes@.len(), |i: int| if i < p {
                Node { grad: V::zero_value(), ..old(state).nodes@[i] }
            } else {
                old(state).nodes@[i]
            });
            assert forall|i: int| 0 <= i < z.len() implies #[trigger] state.nodes@[i] == z[i] by {
                if i < p {
                    lemma_covers_onto(self.parameters@, p, i);
                    let k = choose|k: int| 0 <= k < self.parameters@.len() && self.parameters@[k] == i;
                    assert(state.nodes@[self.parameters@[k] as int] == z[i]);
                }
            }
            assert(state.nodes@ =~= z);
        }
        let ghost zeroed = *state;
        state.nodes[loss_idx].grad = V::one();
        proof {
            self.lemma_wf_same_shape(&zeroed, state);
            assert(state.nodes@ =~= seeded(old(state).nodes@, p, loss_idx as int));
        }
        let ghost seeded_state = *state;
        back(loss_idx, state);
        proof {
            self.lemma_wf_same_shape(&seeded_state, state);
        }
        let ghost start = state.nodes@;
        let ghost len = state.nodes@.len();
        let count = checkpoints[0].len();
        let mut j: usize = 0;
        while j < count
            invariant
                j <= count,
                count == checkpoints@[0]@.len(),
                cs == checkpoints@.map_values(|c: Vec<usize>| c@),
                self.wf(state),
                grads_below(old(state).nodes@, state.nodes@, len as int),
                state.nodes@.len() == len,
                len == old(state).nodes@.len(),
                state.nodes@ == back_levels(start, cs, j as int),
                forall|t: int| 0 <= t < checkpoints@.len() ==> (#[trigger] checkpoints@[t])@.len() == count,
                forall|t: int, k: int|
                    0 <= t < checkpoints@.len() && 0 <= k < count ==> #[trigger] checkpoints@[t]@[k] < len,
            decreases count - j,
        {
            let mut s: usize = 0;
            while s < checkpoints.len()
                invariant
                    j < count,
                    s <= checkpoints@.len(),
                    count == checkpoints@[0]@.len(),
                    cs == checkpoints@.map_values(|c: Vec<usize>| c@),
                    self.wf(state),
                    grads_below(old(state).nodes@, state.nodes@, len as int),
                    state.nodes@.len() == len,
                    len == old(state).nodes@.len(),
                    state.nodes@ == back_level(back_levels(start, cs, j as int), cs, j as int, s as int),
                    forall|t: int| 0 <= t < checkpoints@.len() ==> (#[trigger] checkpoints@[t])@.len() == count,
                    forall|t: int, k: int|
                        0 <= t < checkpoints@.len() && 0 <= k < count ==> #[trigger] checkpoints@[t]@[k] < len,
                decreases checkpoints@.len() - s,
            {
                let ghost prev = *state;
                back(checkpoints[s][j], state);
                proof {
                    self.lemma_wf_same_shape(&prev, state);
                    assert(cs[s as int][j as int] == checkpoints@[s as int]@[j as int]);
                }
                s = s + 1;
            }
            j = j + 1;
        }
    }

    /// Trains for `iterations` rounds. Every round but the last is a full
    /// `train_step`; the last only runs the forward pass and the loss, takes
    /// no step, and reports the loss and each sample's output. With no
    /// rounds there is nothing to report.
    pub fn train<V: Scalar>(
        &self,
        inputs: &Vec<Vec<(V, &str)>>,
        expected: &Vec<V>,
        iterations: i32,
        step: V,
        state: &mut State<V>,
    ) -> (r: Option<Report<V>>)
        requires
            self.wf(old(state)),
            iterations >= 1 ==> inputs@.len() >= 1,
            inputs@.len() == expected@.len(),
            forall|s: int| 0 <= s < inputs@.len() ==> (#[trigger] inputs@[s])@.len() == self.input_width(),
        ensures
            self.wf(final(state)),
            r is Some <==> iterations >= 1,
            iterations < 1 ==> *final(state) == *old(state),
            iterations >= 1 ==> r->0.outputs@.len() == inputs@.len(),
            iterations >= 1 ==> r->0.loss == final(state).nodes@.last().data,
            iterations >= 1 ==> r->0.outputs@ == self.predictions(final(state).nodes@, inputs@),
            iterations >= 1 ==> r->0.loss == squared_error(
                expected@,
                self.predictions(final(state).nodes@, inputs@),
                expected@.len() as int,
            ),
            iterations == 1 ==> final(state).nodes@.take(old(state).nodes@.len() as int) =~= old(state).nodes@,
            iterations >= 1 ==> final(state).nodes@ == self.round_tape(
                self.trained(old(state).nodes@, inputs@, expected@, step, iterations - 1),
                inputs@,
                expected@,
            ),
            iterations >= 1 ==> final(state).nodes@.len() == (if iterations >= 2 {
                self.parameter_positions().len() as int
            } else {
                old(state).nodes@.len() as int
            }) + inputs@.len() * sample_size(self.layer_seq(), self.input_width() as int) + 6 * inputs@.len() - 1,
            iterations >= 1 ==> forall|s: int|
                0 <= s < inputs@.len() ==> #[trigger] r->0.outputs@[s] == final(state).nodes@[(if iterations >= 2 {
                    self.parameter_positions().len() as int
                } else {
                    old(state).nodes@.len() as int
                }) + s * sample_size(self.layer_seq(), self.input_width() as int) + first_output_offset(
                    self.layer_seq(),
                    self.input_width() as int,
                )].data,
    {
        if iterations < 1 {
            return None;
        }
        let mut iteration: i32 = 1;
        while iteration < iterations
            invariant
                1 <= iteration <= iterations,
                self.wf(state),
                inputs@.len() >= 1,
                inputs@.len() == expected@.len(),
                forall|s: int| 0 <= s < inputs@.len() ==> (#[trigger] inputs@[s])@.len() == self.input_width(),
                iteration == 1 ==> state.nodes@ == old(state).nodes@,
                state.nodes@ == self.trained(old(state).nodes@, inputs@, expected@, step, iteration - 1),
                iteration >= 2 ==> state.nodes@.len() == self.parameters@.len(),
            decreases iterations - iteration,
        {
            self.train_step(inputs, expected, step, state);
            iteration = iteration + 1;
        }
        let ghost base = *state;
        let (outs, _) = self.forward(inputs, state);
        let ghost after_forward = *state;
        let loss_idx = loss(expected, &outs, state);
        proof {
            lemma_leaves_kept(after_forward.nodes@, state.nodes@, 0, self.parameters@.len() as int);
            let p = self.parameters@.len() as int;
            assert(state.nodes@.take(p) =~= base.nodes@.take(p)) by {
                assert(state.nodes@.take(p) =~= state.nodes@.take(after_forward.nodes@.len() as int).take(p));
                assert(after_forward.nodes@.take(p) =~= after_forward.nodes@.take(base.nodes@.len() as int).take(p));
            }
            assert forall|t: int| 0 <= t < inputs@.len() implies self.prediction(base.nodes@, inputs@[t]@)
                == self.prediction(state.nodes@, inputs@[t]@) by {
                self.lemma_applied_params(&base, state.nodes@, sample_values(inputs@[t]@), self.layers@.len() as int);
            }
            assert(crate::neuron::values_at(after_forward.nodes@, outs@) =~= self.predictions(state.nodes@, inputs@));
            assert forall|t: int| 0 <= t < outs@.len() implies #[trigger] state.nodes@[outs@[t] as int]
                == after_forward.nodes@[outs@[t] as int] by {
                assert(state.nodes@[outs@[t] as int] == state.nodes@.take(after_forward.nodes@.len() as int)[outs@[t] as int]);
            }
        }
        let mut outputs: Vec<V> = Vec::new();
        let mut s: usize = 0;
        while s < outs.len()
            invariant
                s <= outs@.len(),
                outputs@.len() == s,
                forall|t: int| 0 <= t < outs@.len() ==> #[trigger] outs@[t] < state.nodes@.len(),
                forall|t: int| 0 <= t < s ==> #[trigger] outputs@[t] == state.nodes@[outs@[t] as int].data,
                forall|t: int| 0 <= t < outs@.len() ==> #[trigger] state.nodes@[outs@[t] as int].data
                    == self.predictions(state.nodes@, inputs@)[t],
                outs@.len() == inputs@.len(),
            decreases outs@.len() - s,
        {
            outputs.push(state.nodes[outs[s]].data);
            s = s + 1;
        }
        proof {
            assert(outputs@ =~= self.predictions(state.nodes@, inputs@));
            if iterations == 1 {
                assert(state.nodes@.take(old(state).nodes@.len() as int) =~= state.nodes@.take(
                    after_forward.nodes@.len() as int,
                ).take(old(state).nodes@.len() as int));
            }
        }
        Some(Report { loss: state.nodes[loss_idx].data, outputs })
    }

    /// Evaluates the network on the values `xs` from the current parameter
    /// values alone, without touching the tape.
    pub fn eval<V: Scalar>(&self, xs: &Vec<V>, state: &State<V>) -> (r: Vec<V>)
        requires
            self.wf(state),
            xs@.len() == self.input_width(),
        ensures
            r@.len() == self.layer_widths().last(),
            r@ == forward_applied(self.layer_seq(), state.nodes@, xs@, self.layer_seq().len() as int),
    {
        let ghost p = self.parameters@.len();
        proof {
            self.layers@[0].lemma_wf_grow(self.n_in as nat, p as nat, state.nodes@.len() as nat);
        }
        let mut outs = self.layers[0].eval(xs, state);
        proof {
            assert(forward_applied(self.layers@, state.nodes@, xs@, 0) == xs@);
            assert(outs@ =~= forward_applied(self.layers@, state.nodes@, xs@, 1));
        }
        let mut li: usize = 1;
        while li < self.layers.len()
            invariant
                1 <= li <= self.layers@.len(),
                self.wf(state),
                p == self.parameters@.len(),
                outs@.len() == self.layers@[li - 1].neurons@.len(),
                outs@ == forward_applied(self.layers@, state.nodes@, xs@, li as int),
                outs@.len() >= 1,
                forall|j: int| 0 <= j < self.layers@.len() ==> (#[trigger] self.layers@[j]).neurons@.len() >= 1,
            decreases self.layers@.len() - li,
        {
            proof {
                self.layers@[li as int].lemma_wf_grow(
                    self.layers@[li - 1].neurons@.len(),
                    p as nat,
                    state.nodes@.len() as nat,
                );
            }
            outs = self.layers[li].eval(&outs, state);
            li = li + 1;
        }
        proof {
            assert(self.layer_widths().last() == self.layers@.last().neurons@.len());
        }
        outs
    }

    /// The number of parameters of a network with `n_in` inputs and the
    /// given layer widths, which is the number of initial values `new` takes;
    /// `None` where that number does not fit in a `usize`.
    pub fn count_parameters(n_in: u32, layer_sizes: &Vec<u32>) -> (r: Option<usize>)
        ensures
            r is Some <==> parameter_count(n_in as int, layer_sizes@) <= usize::MAX,
            r is Some ==> r->0 == parameter_count(n_in as int, layer_sizes@),
    {
        let ghost sizes = layer_sizes@;
        let mut total: usize = 0;
        let mut i: usize = 0;
        proof {
            assert(sizes.take(0) =~= Seq::<u32>::empty());
        }
        while i < layer_sizes.len()
            invariant
                i <= sizes.len(),
                sizes == layer_sizes@,
                total == parameter_count(n_in as int, sizes.take(i as int)),
            decreases sizes.len() - i,
        {
            let n: u32 = if i == 0 { n_in } else { layer_sizes[i - 1] };
            proof {
                assert(sizes.take(i + 1).drop_last() =~= sizes.take(i as int));
                assert(sizes.take(i + 1).last() == sizes[i as int]);
                if i > 0 {
                    assert(sizes.take(i + 1)[i - 1] == sizes[i - 1]);
                }
                lemma_count_prefix(n_in as int, sizes, i + 1);
                let w = sizes[i as int] as int;
                assert(w * (n + 1) >= 0) by (nonlinear_arith)
                    requires
                        w >= 0,
                        n >= 0,
                ;
            }
            let term: usize = if layer_sizes[i] == 0 {
                proof {
                    let w = sizes[i as int] as int;
                    assert(w * (n + 1) == 0) by (nonlinear_arith)
                        requires
                            w == 0,
                    ;
                }
                0
            } else {
                let inputs = match (n as usize).checked_add(1) {
                    Some(v) => v,
                    None => {
                        proof {
                            let w = sizes[i as int] as int;
                            assert(w * (n + 1) >= n + 1) by (nonlinear_arith)
                                requires
                                    w >= 1,
                                    n >= 0,
                            ;
                        }
                        return None;
                    },
                };
                match (layer_sizes[i] as usize).checked_mul(inputs) {
                    Some(v) => v,
                    None => {
                        return None;
                    },
                }
            };
            total = match total.checked_add(term) {
                Some(v) => v,
                None => {
                    return None;
                },
            };
            i = i + 1;
        }
        proof {
            assert(sizes.take(i as int) =~= sizes);
        }
        Some(total)
    }

    /// The number of inputs of each sample.
    pub fn n_inputs(&self) -> (r: usize)
        ensures
            r == self.input_width(),
    {
        self.n_in as usize
    }

    /// The number of parameters, which is the length of the state vector.
    pub fn n_parameters(&self) -> (r: usize)
        ensures
            r == self.parameter_positions().len(),
    {
        self.parameters.len()
    }
}

/// Loading the state vector that was just read back restores the tape
/// exactly: every parameter keeps its value, and nothing else changes.
pub proof fn lemma_state_round_trip<V>(mlp: &MLP, state: &State<V>, after: Seq<Node<V>>)
    requires
        mlp.wf(state),
        mlp.loaded(state.nodes@, mlp.parameter_values(state), after),
    ensures
        after =~= state.nodes@,
{
    let ps = mlp.parameter_positions();
    assert forall|i: int| 0 <= i < after.len() implies after[i] == state.nodes@[i] by {
        if i < ps.len() {
            lemma_covers_onto(ps, ps.len() as int, i);
            let k = choose|k: int| 0 <= k < ps.len() && ps[k] == i;
            assert(after[ps[k] as int] == (Node { data: mlp.parameter_values(state)[k], ..state.nodes@[ps[k] as int] }));
        }
    }
}


/// Builds, on the tape, the squared error between the outputs at the
/// positions `actual` and the `expect`ed values, summed over all pairs:
/// first a leaf for each expected value, then `(actual - expected)^2` for
/// each pair, added up from the first pair on. Returns the position of the
/// sum.
pub fn loss<V: Scalar>(expect: &Vec<V>, actual: &Vec<usize>, state: &mut State<V>) -> (r: usize)
    requires
        old(state).wf(),
        expect@.len() >= 1,
        expect@.len() == actual@.len(),
        forall|k: int| 0 <= k < actual@.len() ==> #[trigger] actual@[k] < old(state).nodes@.len(),
    ensures
        final(state).wf(),
        final(state).nodes@.take(old(state).nodes@.len() as int) =~= old(state).nodes@,
        final(state).nodes@.len() == old(state).nodes@.len() + 6 * expect@.len() - 1,
        r == final(state).nodes@.len() - 1,
        final(state).nodes@ == loss_tape(old(state).nodes@, expect@, actual@),
        final(state).nodes@[r as int].data == squared_error(
            expect@,
            crate::neuron::values_at(old(state).nodes@, actual@),
            expect@.len() as int,
        ),
        forall|k: int|
            0 <= k < expect@.len() ==> {
                &&& (#[trigger] final(state).nodes@[old(state).nodes@.len() + k]).op == Op::<V>::End
                &&& final(state).nodes@[old(state).nodes@.len() + k].data == expect@[k]
                &&& !final(state).nodes@[old(state).nodes@.len() + k].parameter
            },
{
    let ghost start = state.nodes@.len();
    let n = expect.len();
    let mut exs: Vec<usize> = Vec::new();
    let mut k: usize = 0;
    while k < n
        invariant
            k <= n,
            n == expect@.len(),
            start == old(state).nodes@.len(),
            state.wf(),
            state.nodes@.len() == start + k,
            state.nodes@.take(start as int) =~= old(state).nodes@,
            exs@.len() == k,
            forall|j: int| 0 <= j < k ==> #[trigger] exs@[j] == start + j,
            state.nodes@ == expect_tape(old(state).nodes@, expect@, k as int),
            forall|j: int|
                0 <= j < k ==> {
                    &&& (#[trigger] state.nodes@[start + j]).op == Op::<V>::End
                    &&& state.nodes@[start + j].data == expect@[j]
                    &&& !state.nodes@[start + j].parameter
                },
        decreases n - k,
    {
        let e = expect[k];
        let label = String::from_str("{e:").concat(e.text().as_str()).concat("}");
        let ghost prev = state.nodes@;
        let idx = Node::new(e, label, false, state);
        proof {
            assert(state.nodes@.take(start as int) =~= prev.take(start as int));
            assert forall|j: int| 0 <= j < k implies #[trigger] state.nodes@[start + j] == prev[start + j] by {
                assert(state.nodes@[start + j] == state.nodes@.take(prev.len() as int)[start + j]);
            }
        }
        exs.push(idx);
        k = k + 1;
    }
    let ghost leaves = state.nodes@;
    let one = V::one();
    let two = one.plus(&one);
    let mut out: usize = 0;
    let mut i: usize = 0;
    while i < n
        invariant
            i <= n,
            n == expect@.len(),
            n == actual@.len(),
            start == old(state).nodes@.len(),
            leaves.len() == start + n,
            state.wf(),
            state.nodes@.len() == if i == 0 { start + n } else { start + n + 5 * i - 1 },
            state.nodes@.take(leaves.len() as int) =~= leaves,
            leaves.take(start as int) =~= old(state).nodes@,
            exs@.len() == n,
            forall|j: int| 0 <= j < n ==> #[trigger] exs@[j] == start + j,
            forall|j: int| 0 <= j < n ==> #[trigger] actual@[j] < start,
            i > 0 ==> out == state.nodes@.len() - 1,
            two == V::sum(V::one_value(), V::one_value()),
            leaves == expect_tape(old(state).nodes@, expect@, n as int),
            state.nodes@ == pairs_tape(leaves, actual@, start as int, i as int),
            forall|j: int| 0 <= j < n ==> #[trigger] leaves[start + j].data == expect@[j],
            i > 0 ==> state.nodes@[out as int].data == squared_error(
                expect@,
                crate::neuron::values_at(old(state).nodes@, actual@),
                i as int,
            ),
        decreases n - i,
    {
        let ghost prev = state.nodes@;
        proof {
            assert(prev[actual@[i as int] as int] == prev.take(leaves.len() as int)[actual@[i as int] as int]);
            assert(leaves[actual@[i as int] as int] == leaves.take(start as int)[actual@[i as int] as int]);
            assert(prev[start + i] == prev.take(leaves.len() as int)[start + i]);
        }
        let diff = crate::node::sub(actual[i], exs[i], state);
        let ghost mid = state.nodes@;
        let sq = crate::node::exp(diff, two, state);
        if i == 0 {
            out = sq;
        } else {
            proof {
                assert(state.nodes@[out as int] == state.nodes@.take(mid.len() as int)[out as int]);
                assert(mid[out as int] == mid.take(prev.len() as int)[out as int]);
            }
            out = crate::node::add(out, sq, state);
        }
        proof {
            assert(state.nodes@.take(leaves.len() as int) =~= prev.take(leaves.len() as int));
        }
        i = i + 1;
    }
    proof {
        assert(state.nodes@.take(start as int) =~= leaves.take(start as int));
        assert forall|j: int| 0 <= j < n implies #[trigger] state.nodes@[start + j] == leaves[start + j] by {
            assert(state.nodes@[start + j] == state.nodes@.take(leaves.len() as int)[start + j]);
        }
    }
    out
}

} // verus!
