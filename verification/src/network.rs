//! The multi-layer perceptron: a fixed layer-size topology, one weight and
//! one bias matrix per layer transition, an activation tag and a learning
//! rate, together with forward inference, backpropagation and the two
//! training-loop drivers.
//!
//! As everywhere in this crate, the scalar arithmetic is supplied by the
//! caller as operator closures over opaque scalar words. The contracts pin
//! the shape bookkeeping and the data flow of every routine: which matrices
//! are multiplied, what is recorded, in which order gradients are formed and
//! applied. What a single scalar operation returns is described through the
//! `ensures` relation of the supplied closure.

use vstd::pervasive::VecAdditionalExecFns;
use vstd::prelude::*;

use rand::seq::SliceRandom;

use crate::activation::ActivationFunction;
use crate::error::Error;
use crate::matrix::{
    agrees, col_seq, descend_rel, entries_from, entrywise_rel, functional1, functional2, ip_rel,
    is_column_of, is_transpose, lemma_ip_functional, map_rel, product_rel, row_seq, same_shape,
    scale_rel, Matrix, Scalar,
};

verus! {

/// A feedforward network: `layers` holds the `L >= 2` layer sizes;
/// `weights[i]` has shape `layers[i+1] x layers[i]` and `biases[i]` has
/// shape `layers[i+1] x 1`. The topology is fixed for the network's
/// lifetime; only `update_network` mutates the weights and biases.
#[derive(Clone, Debug)]
pub struct Network {
    pub layers: Vec<usize>,
    pub weights: Vec<Matrix>,
    pub biases: Vec<Matrix>,
    pub activation_function: ActivationFunction,
    pub learning_rate: Scalar,
}

/// The per-example training scratch state: the history one recording
/// forward pass fills and the immediately following backpropagation reads.
/// A record belongs to one example; a fresh one is produced for each, so no
/// stale history from a previous example can ever be read.
pub struct TrainingRecord {
    pub preactivations: Vec<Matrix>,
    pub activations: Vec<Matrix>,
}

impl TrainingRecord {
    /// Shape consistency with a network's topology: one activation column
    /// per layer (the input first), one pre-activation column per layer
    /// transition.
    pub open spec fn consistent_with(&self, net: Network) -> bool {
        &&& self.activations@.len() == net.depth()
        &&& self.preactivations@.len() == net.depth() - 1
        &&& forall|l: int|
            0 <= l < net.depth() ==> {
                &&& (#[trigger] self.activations@[l]).wf()
                &&& self.activations@[l].rows == net.layers@[l]
                &&& self.activations@[l].cols == 1
            }
        &&& forall|l: int|
            0 <= l < net.depth() - 1 ==> {
                &&& (#[trigger] self.preactivations@[l]).wf()
                &&& self.preactivations@[l].rows == net.layers@[l + 1]
                &&& self.preactivations@[l].cols == 1
            }
    }
}

/// One layer transition: `z` is the pre-activation `w * a_prev + b`, and
/// `a_next` applies the activation to `z` entry by entry.
pub open spec fn layer_step_rel<
    FA: Fn(Scalar) -> Scalar,
    FM: Fn(Scalar, Scalar) -> Scalar,
    FAd: Fn(Scalar, Scalar) -> Scalar,
>(act: FA, mulf: FM, addf: FAd, w: Matrix, b: Matrix, a_prev: Matrix, z: Matrix, a_next: Matrix) -> bool {
    &&& exists|prod: Matrix|
        {
            &&& #[trigger] product_rel(mulf, addf, w, a_prev, prod)
            &&& entrywise_rel(addf, prod, b, z)
        }
    &&& map_rel(act, z, a_next)
}

/// The record of one forward pass of `net` on `input`: the input column
/// first, then, for every layer transition in order, the pre-activation it
/// computed and the activation it produced.
pub open spec fn record_rel<
    FA: Fn(Scalar) -> Scalar,
    FM: Fn(Scalar, Scalar) -> Scalar,
    FAd: Fn(Scalar, Scalar) -> Scalar,
>(net: Network, input: Seq<Scalar>, rec: TrainingRecord, act: FA, mulf: FM, addf: FAd) -> bool {
    &&& rec.activations@.len() == net.depth()
    &&& rec.preactivations@.len() == net.depth() - 1
    &&& is_column_of(rec.activations@[0], input)
    &&& forall|l: int|
        0 <= l < net.depth() - 1 ==> layer_step_rel(
            act,
            mulf,
            addf,
            net.weights@[l],
            net.biases@[l],
            rec.activations@[l],
            #[trigger] rec.preactivations@[l],
            rec.activations@[l + 1],
        )
}

/// `output` is a possible forward-pass result of `net` on `input`: some
/// record chains from the input column through every layer to an activation
/// column holding `output`.
pub open spec fn forward_rel<
    FA: Fn(Scalar) -> Scalar,
    FM: Fn(Scalar, Scalar) -> Scalar,
    FAd: Fn(Scalar, Scalar) -> Scalar,
>(net: Network, input: Seq<Scalar>, output: Seq<Scalar>, act: FA, mulf: FM, addf: FAd) -> bool {
    exists|rec: TrainingRecord|
        {
            &&& #[trigger] record_rel(net, input, rec, act, mulf, addf)
            &&& rec.consistent_with(net)
            &&& output == col_seq(rec.activations@[net.depth() - 1], 0)
        }
}

/// Under operators that are functions of their arguments, one layer
/// transition determines its pre-activation and activation: two runs of the
/// same transition on agreeing inputs agree.
proof fn lemma_layer_step_deterministic<
    FA: Fn(Scalar) -> Scalar,
    FM: Fn(Scalar, Scalar) -> Scalar,
    FAd: Fn(Scalar, Scalar) -> Scalar,
>(
    act: FA,
    mulf: FM,
    addf: FAd,
    w: Matrix,
    b: Matrix,
    a1: Matrix,
    z1: Matrix,
    n1: Matrix,
    a2: Matrix,
    z2: Matrix,
    n2: Matrix,
)
    requires
        functional1(act),
        functional2(mulf),
        functional2(addf),
        layer_step_rel(act, mulf, addf, w, b, a1, z1, n1),
        layer_step_rel(act, mulf, addf, w, b, a2, z2, n2),
        agrees(a1, a2),
    ensures
        agrees(z1, z2),
        agrees(n1, n2),
{
    let prod1 = choose|prod: Matrix|
        #[trigger] product_rel(mulf, addf, w, a1, prod) && entrywise_rel(addf, prod, b, z1);
    let prod2 = choose|prod: Matrix|
        #[trigger] product_rel(mulf, addf, w, a2, prod) && entrywise_rel(addf, prod, b, z2);
    assert forall|i: int, j: int|
        0 <= i < prod1.rows && 0 <= j < prod1.cols implies prod1.at(i, j) == prod2.at(i, j) by {
        assert(col_seq(a1, j) =~= col_seq(a2, j));
        assert(ip_rel(mulf, addf, row_seq(w, i), col_seq(a1, j), prod2.at(i, j)));
        lemma_ip_functional(
            mulf,
            addf,
            row_seq(w, i),
            col_seq(a1, j),
            prod1.at(i, j),
            prod2.at(i, j),
        );
    }
    assert(agrees(prod1, prod2));
    assert forall|i: int, j: int|
        0 <= i < z1.rows && 0 <= j < z1.cols implies z1.at(i, j) == z2.at(i, j) by {
        assert(call_ensures(addf, (prod1.at(i, j), b.at(i, j)), z1.at(i, j)));
        assert(call_ensures(addf, (prod2.at(i, j), b.at(i, j)), z2.at(i, j)));
    }
    assert(agrees(z1, z2));
    assert forall|i: int, j: int|
        0 <= i < n1.rows && 0 <= j < n1.cols implies n1.at(i, j) == n2.at(i, j) by {
        assert(call_ensures(act, (z1.at(i, j),), n1.at(i, j)));
        assert(call_ensures(act, (z2.at(i, j),), n2.at(i, j)));
    }
    assert(agrees(n1, n2));
}

/// Under operators that are functions of their arguments, two records of
/// the same network on the same input agree on every activation column up
/// to layer `l`.
proof fn lemma_record_acts_agree<
    FA: Fn(Scalar) -> Scalar,
    FM: Fn(Scalar, Scalar) -> Scalar,
    FAd: Fn(Scalar, Scalar) -> Scalar,
>(
    net: Network,
    input: Seq<Scalar>,
    rec1: TrainingRecord,
    rec2: TrainingRecord,
    act: FA,
    mulf: FM,
    addf: FAd,
    l: int,
)
    requires
        net.wf(),
        functional1(act),
        functional2(mulf),
        functional2(addf),
        record_rel(net, input, rec1, act, mulf, addf),
        record_rel(net, input, rec2, act, mulf, addf),
        0 <= l < net.depth(),
    ensures
        agrees(rec1.activations@[l], rec2.activations@[l]),
    decreases l,
{
    if l == 0 {
        let a1 = rec1.activations@[0];
        let a2 = rec2.activations@[0];
        assert forall|i: int, j: int|
            0 <= i < a1.rows && 0 <= j < a1.cols implies a1.at(i, j) == a2.at(i, j) by {
            assert(a1.at(i, 0) == input[i]);
            assert(a2.at(i, 0) == input[i]);
        }
        assert(agrees(a1, a2));
    } else {
        lemma_record_acts_agree(net, input, rec1, rec2, act, mulf, addf, l - 1);
        lemma_layer_step_deterministic(
            act,
            mulf,
            addf,
            net.weights@[l - 1],
            net.biases@[l - 1],
            rec1.activations@[l - 1],
            rec1.preactivations@[l - 1],
            rec1.activations@[l],
            rec2.activations@[l - 1],
            rec2.preactivations@[l - 1],
            rec2.activations@[l],
        );
    }
}

/// Equal model state gives identical inference: any two forward-pass
/// outputs of the same network on the same input are equal, when the
/// supplied operators are functions of their arguments. So a model whose
/// topology, weights, biases, activation tag and learning rate were
/// restored word for word reproduces its outputs exactly.
pub proof fn lemma_feed_forward_deterministic<
    FA: Fn(Scalar) -> Scalar,
    FM: Fn(Scalar, Scalar) -> Scalar,
    FAd: Fn(Scalar, Scalar) -> Scalar,
>(
    net: Network,
    input: Seq<Scalar>,
    out1: Seq<Scalar>,
    out2: Seq<Scalar>,
    act: FA,
    mulf: FM,
    addf: FAd,
)
    requires
        net.wf(),
        functional1(act),
        functional2(mulf),
        functional2(addf),
        forward_rel(net, input, out1, act, mulf, addf),
        forward_rel(net, input, out2, act, mulf, addf),
    ensures
        out1 == out2,
{
    let rec1 = choose|rec: TrainingRecord|
        {
            &&& #[trigger] record_rel(net, input, rec, act, mulf, addf)
            &&& rec.consistent_with(net)
            &&& out1 == col_seq(rec.activations@[net.depth() - 1], 0)
        };
    let rec2 = choose|rec: TrainingRecord|
        {
            &&& #[trigger] record_rel(net, input, rec, act, mulf, addf)
            &&& rec.consistent_with(net)
            &&& out2 == col_seq(rec.activations@[net.depth() - 1], 0)
        };
    lemma_record_acts_agree(net, input, rec1, rec2, act, mulf, addf, net.depth() - 1);
    assert(col_seq(rec1.activations@[net.depth() - 1], 0) =~= col_seq(
        rec2.activations@[net.depth() - 1],
        0,
    ));
}

/// `m` is the column of the entrywise differences of `xs` and `ys` under
/// `subf`.
pub open spec fn column_sub_rel<FS: Fn(Scalar, Scalar) -> Scalar>(
    subf: FS,
    xs: Seq<Scalar>,
    ys: Seq<Scalar>,
    m: Matrix,
) -> bool {
    &&& xs.len() == ys.len()
    &&& m.wf()
    &&& m.rows == xs.len()
    &&& m.cols == 1
    &&& forall|k: int|
        0 <= k < xs.len() ==> call_ensures(subf, (xs[k], ys[k]), #[trigger] m.at(k, 0))
}

/// The output-layer error signal under squared-error loss, the factor two
/// folded in from the loss derivative: `err` is, entry by entry, the
/// difference of output and expected, doubled, times the activation
/// derivative evaluated on the last pre-activation `z`.
pub open spec fn output_delta_rel<
    FD: Fn(Scalar) -> Scalar,
    FM: Fn(Scalar, Scalar) -> Scalar,
    FS: Fn(Scalar, Scalar) -> Scalar,
>(
    deriv: FD,
    mulf: FM,
    subf: FS,
    two: Scalar,
    outputs: Seq<Scalar>,
    expected: Seq<Scalar>,
    z: Matrix,
    err: Matrix,
) -> bool {
    exists|diff: Matrix, scaled: Matrix, dz: Matrix|
        #![trigger column_sub_rel(subf, outputs, expected, diff), scale_rel(mulf, two, diff, scaled), map_rel(deriv, z, dz)]
        {
            &&& column_sub_rel(subf, outputs, expected, diff)
            &&& scale_rel(mulf, two, diff, scaled)
            &&& map_rel(deriv, z, dz)
            &&& entrywise_rel(mulf, scaled, dz, err)
        }
}

/// The error signal of a hidden layer: `err` is, entry by entry, the next
/// layer's error pulled back through the transposed next weight matrix,
/// times the activation derivative evaluated on this layer's
/// pre-activation `z`.
pub open spec fn hidden_delta_rel<
    FD: Fn(Scalar) -> Scalar,
    FM: Fn(Scalar, Scalar) -> Scalar,
    FAd: Fn(Scalar, Scalar) -> Scalar,
>(
    deriv: FD,
    mulf: FM,
    addf: FAd,
    w_next: Matrix,
    err_next: Matrix,
    z: Matrix,
    err: Matrix,
) -> bool {
    exists|wt: Matrix, prod: Matrix, dz: Matrix|
        #![trigger is_transpose(w_next, wt), product_rel(mulf, addf, wt, err_next, prod), map_rel(deriv, z, dz)]
        {
            &&& wt.wf()
            &&& is_transpose(w_next, wt)
            &&& product_rel(mulf, addf, wt, err_next, prod)
            &&& map_rel(deriv, z, dz)
            &&& entrywise_rel(mulf, prod, dz, err)
        }
}

/// The weight gradient of one layer: the error column times the transposed
/// activation that entered the layer.
pub open spec fn weight_grad_rel<FM: Fn(Scalar, Scalar) -> Scalar, FAd: Fn(Scalar, Scalar) -> Scalar>(
    mulf: FM,
    addf: FAd,
    err: Matrix,
    a_prev: Matrix,
    nw: Matrix,
) -> bool {
    exists|at: Matrix|
        {
            &&& at.wf()
            &&& #[trigger] is_transpose(a_prev, at)
            &&& product_rel(mulf, addf, err, at, nw)
        }
}

/// The whole chain-rule recurrence of backpropagation: `nb[l]` is the error
/// signal of layer transition `l` (it doubles as the bias gradient) and
/// `nw[l]` the matching weight gradient, derived from the recorded history
/// `rec` of the forward pass whose output was `outputs`.
pub open spec fn backprop_rel<
    FD: Fn(Scalar) -> Scalar,
    FM: Fn(Scalar, Scalar) -> Scalar,
    FAd: Fn(Scalar, Scalar) -> Scalar,
    FS: Fn(Scalar, Scalar) -> Scalar,
>(
    net: Network,
    outputs: Seq<Scalar>,
    expected: Seq<Scalar>,
    rec: TrainingRecord,
    two: Scalar,
    deriv: FD,
    mulf: FM,
    addf: FAd,
    subf: FS,
    nw: Seq<Matrix>,
    nb: Seq<Matrix>,
) -> bool {
    let last = net.depth() - 2;
    &&& nw.len() == net.depth() - 1
    &&& nb.len() == net.depth() - 1
    &&& output_delta_rel(
        deriv,
        mulf,
        subf,
        two,
        outputs,
        expected,
        rec.preactivations@[last],
        nb[last],
    )
    &&& forall|l: int|
        0 <= l < last ==> hidden_delta_rel(
            deriv,
            mulf,
            addf,
            net.weights@[l + 1],
            nb[l + 1],
            rec.preactivations@[l],
            #[trigger] nb[l],
        )
    &&& forall|l: int|
        0 <= l < net.depth() - 1 ==> weight_grad_rel(
            mulf,
            addf,
            nb[l],
            rec.activations@[l],
            #[trigger] nw[l],
        )
}

/// The weight matrix for layer transition `l` has the shape the adjacent
/// layer sizes dictate.
pub open spec fn weight_fits(layers: Seq<usize>, w: Matrix, l: int) -> bool {
    &&& w.wf()
    &&& w.rows == layers[l + 1]
    &&& w.cols == layers[l]
}

/// The bias column for layer transition `l` has the shape the next layer
/// size dictates.
pub open spec fn bias_fits(layers: Seq<usize>, b: Matrix, l: int) -> bool {
    &&& b.wf()
    &&& b.rows == layers[l + 1]
    &&& b.cols == 1
}

/// The sequences held by a list of vectors, in order.
pub open spec fn views_of(v: Seq<Vec<Scalar>>) -> Seq<Seq<Scalar>> {
    Seq::new(v.len(), |j: int| v[j]@)
}

/// Every training input fits the first layer and every expected output fits
/// the last, and the two sets pair up.
pub open spec fn examples_fit(net: Network, xs: Seq<Seq<Scalar>>, ys: Seq<Seq<Scalar>>) -> bool {
    &&& xs.len() == ys.len()
    &&& forall|j: int| 0 <= j < xs.len() ==> (#[trigger] xs[j]).len() == net.layers@[0]
    &&& forall|j: int|
        0 <= j < ys.len() ==> (#[trigger] ys[j]).len() == net.layers@[net.depth() - 1]
}

/// The exact error an ill-fitting example set is rejected with: a set-length
/// mismatch first, otherwise the first input of the wrong arity, otherwise
/// the first expected output of the wrong arity.
pub open spec fn examples_error(
    net: Network,
    xs: Seq<Seq<Scalar>>,
    ys: Seq<Seq<Scalar>>,
    e: Error,
) -> bool {
    if xs.len() != ys.len() {
        e == (Error::InputArityMismatch { expected: xs.len() as usize, found: ys.len() as usize })
    } else if exists|j: int| 0 <= j < xs.len() && (#[trigger] xs[j]).len() != net.layers@[0] {
        exists|j: int|
            {
                &&& 0 <= j < xs.len()
                &&& (#[trigger] xs[j]).len() != net.layers@[0]
                &&& forall|k: int| 0 <= k < j ==> (#[trigger] xs[k]).len() == net.layers@[0]
                &&& e == (Error::InputArityMismatch {
                    expected: net.layers@[0],
                    found: xs[j].len() as usize,
                })
            }
    } else {
        exists|j: int|
            {
                &&& 0 <= j < ys.len()
                &&& (#[trigger] ys[j]).len() != net.layers@[net.depth() - 1]
                &&& forall|k: int|
                    0 <= k < j ==> (#[trigger] ys[k]).len() == net.layers@[net.depth() - 1]
                &&& e == (Error::InputArityMismatch {
                    expected: net.layers@[net.depth() - 1],
                    found: ys[j].len() as usize,
                })
            }
    }
}

/// One online training step on a single example: record a forward pass on
/// `x`, backpropagate against `y`, and apply the gradients scaled by the
/// learning rate.
pub open spec fn train_step_rel<
    FA: Fn(Scalar) -> Scalar,
    FD: Fn(Scalar) -> Scalar,
    FM: Fn(Scalar, Scalar) -> Scalar,
    FAd: Fn(Scalar, Scalar) -> Scalar,
    FS: Fn(Scalar, Scalar) -> Scalar,
>(
    act: FA,
    deriv: FD,
    two: Scalar,
    mulf: FM,
    addf: FAd,
    subf: FS,
    a: Network,
    x: Seq<Scalar>,
    y: Seq<Scalar>,
    b: Network,
) -> bool {
    exists|rec: TrainingRecord, out: Seq<Scalar>, nw: Seq<Matrix>, nb: Seq<Matrix>|
        #![trigger backprop_rel(a, out, y, rec, two, deriv, mulf, addf, subf, nw, nb)]
        {
            &&& rec.consistent_with(a)
            &&& record_rel(a, x, rec, act, mulf, addf)
            &&& out == col_seq(rec.activations@[a.depth() - 1], 0)
            &&& backprop_rel(a, out, y, rec, two, deriv, mulf, addf, subf, nw, nb)
            &&& grads_match(a, nw, nb)
            &&& scaled_update_rel(mulf, subf, a.learning_rate, a, nw, nb, b)
        }
}

/// The first `j` examples applied in their original order, one immediate
/// update per example.
pub open spec fn train_pass_rel<
    FA: Fn(Scalar) -> Scalar,
    FD: Fn(Scalar) -> Scalar,
    FM: Fn(Scalar, Scalar) -> Scalar,
    FAd: Fn(Scalar, Scalar) -> Scalar,
    FS: Fn(Scalar, Scalar) -> Scalar,
>(
    act: FA,
    deriv: FD,
    two: Scalar,
    mulf: FM,
    addf: FAd,
    subf: FS,
    a: Network,
    xs: Seq<Seq<Scalar>>,
    ys: Seq<Seq<Scalar>>,
    j: int,
    b: Network,
) -> bool
    decreases j,
{
    if j <= 0 {
        b == a
    } else {
        exists|mid: Network|
            {
                &&& train_pass_rel(act, deriv, two, mulf, addf, subf, a, xs, ys, j - 1, mid)
                &&& #[trigger] train_step_rel(
                    act,
                    deriv,
                    two,
                    mulf,
                    addf,
                    subf,
                    mid,
                    xs[j - 1],
                    ys[j - 1],
                    b,
                )
            }
    }
}

/// `e` full epochs of online training: each epoch is one pass over all
/// examples in their original order.
pub open spec fn train_epochs_rel<
    FA: Fn(Scalar) -> Scalar,
    FD: Fn(Scalar) -> Scalar,
    FM: Fn(Scalar, Scalar) -> Scalar,
    FAd: Fn(Scalar, Scalar) -> Scalar,
    FS: Fn(Scalar, Scalar) -> Scalar,
>(
    act: FA,
    deriv: FD,
    two: Scalar,
    mulf: FM,
    addf: FAd,
    subf: FS,
    a: Network,
    xs: Seq<Seq<Scalar>>,
    ys: Seq<Seq<Scalar>>,
    e: int,
    b: Network,
) -> bool
    decreases e,
{
    if e <= 0 {
        b == a
    } else {
        exists|mid: Network|
            {
                &&& train_epochs_rel(act, deriv, two, mulf, addf, subf, a, xs, ys, e - 1, mid)
                &&& #[trigger] train_pass_rel(
                    act,
                    deriv,
                    two,
                    mulf,
                    addf,
                    subf,
                    mid,
                    xs,
                    ys,
                    xs.len() as int,
                    b,
                )
            }
    }
}

/// Relies on rand's `SliceRandom::shuffle`, a Fisher-Yates shuffle: the
/// order is rearranged in place and holds exactly the same indices
/// afterwards. Which arrangement comes out is random; nothing more is
/// promised.
#[verifier::external_body]
fn shuffle_indices(order: &mut Vec<usize>)
    ensures
        final(order)@.len() == old(order)@.len(),
        final(order)@.to_multiset() == old(order)@.to_multiset(),
{
    order.shuffle(&mut rand::rng());
}

/// The indices `0, 1, .., n-1` in their natural order.
pub open spec fn identity_order(n: int) -> Seq<usize> {
    Seq::new(n as nat, |i: int| i as usize)
}

/// `order` holds exactly the indices `0 .. n`, each once, in some order.
pub open spec fn is_order_of(order: Seq<usize>, n: int) -> bool {
    order.to_multiset() == identity_order(n).to_multiset()
}

/// A visiting order over `n` examples has length `n` and stays below `n`.
proof fn lemma_order_bounds(order: Seq<usize>, n: int)
    requires
        0 <= n,
        is_order_of(order, n),
    ensures
        order.len() == n,
        forall|i: int| 0 <= i < order.len() ==> (#[trigger] order[i]) < n,
{
    broadcast use vstd::seq_lib::group_to_multiset_ensures;

    assert(identity_order(n).len() == n);
    assert(order.to_multiset().len() == order.len());
    assert(identity_order(n).to_multiset().len() == identity_order(n).len());
    assert forall|i: int| 0 <= i < order.len() implies (#[trigger] order[i]) < n by {
        let x = order[i];
        assert(order.contains(x));
        assert(order.to_multiset().count(x) > 0);
        assert(identity_order(n).contains(x));
        let j = choose|j: int| 0 <= j < identity_order(n).len() && identity_order(n)[j] == x;
        assert(x == j as usize);
    }
}

/// Zero-filled gradients shaped like the network's weights and biases.
pub open spec fn zero_grads(net: Network, gw: Seq<Matrix>, gb: Seq<Matrix>) -> bool {
    &&& grads_match(net, gw, gb)
    &&& forall|l: int, i: int, j: int|
        0 <= l < gw.len() && 0 <= i < gw[l].rows && 0 <= j < gw[l].cols ==> (#[trigger] gw[l].at(
            i,
            j,
        )) == 0
    &&& forall|l: int, i: int, j: int|
        0 <= l < gb.len() && 0 <= i < gb[l].rows && 0 <= j < gb[l].cols ==> (#[trigger] gb[l].at(
            i,
            j,
        )) == 0
}

/// Two gradient lists summed entry by entry through `addf`.
pub open spec fn grads_add_rel<FAd: Fn(Scalar, Scalar) -> Scalar>(
    addf: FAd,
    gw: Seq<Matrix>,
    gb: Seq<Matrix>,
    dw: Seq<Matrix>,
    db: Seq<Matrix>,
    gw2: Seq<Matrix>,
    gb2: Seq<Matrix>,
) -> bool {
    &&& dw.len() == gw.len()
    &&& db.len() == gb.len()
    &&& gw2.len() == gw.len()
    &&& gb2.len() == gb.len()
    &&& forall|l: int| 0 <= l < gw.len() ==> entrywise_rel(addf, gw[l], dw[l], #[trigger] gw2[l])
    &&& forall|l: int| 0 <= l < gb.len() ==> entrywise_rel(addf, gb[l], db[l], #[trigger] gb2[l])
}

/// The gradients of a single example against the unchanged network `net`:
/// one recorded forward pass on `x` and one backpropagation against `y`.
pub open spec fn example_grads_rel<
    FA: Fn(Scalar) -> Scalar,
    FD: Fn(Scalar) -> Scalar,
    FM: Fn(Scalar, Scalar) -> Scalar,
    FAd: Fn(Scalar, Scalar) -> Scalar,
    FS: Fn(Scalar, Scalar) -> Scalar,
>(
    act: FA,
    deriv: FD,
    two: Scalar,
    mulf: FM,
    addf: FAd,
    subf: FS,
    net: Network,
    x: Seq<Scalar>,
    y: Seq<Scalar>,
    nw: Seq<Matrix>,
    nb: Seq<Matrix>,
) -> bool {
    exists|rec: TrainingRecord, out: Seq<Scalar>|
        #![trigger backprop_rel(net, out, y, rec, two, deriv, mulf, addf, subf, nw, nb)]
        {
            &&& rec.consistent_with(net)
            &&& record_rel(net, x, rec, act, mulf, addf)
            &&& out == col_seq(rec.activations@[net.depth() - 1], 0)
            &&& backprop_rel(net, out, y, rec, two, deriv, mulf, addf, subf, nw, nb)
            &&& grads_match(net, nw, nb)
        }
}

/// The summed gradients of the first `k` examples of `batch`, accumulated
/// from zero-filled gradients, all against the unchanged network `net`.
pub open spec fn batch_grads_rel<
    FA: Fn(Scalar) -> Scalar,
    FD: Fn(Scalar) -> Scalar,
    FM: Fn(Scalar, Scalar) -> Scalar,
    FAd: Fn(Scalar, Scalar) -> Scalar,
    FS: Fn(Scalar, Scalar) -> Scalar,
>(
    act: FA,
    deriv: FD,
    two: Scalar,
    mulf: FM,
    addf: FAd,
    subf: FS,
    net: Network,
    xs: Seq<Seq<Scalar>>,
    ys: Seq<Seq<Scalar>>,
    batch: Seq<usize>,
    k: int,
    gw: Seq<Matrix>,
    gb: Seq<Matrix>,
) -> bool
    decreases k,
{
    if k <= 0 {
        zero_grads(net, gw, gb)
    } else {
        exists|gwp: Seq<Matrix>, gbp: Seq<Matrix>, dw: Seq<Matrix>, db: Seq<Matrix>|
            {
                &&& batch_grads_rel(act, deriv, two, mulf, addf, subf, net, xs, ys, batch, k - 1, gwp, gbp)
                &&& example_grads_rel(
                    act,
                    deriv,
                    two,
                    mulf,
                    addf,
                    subf,
                    net,
                    xs[batch[k - 1] as int],
                    ys[batch[k - 1] as int],
                    dw,
                    db,
                )
                &&& #[trigger] grads_add_rel(addf, gwp, gbp, dw, db, gw, gb)
            }
    }
}

/// One mini-batch step: the per-example gradients of the whole batch are
/// summed against the unchanged network `a`, and one update is applied with
/// the averaged gradient — the learning rate divided, through `divf`, by
/// the batch length.
pub open spec fn batch_step_rel<
    FA: Fn(Scalar) -> Scalar,
    FD: Fn(Scalar) -> Scalar,
    FM: Fn(Scalar, Scalar) -> Scalar,
    FAd: Fn(Scalar, Scalar) -> Scalar,
    FS: Fn(Scalar, Scalar) -> Scalar,
    FDv: Fn(Scalar, usize) -> Scalar,
>(
    act: FA,
    deriv: FD,
    two: Scalar,
    mulf: FM,
    addf: FAd,
    subf: FS,
    divf: FDv,
    a: Network,
    xs: Seq<Seq<Scalar>>,
    ys: Seq<Seq<Scalar>>,
    batch: Seq<usize>,
    b: Network,
) -> bool {
    exists|gw: Seq<Matrix>, gb: Seq<Matrix>, factor: Scalar|
        {
            &&& batch_grads_rel(
                act,
                deriv,
                two,
                mulf,
                addf,
                subf,
                a,
                xs,
                ys,
                batch,
                batch.len() as int,
                gw,
                gb,
            )
            &&& call_ensures(divf, (a.learning_rate, batch.len() as usize), factor)
            &&& #[trigger] scaled_update_rel(mulf, subf, factor, a, gw, gb, b)
        }
}

/// The mini-batch `k` of a visiting order: the `k`-th disjoint window of
/// `bs` indices; the last window may be shorter.
pub open spec fn batch_at(order: Seq<usize>, bs: int, k: int) -> Seq<usize> {
    order.subrange(k * bs, vstd::math::min((k + 1) * bs, order.len() as int))
}

/// How many disjoint mini-batches of size `bs` cover `n` examples.
pub open spec fn num_batches(n: int, bs: int) -> int {
    (n + bs - 1) / bs
}

/// The first `k` mini-batches of one epoch's visiting order applied in
/// order, one batch step each.
pub open spec fn sto_batches_rel<
    FA: Fn(Scalar) -> Scalar,
    FD: Fn(Scalar) -> Scalar,
    FM: Fn(Scalar, Scalar) -> Scalar,
    FAd: Fn(Scalar, Scalar) -> Scalar,
    FS: Fn(Scalar, Scalar) -> Scalar,
    FDv: Fn(Scalar, usize) -> Scalar,
>(
    act: FA,
    deriv: FD,
    two: Scalar,
    mulf: FM,
    addf: FAd,
    subf: FS,
    divf: FDv,
    a: Network,
    xs: Seq<Seq<Scalar>>,
    ys: Seq<Seq<Scalar>>,
    order: Seq<usize>,
    bs: int,
    k: int,
    b: Network,
) -> bool
    decreases k,
{
    if k <= 0 {
        b == a
    } else {
        exists|mid: Network|
            {
                &&& sto_batches_rel(
                    act,
                    deriv,
                    two,
                    mulf,
                    addf,
                    subf,
                    divf,
                    a,
                    xs,
                    ys,
                    order,
                    bs,
                    k - 1,
                    mid,
                )
                &&& #[trigger] batch_step_rel(
                    act,
                    deriv,
                    two,
                    mulf,
                    addf,
                    subf,
                    divf,
                    mid,
                    xs,
                    ys,
                    batch_at(order, bs, k - 1),
                    b,
                )
            }
    }
}

/// One whole stochastic epoch: every mini-batch of the visiting order
/// applied in order, so each example is used exactly once.
pub open spec fn sto_epoch_rel<
    FA: Fn(Scalar) -> Scalar,
    FD: Fn(Scalar) -> Scalar,
    FM: Fn(Scalar, Scalar) -> Scalar,
    FAd: Fn(Scalar, Scalar) -> Scalar,
    FS: Fn(Scalar, Scalar) -> Scalar,
    FDv: Fn(Scalar, usize) -> Scalar,
>(
    act: FA,
    deriv: FD,
    two: Scalar,
    mulf: FM,
    addf: FAd,
    subf: FS,
    divf: FDv,
    a: Network,
    xs: Seq<Seq<Scalar>>,
    ys: Seq<Seq<Scalar>>,
    order: Seq<usize>,
    bs: int,
    b: Network,
) -> bool {
    sto_batches_rel(
        act,
        deriv,
        two,
        mulf,
        addf,
        subf,
        divf,
        a,
        xs,
        ys,
        order,
        bs,
        num_batches(order.len() as int, bs),
        b,
    )
}

/// `e` stochastic epochs: each shuffles the examples into some visiting
/// order — every index exactly once — and walks its mini-batches.
pub open spec fn sto_epochs_rel<
    FA: Fn(Scalar) -> Scalar,
    FD: Fn(Scalar) -> Scalar,
    FM: Fn(Scalar, Scalar) -> Scalar,
    FAd: Fn(Scalar, Scalar) -> Scalar,
    FS: Fn(Scalar, Scalar) -> Scalar,
    FDv: Fn(Scalar, usize) -> Scalar,
>(
    act: FA,
    deriv: FD,
    two: Scalar,
    mulf: FM,
    addf: FAd,
    subf: FS,
    divf: FDv,
    a: Network,
    xs: Seq<Seq<Scalar>>,
    ys: Seq<Seq<Scalar>>,
    bs: int,
    e: int,
    b: Network,
) -> bool
    decreases e,
{
    if e <= 0 {
        b == a
    } else {
        exists|mid: Network, order: Seq<usize>|
            {
                &&& sto_epochs_rel(act, deriv, two, mulf, addf, subf, divf, a, xs, ys, bs, e - 1, mid)
                &&& is_order_of(order, xs.len() as int)
                &&& #[trigger] sto_epoch_rel(
                    act,
                    deriv,
                    two,
                    mulf,
                    addf,
                    subf,
                    divf,
                    mid,
                    xs,
                    ys,
                    order,
                    bs,
                    b,
                )
            }
    }
}

/// A mini-batch of exactly one example performs one online training step.
/// The hypotheses say what the averaging degenerates to on such a batch:
/// summing a gradient entry into the zero word gives the entry back, and
/// dividing the learning rate by a count of one gives it back. (Of IEEE
/// addition the first holds for every word but the negative zero.) Under
/// them, a batch step on the singleton batch relates exactly the networks
/// that one step of online training on the same example relates.
pub proof fn lemma_singleton_batch_is_step<
    FA: Fn(Scalar) -> Scalar,
    FD: Fn(Scalar) -> Scalar,
    FM: Fn(Scalar, Scalar) -> Scalar,
    FAd: Fn(Scalar, Scalar) -> Scalar,
    FS: Fn(Scalar, Scalar) -> Scalar,
    FDv: Fn(Scalar, usize) -> Scalar,
>(
    act: FA,
    deriv: FD,
    two: Scalar,
    mulf: FM,
    addf: FAd,
    subf: FS,
    divf: FDv,
    a: Network,
    xs: Seq<Seq<Scalar>>,
    ys: Seq<Seq<Scalar>>,
    idx: usize,
    b: Network,
)
    requires
        a.wf(),
        idx < xs.len(),
        batch_step_rel(act, deriv, two, mulf, addf, subf, divf, a, xs, ys, seq![idx], b),
        forall|z: Scalar, x: Scalar, r: Scalar|
            #[trigger] call_ensures(addf, (z, x), r) && z == 0 ==> r == x,
        forall|x: Scalar, c: usize, r: Scalar|
            #[trigger] call_ensures(divf, (x, c), r) && c == 1 ==> r == x,
    ensures
        train_step_rel(act, deriv, two, mulf, addf, subf, a, xs[idx as int], ys[idx as int], b),
{
    let batch: Seq<usize> = seq![idx];
    assert(batch.len() == 1);
    assert(batch[0] == idx);
    let (gw, gb, factor) = choose|gw: Seq<Matrix>, gb: Seq<Matrix>, factor: Scalar|
        {
            &&& batch_grads_rel(
                act,
                deriv,
                two,
                mulf,
                addf,
                subf,
                a,
                xs,
                ys,
                batch,
                batch.len() as int,
                gw,
                gb,
            )
            &&& call_ensures(divf, (a.learning_rate, batch.len() as usize), factor)
            &&& #[trigger] scaled_update_rel(mulf, subf, factor, a, gw, gb, b)
        };
    assert(factor == a.learning_rate);
    assert(batch_grads_rel(act, deriv, two, mulf, addf, subf, a, xs, ys, batch, 1, gw, gb));
    let (gwp, gbp, dw, db) = choose|
        gwp: Seq<Matrix>,
        gbp: Seq<Matrix>,
        dw: Seq<Matrix>,
        db: Seq<Matrix>,
    |
        {
            &&& batch_grads_rel(act, deriv, two, mulf, addf, subf, a, xs, ys, batch, 0, gwp, gbp)
            &&& example_grads_rel(
                act,
                deriv,
                two,
                mulf,
                addf,
                subf,
                a,
                xs[batch[0] as int],
                ys[batch[0] as int],
                dw,
                db,
            )
            &&& #[trigger] grads_add_rel(addf, gwp, gbp, dw, db, gw, gb)
        };
    assert(zero_grads(a, gwp, gbp));
    assert forall|l: int| 0 <= l < gw.len() implies agrees(#[trigger] gw[l], dw[l]) by {
        assert(entrywise_rel(addf, gwp[l], dw[l], gw[l]));
        assert forall|i: int, j: int|
            0 <= i < gw[l].rows && 0 <= j < gw[l].cols implies gw[l].at(i, j) == dw[l].at(
            i,
            j,
        ) by {
            assert(gwp[l].at(i, j) == 0);
            assert(call_ensures(addf, (gwp[l].at(i, j), dw[l].at(i, j)), gw[l].at(i, j)));
        }
    }
    assert forall|l: int| 0 <= l < gb.len() implies agrees(#[trigger] gb[l], db[l]) by {
        assert(entrywise_rel(addf, gbp[l], db[l], gb[l]));
        assert forall|i: int, j: int|
            0 <= i < gb[l].rows && 0 <= j < gb[l].cols implies gb[l].at(i, j) == db[l].at(
            i,
            j,
        ) by {
            assert(gbp[l].at(i, j) == 0);
            assert(call_ensures(addf, (gbp[l].at(i, j), db[l].at(i, j)), gb[l].at(i, j)));
        }
    }
    assert forall|l: int|
        0 <= l < a.weights@.len() implies descend_rel(
        mulf,
        subf,
        a.learning_rate,
        a.weights@[l],
        dw[l],
        #[trigger] b.weights@[l],
    ) by {
        assert(descend_rel(mulf, subf, factor, a.weights@[l], gw[l], b.weights@[l]));
        let scaled = choose|scaled: Matrix|
            {
                &&& #[trigger] scale_rel(mulf, factor, gw[l], scaled)
                &&& entrywise_rel(subf, a.weights@[l], scaled, b.weights@[l])
            };
        assert forall|i: int, j: int|
            0 <= i < scaled.rows && 0 <= j < scaled.cols implies call_ensures(
            mulf,
            (factor, dw[l].at(i, j)),
            #[trigger] scaled.at(i, j),
        ) by {
            assert(call_ensures(mulf, (factor, gw[l].at(i, j)), scaled.at(i, j)));
            assert(gw[l].at(i, j) == dw[l].at(i, j));
        }
        assert(scale_rel(mulf, factor, dw[l], scaled));
    }
    assert forall|l: int|
        0 <= l < a.biases@.len() implies descend_rel(
        mulf,
        subf,
        a.learning_rate,
        a.biases@[l],
        db[l],
        #[trigger] b.biases@[l],
    ) by {
        assert(descend_rel(mulf, subf, factor, a.biases@[l], gb[l], b.biases@[l]));
        let scaled = choose|scaled: Matrix|
            {
                &&& #[trigger] scale_rel(mulf, factor, gb[l], scaled)
                &&& entrywise_rel(subf, a.biases@[l], scaled, b.biases@[l])
            };
        assert forall|i: int, j: int|
            0 <= i < scaled.rows && 0 <= j < scaled.cols implies call_ensures(
            mulf,
            (factor, db[l].at(i, j)),
            #[trigger] scaled.at(i, j),
        ) by {
            assert(call_ensures(mulf, (factor, gb[l].at(i, j)), scaled.at(i, j)));
            assert(gb[l].at(i, j) == db[l].at(i, j));
        }
        assert(scale_rel(mulf, factor, db[l], scaled));
    }
    assert(scaled_update_rel(mulf, subf, a.learning_rate, a, dw, db, b));
    let (rec, out) = choose|rec: TrainingRecord, out: Seq<Scalar>|
        {
            &&& rec.consistent_with(a)
            &&& record_rel(a, xs[batch[0] as int], rec, act, mulf, addf)
            &&& out == col_seq(rec.activations@[a.depth() - 1], 0)
            &&& #[trigger] backprop_rel(
                a,
                out,
                ys[batch[0] as int],
                rec,
                two,
                deriv,
                mulf,
                addf,
                subf,
                dw,
                db,
            )
            &&& grads_match(a, dw, db)
        };
    assert(train_step_rel(act, deriv, two, mulf, addf, subf, a, xs[idx as int], ys[idx as int], b));
}

/// Appending one more example's gradients to a partial batch sum extends
/// the accumulation chain.
proof fn lemma_batch_grads_snoc<
    FA: Fn(Scalar) -> Scalar,
    FD: Fn(Scalar) -> Scalar,
    FM: Fn(Scalar, Scalar) -> Scalar,
    FAd: Fn(Scalar, Scalar) -> Scalar,
    FS: Fn(Scalar, Scalar) -> Scalar,
>(
    act: FA,
    deriv: FD,
    two: Scalar,
    mulf: FM,
    addf: FAd,
    subf: FS,
    net: Network,
    xs: Seq<Seq<Scalar>>,
    ys: Seq<Seq<Scalar>>,
    batch: Seq<usize>,
    k: int,
    gwp: Seq<Matrix>,
    gbp: Seq<Matrix>,
    dw: Seq<Matrix>,
    db: Seq<Matrix>,
    gw2: Seq<Matrix>,
    gb2: Seq<Matrix>,
)
    requires
        0 <= k,
        batch_grads_rel(act, deriv, two, mulf, addf, subf, net, xs, ys, batch, k, gwp, gbp),
        example_grads_rel(
            act,
            deriv,
            two,
            mulf,
            addf,
            subf,
            net,
            xs[batch[k] as int],
            ys[batch[k] as int],
            dw,
            db,
        ),
        grads_add_rel(addf, gwp, gbp, dw, db, gw2, gb2),
    ensures
        batch_grads_rel(act, deriv, two, mulf, addf, subf, net, xs, ys, batch, k + 1, gw2, gb2),
{
    assert(batch_grads_rel(
        act,
        deriv,
        two,
        mulf,
        addf,
        subf,
        net,
        xs,
        ys,
        batch,
        (k + 1) - 1,
        gwp,
        gbp,
    ));
    assert(example_grads_rel(
        act,
        deriv,
        two,
        mulf,
        addf,
        subf,
        net,
        xs[batch[(k + 1) - 1] as int],
        ys[batch[(k + 1) - 1] as int],
        dw,
        db,
    ));
}

/// Appending one more batch step to a partial epoch extends the chain.
proof fn lemma_sto_batches_snoc<
    FA: Fn(Scalar) -> Scalar,
    FD: Fn(Scalar) -> Scalar,
    FM: Fn(Scalar, Scalar) -> Scalar,
    FAd: Fn(Scalar, Scalar) -> Scalar,
    FS: Fn(Scalar, Scalar) -> Scalar,
    FDv: Fn(Scalar, usize) -> Scalar,
>(
    act: FA,
    deriv: FD,
    two: Scalar,
    mulf: FM,
    addf: FAd,
    subf: FS,
    divf: FDv,
    a: Network,
    xs: Seq<Seq<Scalar>>,
    ys: Seq<Seq<Scalar>>,
    order: Seq<usize>,
    bs: int,
    k: int,
    mid: Network,
    b: Network,
)
    requires
        0 <= k,
        sto_batches_rel(act, deriv, two, mulf, addf, subf, divf, a, xs, ys, order, bs, k, mid),
        batch_step_rel(
            act,
            deriv,
            two,
            mulf,
            addf,
            subf,
            divf,
            mid,
            xs,
            ys,
            batch_at(order, bs, k),
            b,
        ),
    ensures
        sto_batches_rel(act, deriv, two, mulf, addf, subf, divf, a, xs, ys, order, bs, k + 1, b),
{
    assert(sto_batches_rel(
        act,
        deriv,
        two,
        mulf,
        addf,
        subf,
        divf,
        a,
        xs,
        ys,
        order,
        bs,
        (k + 1) - 1,
        mid,
    ));
    assert(batch_step_rel(
        act,
        deriv,
        two,
        mulf,
        addf,
        subf,
        divf,
        mid,
        xs,
        ys,
        batch_at(order, bs, (k + 1) - 1),
        b,
    ));
}

/// Appending one more shuffled epoch extends the chain of epochs.
proof fn lemma_sto_epochs_snoc<
    FA: Fn(Scalar) -> Scalar,
    FD: Fn(Scalar) -> Scalar,
    FM: Fn(Scalar, Scalar) -> Scalar,
    FAd: Fn(Scalar, Scalar) -> Scalar,
    FS: Fn(Scalar, Scalar) -> Scalar,
    FDv: Fn(Scalar, usize) -> Scalar,
>(
    act: FA,
    deriv: FD,
    two: Scalar,
    mulf: FM,
    addf: FAd,
    subf: FS,
    divf: FDv,
    a: Network,
    xs: Seq<Seq<Scalar>>,
    ys: Seq<Seq<Scalar>>,
    order: Seq<usize>,
    bs: int,
    e: int,
    mid: Network,
    b: Network,
)
    requires
        0 <= e,
        sto_epochs_rel(act, deriv, two, mulf, addf, subf, divf, a, xs, ys, bs, e, mid),
        is_order_of(order, xs.len() as int),
        sto_epoch_rel(act, deriv, two, mulf, addf, subf, divf, mid, xs, ys, order, bs, b),
    ensures
        sto_epochs_rel(act, deriv, two, mulf, addf, subf, divf, a, xs, ys, bs, e + 1, b),
{
    assert(sto_epochs_rel(
        act,
        deriv,
        two,
        mulf,
        addf,
        subf,
        divf,
        a,
        xs,
        ys,
        bs,
        (e + 1) - 1,
        mid,
    ));
}

/// `rounded` applies `roundf` to every entry of `out`, in order.
pub open spec fn round_seq_rel<FR: Fn(Scalar) -> Scalar>(
    roundf: FR,
    out: Seq<Scalar>,
    rounded: Seq<Scalar>,
) -> bool {
    &&& rounded.len() == out.len()
    &&& forall|k: int| 0 <= k < out.len() ==> call_ensures(roundf, (out[k],), #[trigger] rounded[k])
}

/// `flags[k]` is an output of the entry comparison `eqf` on the paired
/// entries of `rounded` and `y`.
pub open spec fn eq_flags_rel<FE: Fn(Scalar, Scalar) -> bool>(
    eqf: FE,
    rounded: Seq<Scalar>,
    y: Seq<Scalar>,
    flags: Seq<bool>,
) -> bool {
    &&& flags.len() == y.len()
    &&& rounded.len() == y.len()
    &&& forall|k: int|
        0 <= k < y.len() ==> call_ensures(eqf, (rounded[k], y[k]), #[trigger] flags[k])
}

/// One scored example: the forward output of `net` on `x` is rounded entry
/// by entry, and `pass` says whether the rounded vector matches `y` exactly
/// — same length and every entry comparison true.
pub open spec fn example_pass_rel<
    FA: Fn(Scalar) -> Scalar,
    FM: Fn(Scalar, Scalar) -> Scalar,
    FAd: Fn(Scalar, Scalar) -> Scalar,
    FR: Fn(Scalar) -> Scalar,
    FE: Fn(Scalar, Scalar) -> bool,
>(
    act: FA,
    mulf: FM,
    addf: FAd,
    roundf: FR,
    eqf: FE,
    net: Network,
    x: Seq<Scalar>,
    y: Seq<Scalar>,
    pass: bool,
) -> bool {
    exists|out: Seq<Scalar>, rounded: Seq<Scalar>|
        #![trigger forward_rel(net, x, out, act, mulf, addf), round_seq_rel(roundf, out, rounded)]
        {
            &&& forward_rel(net, x, out, act, mulf, addf)
            &&& round_seq_rel(roundf, out, rounded)
            &&& if rounded.len() != y.len() {
                pass == false
            } else {
                exists|flags: Seq<bool>|
                    {
                        &&& #[trigger] eq_flags_rel(eqf, rounded, y, flags)
                        &&& pass == (forall|k: int| 0 <= k < flags.len() ==> flags[k])
                    }
            }
        }
}

/// The number of the first `j` examples whose rounded forward output
/// matches the expected vector exactly.
pub open spec fn test_count_rel<
    FA: Fn(Scalar) -> Scalar,
    FM: Fn(Scalar, Scalar) -> Scalar,
    FAd: Fn(Scalar, Scalar) -> Scalar,
    FR: Fn(Scalar) -> Scalar,
    FE: Fn(Scalar, Scalar) -> bool,
>(
    act: FA,
    mulf: FM,
    addf: FAd,
    roundf: FR,
    eqf: FE,
    net: Network,
    xs: Seq<Seq<Scalar>>,
    ys: Seq<Seq<Scalar>>,
    j: int,
    count: int,
) -> bool
    decreases j,
{
    if j <= 0 {
        count == 0
    } else {
        exists|pass: bool|
            {
                &&& #[trigger] example_pass_rel(
                    act,
                    mulf,
                    addf,
                    roundf,
                    eqf,
                    net,
                    xs[j - 1],
                    ys[j - 1],
                    pass,
                )
                &&& test_count_rel(
                    act,
                    mulf,
                    addf,
                    roundf,
                    eqf,
                    net,
                    xs,
                    ys,
                    j - 1,
                    count - (if pass {
                        1int
                    } else {
                        0int
                    }),
                )
            }
    }
}

/// Scoring one more example extends the counting chain.
proof fn lemma_test_count_snoc<
    FA: Fn(Scalar) -> Scalar,
    FM: Fn(Scalar, Scalar) -> Scalar,
    FAd: Fn(Scalar, Scalar) -> Scalar,
    FR: Fn(Scalar) -> Scalar,
    FE: Fn(Scalar, Scalar) -> bool,
>(
    act: FA,
    mulf: FM,
    addf: FAd,
    roundf: FR,
    eqf: FE,
    net: Network,
    xs: Seq<Seq<Scalar>>,
    ys: Seq<Seq<Scalar>>,
    j: int,
    count: int,
    pass: bool,
)
    requires
        0 <= j,
        test_count_rel(act, mulf, addf, roundf, eqf, net, xs, ys, j, count),
        example_pass_rel(act, mulf, addf, roundf, eqf, net, xs[j], ys[j], pass),
    ensures
        test_count_rel(
            act,
            mulf,
            addf,
            roundf,
            eqf,
            net,
            xs,
            ys,
            j + 1,
            count + (if pass {
                1int
            } else {
                0int
            }),
        ),
{
    let c2 = count + (if pass {
        1int
    } else {
        0int
    });
    assert(example_pass_rel(act, mulf, addf, roundf, eqf, net, xs[(j + 1) - 1], ys[(j + 1) - 1], pass));
    assert(test_count_rel(
        act,
        mulf,
        addf,
        roundf,
        eqf,
        net,
        xs,
        ys,
        (j + 1) - 1,
        c2 - (if pass {
            1int
        } else {
            0int
        }),
    ));
}

/// Appending one more example step to a partial pass extends the chain.
proof fn lemma_train_pass_snoc<
    FA: Fn(Scalar) -> Scalar,
    FD: Fn(Scalar) -> Scalar,
    FM: Fn(Scalar, Scalar) -> Scalar,
    FAd: Fn(Scalar, Scalar) -> Scalar,
    FS: Fn(Scalar, Scalar) -> Scalar,
>(
    act: FA,
    deriv: FD,
    two: Scalar,
    mulf: FM,
    addf: FAd,
    subf: FS,
    a: Network,
    xs: Seq<Seq<Scalar>>,
    ys: Seq<Seq<Scalar>>,
    j: int,
    mid: Network,
    b: Network,
)
    requires
        0 <= j,
        train_pass_rel(act, deriv, two, mulf, addf, subf, a, xs, ys, j, mid),
        train_step_rel(act, deriv, two, mulf, addf, subf, mid, xs[j], ys[j], b),
    ensures
        train_pass_rel(act, deriv, two, mulf, addf, subf, a, xs, ys, j + 1, b),
{
    assert(train_pass_rel(act, deriv, two, mulf, addf, subf, a, xs, ys, (j + 1) - 1, mid));
    assert(train_step_rel(
        act,
        deriv,
        two,
        mulf,
        addf,
        subf,
        mid,
        xs[(j + 1) - 1],
        ys[(j + 1) - 1],
        b,
    ));
}

/// Appending one more full pass to a chain of epochs extends the chain.
proof fn lemma_train_epochs_snoc<
    FA: Fn(Scalar) -> Scalar,
    FD: Fn(Scalar) -> Scalar,
    FM: Fn(Scalar, Scalar) -> Scalar,
    FAd: Fn(Scalar, Scalar) -> Scalar,
    FS: Fn(Scalar, Scalar) -> Scalar,
>(
    act: FA,
    deriv: FD,
    two: Scalar,
    mulf: FM,
    addf: FAd,
    subf: FS,
    a: Network,
    xs: Seq<Seq<Scalar>>,
    ys: Seq<Seq<Scalar>>,
    e: int,
    mid: Network,
    b: Network,
)
    requires
        0 <= e,
        train_epochs_rel(act, deriv, two, mulf, addf, subf, a, xs, ys, e, mid),
        train_pass_rel(act, deriv, two, mulf, addf, subf, mid, xs, ys, xs.len() as int, b),
    ensures
        train_epochs_rel(act, deriv, two, mulf, addf, subf, a, xs, ys, e + 1, b),
{
    assert(train_epochs_rel(act, deriv, two, mulf, addf, subf, a, xs, ys, (e + 1) - 1, mid));
    assert(train_pass_rel(act, deriv, two, mulf, addf, subf, mid, xs, ys, xs.len() as int, b));
}

/// Sum two gradient lists entry by entry through `addf`.
fn accumulate_grads<FAd: Fn(Scalar, Scalar) -> Scalar + Copy>(
    gw: &Vec<Matrix>,
    gb: &Vec<Matrix>,
    dw: &Vec<Matrix>,
    db: &Vec<Matrix>,
    addf: FAd,
) -> (r: (Vec<Matrix>, Vec<Matrix>))
    requires
        forall|x: Scalar, y: Scalar| #[trigger] call_requires(addf, (x, y)),
        gw@.len() == dw@.len(),
        gb@.len() == db@.len(),
        gw@.len() == gb@.len(),
        forall|l: int|
            0 <= l < gw@.len() ==> {
                &&& (#[trigger] gw@[l]).wf()
                &&& dw@[l].wf()
                &&& same_shape(gw@[l], dw@[l])
            },
        forall|l: int|
            0 <= l < gb@.len() ==> {
                &&& (#[trigger] gb@[l]).wf()
                &&& db@[l].wf()
                &&& same_shape(gb@[l], db@[l])
            },
    ensures
        grads_add_rel(addf, gw@, gb@, dw@, db@, r.0@, r.1@),
{
    let count = gw.len();
    let mut out_w: Vec<Matrix> = Vec::new();
    let mut out_b: Vec<Matrix> = Vec::new();
    for l in 0..count
        invariant
            forall|x: Scalar, y: Scalar| #[trigger] call_requires(addf, (x, y)),
            count == gw@.len(),
            gb@.len() == count,
            dw@.len() == count,
            db@.len() == count,
            forall|k: int|
                0 <= k < count ==> {
                    &&& (#[trigger] gw@[k]).wf()
                    &&& dw@[k].wf()
                    &&& same_shape(gw@[k], dw@[k])
                },
            forall|k: int|
                0 <= k < count ==> {
                    &&& (#[trigger] gb@[k]).wf()
                    &&& db@[k].wf()
                    &&& same_shape(gb@[k], db@[k])
                },
            out_w@.len() == l,
            out_b@.len() == l,
            forall|k: int|
                0 <= k < l ==> entrywise_rel(addf, gw@[k], dw@[k], #[trigger] out_w@[k]),
            forall|k: int|
                0 <= k < l ==> entrywise_rel(addf, gb@[k], db@[k], #[trigger] out_b@[k]),
    {
        let nw = match (&gw[l]).add(&dw[l], addf) {
            Ok(m) => m,
            Err(_) => unreached(),
        };
        out_w.push(nw);
        let nb = match (&gb[l]).add(&db[l], addf) {
            Ok(m) => m,
            Err(_) => unreached(),
        };
        out_b.push(nb);
    }
    (out_w, out_b)
}

/// Copy a vector of scalar words.
fn clone_scalars(v: &Vec<Scalar>) -> (r: Vec<Scalar>)
    ensures
        r@ == v@,
{
    let mut r: Vec<Scalar> = Vec::new();
    for j in 0..v.len()
        invariant
            r@.len() == j,
            forall|k: int| 0 <= k < j ==> r@[k] == v@[k],
    {
        r.push(v[j]);
    }
    proof {
        assert(r@ =~= v@);
    }
    r
}

/// `a` and `b` share topology, activation tag and learning rate.
pub open spec fn same_structure(a: Network, b: Network) -> bool {
    &&& b.layers@ == a.layers@
    &&& b.activation_function == a.activation_function
    &&& b.learning_rate == a.learning_rate
    &&& b.weights@.len() == a.weights@.len()
    &&& b.biases@.len() == a.biases@.len()
}

/// The gradient lists have one well-formed matrix per layer transition,
/// shaped exactly like the weight or bias it is a gradient for.
pub open spec fn grads_match(net: Network, nw: Seq<Matrix>, nb: Seq<Matrix>) -> bool {
    &&& nw.len() == net.weights@.len()
    &&& nb.len() == net.biases@.len()
    &&& forall|l: int|
        0 <= l < nw.len() ==> (#[trigger] nw[l]).wf() && same_shape(nw[l], net.weights@[l])
    &&& forall|l: int|
        0 <= l < nb.len() ==> (#[trigger] nb[l]).wf() && same_shape(nb[l], net.biases@[l])
}

/// One whole gradient application: every weight and bias of `b` descends,
/// entry by entry, from the one in `a` by the matching gradient scaled with
/// the word `factor`; nothing else changes.
pub open spec fn scaled_update_rel<
    FM: Fn(Scalar, Scalar) -> Scalar,
    FS: Fn(Scalar, Scalar) -> Scalar,
>(mulf: FM, subf: FS, factor: Scalar, a: Network, nw: Seq<Matrix>, nb: Seq<Matrix>, b: Network) -> bool {
    &&& same_structure(a, b)
    &&& forall|l: int|
        0 <= l < a.weights@.len() ==> descend_rel(
            mulf,
            subf,
            factor,
            a.weights@[l],
            nw[l],
            #[trigger] b.weights@[l],
        )
    &&& forall|l: int|
        0 <= l < a.biases@.len() ==> descend_rel(
            mulf,
            subf,
            factor,
            a.biases@[l],
            nb[l],
            #[trigger] b.biases@[l],
        )
}

impl Network {
    /// The number of layers, input and output included.
    pub open spec fn depth(&self) -> int {
        self.layers@.len() as int
    }

    /// Topology invariant: at least two layers, one weight and one bias
    /// matrix per transition, every matrix well-formed and of the shape the
    /// adjacent layer sizes dictate.
    pub open spec fn wf(&self) -> bool {
        &&& self.layers@.len() >= 2
        &&& self.weights@.len() == self.layers@.len() - 1
        &&& self.biases@.len() == self.layers@.len() - 1
        &&& forall|i: int|
            0 <= i < self.weights@.len() ==> {
                &&& (#[trigger] self.weights@[i]).wf()
                &&& self.weights@[i].rows == self.layers@[i + 1]
                &&& self.weights@[i].cols == self.layers@[i]
            }
        &&& forall|i: int|
            0 <= i < self.biases@.len() ==> {
                &&& (#[trigger] self.biases@[i]).wf()
                &&& self.biases@[i].rows == self.layers@[i + 1]
                &&& self.biases@[i].cols == 1
            }
    }

    /// Build a network over the given topology with randomly initialized
    /// weights and biases: every entry is the image under `init` of a fresh
    /// random word. Fails with `InvalidTopology`, and only with it, exactly
    /// when fewer than two layer sizes are supplied.
    pub fn new<F: Fn(Scalar) -> Scalar + Copy>(
        layers: Vec<usize>,
        activation_function: ActivationFunction,
        learning_rate: Scalar,
        init: F,
    ) -> (r: Result<Network, Error>)
        requires
            forall|x: Scalar| #[trigger] call_requires(init, (x,)),
        ensures
            match r {
                Ok(n) => {
                    &&& layers@.len() >= 2
                    &&& n.wf()
                    &&& n.layers@ == layers@
                    &&& n.activation_function == activation_function
                    &&& n.learning_rate == learning_rate
                    &&& forall|l: int|
                        0 <= l < n.weights@.len() ==> entries_from(init, #[trigger] n.weights@[l])
                    &&& forall|l: int|
                        0 <= l < n.biases@.len() ==> entries_from(init, #[trigger] n.biases@[l])
                },
                Err(e) => {
                    &&& layers@.len() < 2
                    &&& e == (Error::InvalidTopology { layer_count: layers@.len() as usize })
                },
            },
    {
        if layers.len() < 2 {
            return Err(Error::InvalidTopology { layer_count: layers.len() });
        }
        let count = layers.len() - 1;
        let mut weights: Vec<Matrix> = Vec::new();
        let mut biases: Vec<Matrix> = Vec::new();
        for i in 0..count
            invariant
                forall|x: Scalar| #[trigger] call_requires(init, (x,)),
                count == layers@.len() - 1,
                weights@.len() == i,
                biases@.len() == i,
                forall|l: int|
                    0 <= l < i ==> {
                        &&& (#[trigger] weights@[l]).wf()
                        &&& weights@[l].rows == layers@[l + 1]
                        &&& weights@[l].cols == layers@[l]
                    },
                forall|l: int|
                    0 <= l < i ==> {
                        &&& (#[trigger] biases@[l]).wf()
                        &&& biases@[l].rows == layers@[l + 1]
                        &&& biases@[l].cols == 1
                    },
                forall|l: int| 0 <= l < i ==> entries_from(init, #[trigger] weights@[l]),
                forall|l: int| 0 <= l < i ==> entries_from(init, #[trigger] biases@[l]),
        {
            weights.push(Matrix::random(layers[i + 1], layers[i], init));
            biases.push(Matrix::random(layers[i + 1], 1, init));
        }
        Ok(Network { layers, weights, biases, activation_function, learning_rate })
    }

    /// Reassemble a network from previously extracted parts, as a model
    /// loader does. Everything is validated: fewer than two layer sizes, or
    /// weight or bias lists whose length does not match the topology, fail
    /// with `InvalidTopology`; a matrix whose buffer or shape does not match
    /// the adjacent layer sizes fails with `ShapeMismatch` carrying the
    /// expected shape on the left and the found shape on the right. Success
    /// is owed exactly when the parts form a well-formed network.
    pub fn from_parts(
        layers: Vec<usize>,
        weights: Vec<Matrix>,
        biases: Vec<Matrix>,
        activation_function: ActivationFunction,
        learning_rate: Scalar,
    ) -> (r: Result<Network, Error>)
        ensures
            match r {
                Ok(n) => {
                    &&& n.wf()
                    &&& n.layers@ == layers@
                    &&& n.weights@ == weights@
                    &&& n.biases@ == biases@
                    &&& n.activation_function == activation_function
                    &&& n.learning_rate == learning_rate
                },
                Err(e) => {
                    &&& !(Network {
                        layers,
                        weights,
                        biases,
                        activation_function,
                        learning_rate,
                    }).wf()
                    &&& (if layers@.len() < 2 || weights@.len() != layers@.len() - 1
                        || biases@.len() != layers@.len() - 1 {
                        e == (Error::InvalidTopology { layer_count: layers@.len() as usize })
                    } else {
                        exists|l: int|
                            {
                                &&& 0 <= l < layers@.len() - 1
                                &&& forall|k: int|
                                    0 <= k < l ==> weight_fits(layers@, #[trigger] weights@[k], k)
                                        && bias_fits(layers@, biases@[k], k)
                                &&& if !weight_fits(layers@, #[trigger] weights@[l], l) {
                                    e == (Error::ShapeMismatch {
                                        left_rows: layers@[l + 1],
                                        left_cols: layers@[l],
                                        right_rows: weights@[l].rows,
                                        right_cols: weights@[l].cols,
                                    })
                                } else {
                                    &&& !bias_fits(layers@, biases@[l], l)
                                    &&& e == (Error::ShapeMismatch {
                                        left_rows: layers@[l + 1],
                                        left_cols: 1,
                                        right_rows: biases@[l].rows,
                                        right_cols: biases@[l].cols,
                                    })
                                }
                            }
                    })
                },
            },
    {
        if layers.len() < 2 || weights.len() != layers.len() - 1 || biases.len() != layers.len()
            - 1 {
            return Err(Error::InvalidTopology { layer_count: layers.len() });
        }
        let count = layers.len() - 1;
        for l in 0..count
            invariant
                count == layers@.len() - 1,
                layers@.len() >= 2,
                weights@.len() == count,
                biases@.len() == count,
                forall|k: int|
                    0 <= k < l ==> weight_fits(layers@, #[trigger] weights@[k], k) && bias_fits(
                        layers@,
                        biases@[k],
                        k,
                    ),
        {
            let w = &weights[l];
            if !w.check_wf() || w.rows != layers[l + 1] || w.cols != layers[l] {
                proof {
                    assert(!weight_fits(layers@, weights@[l as int], l as int));
                }
                return Err(
                    Error::ShapeMismatch {
                        left_rows: layers[l + 1],
                        left_cols: layers[l],
                        right_rows: w.rows,
                        right_cols: w.cols,
                    },
                );
            }
            let b = &biases[l];
            if !b.check_wf() || b.rows != layers[l + 1] || b.cols != 1 {
                proof {
                    assert(weight_fits(layers@, weights@[l as int], l as int));
                    assert(!bias_fits(layers@, biases@[l as int], l as int));
                }
                return Err(
                    Error::ShapeMismatch {
                        left_rows: layers[l + 1],
                        left_cols: 1,
                        right_rows: b.rows,
                        right_cols: b.cols,
                    },
                );
            }
        }
        proof {
            assert forall|i: int| 0 <= i < weights@.len() implies {
                &&& (#[trigger] weights@[i]).wf()
                &&& weights@[i].rows == layers@[i + 1]
                &&& weights@[i].cols == layers@[i]
            } by {
                assert(weight_fits(layers@, weights@[i], i));
            }
            assert forall|i: int| 0 <= i < biases@.len() implies {
                &&& (#[trigger] biases@[i]).wf()
                &&& biases@[i].rows == layers@[i + 1]
                &&& biases@[i].cols == 1
            } by {
                assert(weight_fits(layers@, weights@[i], i));
                assert(bias_fits(layers@, biases@[i], i));
            }
        }
        Ok(Network { layers, weights, biases, activation_function, learning_rate })
    }

    /// The recording variant of forward inference, used during training: it
    /// returns the output together with the full per-layer history that the
    /// immediately following backpropagation reads. Fails with
    /// `InputArityMismatch`, and only with it, exactly when the input length
    /// does not match the first layer size.
    pub fn feed_forward_and_record<
        FA: Fn(Scalar) -> Scalar + Copy,
        FM: Fn(Scalar, Scalar) -> Scalar + Copy,
        FAd: Fn(Scalar, Scalar) -> Scalar + Copy,
    >(&self, inputs: Vec<Scalar>, act: FA, mulf: FM, addf: FAd) -> (r: Result<
        (Vec<Scalar>, TrainingRecord),
        Error,
    >)
        requires
            self.wf(),
            forall|x: Scalar| #[trigger] call_requires(act, (x,)),
            forall|x: Scalar, y: Scalar| #[trigger] call_requires(mulf, (x, y)),
            forall|x: Scalar, y: Scalar| #[trigger] call_requires(addf, (x, y)),
        ensures
            match r {
                Ok(p) => {
                    &&& inputs@.len() == self.layers@[0]
                    &&& p.1.consistent_with(*self)
                    &&& record_rel(*self, inputs@, p.1, act, mulf, addf)
                    &&& p.0@ == col_seq(p.1.activations@[self.depth() - 1], 0)
                    &&& p.0@.len() == self.layers@[self.depth() - 1]
                },
                Err(e) => {
                    &&& inputs@.len() != self.layers@[0]
                    &&& e == (Error::InputArityMismatch {
                        expected: self.layers@[0],
                        found: inputs@.len() as usize,
                    })
                },
            },
    {
        if inputs.len() != self.layers[0] {
            return Err(
                Error::InputArityMismatch { expected: self.layers[0], found: inputs.len() },
            );
        }
        let ghost input_seq = inputs@;
        let a0 = Matrix::from_flat(inputs).transpose();
        let mut activations: Vec<Matrix> = Vec::new();
        let mut preactivations: Vec<Matrix> = Vec::new();
        activations.push(a0);
        let count = self.layers.len() - 1;
        let mut l: usize = 0;
        while l < count
            invariant
                self.wf(),
                forall|x: Scalar| #[trigger] call_requires(act, (x,)),
                forall|x: Scalar, y: Scalar| #[trigger] call_requires(mulf, (x, y)),
                forall|x: Scalar, y: Scalar| #[trigger] call_requires(addf, (x, y)),
                count == self.depth() - 1,
                l <= count,
                input_seq.len() == self.layers@[0],
                activations@.len() == l + 1,
                preactivations@.len() == l,
                is_column_of(activations@[0], input_seq),
                forall|k: int|
                    0 <= k <= l ==> {
                        &&& (#[trigger] activations@[k]).wf()
                        &&& activations@[k].rows == self.layers@[k]
                        &&& activations@[k].cols == 1
                    },
                forall|k: int|
                    0 <= k < l ==> {
                        &&& (#[trigger] preactivations@[k]).wf()
                        &&& preactivations@[k].rows == self.layers@[k + 1]
                        &&& preactivations@[k].cols == 1
                    },
                forall|k: int|
                    0 <= k < l ==> layer_step_rel(
                        act,
                        mulf,
                        addf,
                        self.weights@[k],
                        self.biases@[k],
                        activations@[k],
                        #[trigger] preactivations@[k],
                        activations@[k + 1],
                    ),
            decreases count - l,
        {
            let prod = match (&self.weights[l]).multiply(&activations[l], mulf, addf) {
                Ok(p) => p,
                Err(_) => unreached(),
            };
            let z = match prod.add(&self.biases[l], addf) {
                Ok(z) => z,
                Err(_) => unreached(),
            };
            let a_next = z.map(act);
            proof {
                assert(product_rel(mulf, addf, self.weights@[l as int], activations@[l as int], prod));
            }
            preactivations.push(z);
            activations.push(a_next);
            proof {
                assert(layer_step_rel(
                    act,
                    mulf,
                    addf,
                    self.weights@[l as int],
                    self.biases@[l as int],
                    activations@[l as int],
                    preactivations@[l as int],
                    activations@[l as int + 1],
                ));
            }
            l += 1;
        }
        let out = (&activations[count]).col(0);
        Ok((out, TrainingRecord { preactivations, activations }))
    }

    /// Forward inference: propagate the input column through every layer
    /// transition and return the final activation as a flat vector. A pure
    /// function of the current weights and biases; no state is mutated.
    /// Fails with `InputArityMismatch`, and only with it, exactly when the
    /// input length does not match the first layer size.
    pub fn feed_forward<
        FA: Fn(Scalar) -> Scalar + Copy,
        FM: Fn(Scalar, Scalar) -> Scalar + Copy,
        FAd: Fn(Scalar, Scalar) -> Scalar + Copy,
    >(&self, inputs: Vec<Scalar>, act: FA, mulf: FM, addf: FAd) -> (r: Result<Vec<Scalar>, Error>)
        requires
            self.wf(),
            forall|x: Scalar| #[trigger] call_requires(act, (x,)),
            forall|x: Scalar, y: Scalar| #[trigger] call_requires(mulf, (x, y)),
            forall|x: Scalar, y: Scalar| #[trigger] call_requires(addf, (x, y)),
        ensures
            match r {
                Ok(out) => {
                    &&& inputs@.len() == self.layers@[0]
                    &&& out@.len() == self.layers@[self.depth() - 1]
                    &&& forward_rel(*self, inputs@, out@, act, mulf, addf)
                },
                Err(e) => {
                    &&& inputs@.len() != self.layers@[0]
                    &&& e == (Error::InputArityMismatch {
                        expected: self.layers@[0],
                        found: inputs@.len() as usize,
                    })
                },
            },
    {
        let ghost input_seq = inputs@;
        match self.feed_forward_and_record(inputs, act, mulf, addf) {
            Ok((out, rec)) => {
                proof {
                    assert(record_rel(*self, input_seq, rec, act, mulf, addf));
                }
                Ok(out)
            },
            Err(e) => Err(e),
        }
    }

    /// Backpropagation: from the forward output, the expected output and
    /// the recorded history of the same example, derive the per-layer
    /// weight and bias gradients of the squared-error loss by the
    /// chain-rule recurrence, walking the layers backward. Fails with
    /// `InputArityMismatch`, and only with it, exactly when the expected or
    /// the actual output length does not match the last layer size.
    pub fn back_propagate<
        FD: Fn(Scalar) -> Scalar + Copy,
        FM: Fn(Scalar, Scalar) -> Scalar + Copy,
        FAd: Fn(Scalar, Scalar) -> Scalar + Copy,
        FS: Fn(Scalar, Scalar) -> Scalar + Copy,
    >(
        &self,
        outputs: Vec<Scalar>,
        expected_outputs: Vec<Scalar>,
        record: &TrainingRecord,
        two: Scalar,
        deriv: FD,
        mulf: FM,
        addf: FAd,
        subf: FS,
    ) -> (r: Result<(Vec<Matrix>, Vec<Matrix>), Error>)
        requires
            self.wf(),
            record.consistent_with(*self),
            forall|x: Scalar| #[trigger] call_requires(deriv, (x,)),
            forall|x: Scalar, y: Scalar| #[trigger] call_requires(mulf, (x, y)),
            forall|x: Scalar, y: Scalar| #[trigger] call_requires(addf, (x, y)),
            forall|x: Scalar, y: Scalar| #[trigger] call_requires(subf, (x, y)),
        ensures
            match r {
                Ok(p) => {
                    &&& outputs@.len() == self.layers@[self.depth() - 1]
                    &&& expected_outputs@.len() == self.layers@[self.depth() - 1]
                    &&& grads_match(*self, p.0@, p.1@)
                    &&& backprop_rel(
                        *self,
                        outputs@,
                        expected_outputs@,
                        *record,
                        two,
                        deriv,
                        mulf,
                        addf,
                        subf,
                        p.0@,
                        p.1@,
                    )
                },
                Err(e) => {
                    &&& {
                        ||| expected_outputs@.len() != self.layers@[self.depth() - 1]
                        ||| outputs@.len() != self.layers@[self.depth() - 1]
                    }
                    &&& (if expected_outputs@.len() != self.layers@[self.depth() - 1] {
                        e == (Error::InputArityMismatch {
                            expected: self.layers@[self.depth() - 1],
                            found: expected_outputs@.len() as usize,
                        })
                    } else {
                        e == (Error::InputArityMismatch {
                            expected: self.layers@[self.depth() - 1],
                            found: outputs@.len() as usize,
                        })
                    })
                },
            },
    {
        let n_out = self.layers[self.layers.len() - 1];
        if expected_outputs.len() != n_out {
            return Err(
                Error::InputArityMismatch { expected: n_out, found: expected_outputs.len() },
            );
        }
        if outputs.len() != n_out {
            return Err(Error::InputArityMismatch { expected: n_out, found: outputs.len() });
        }
        let ghost outputs_seq = outputs@;
        let ghost expected_seq = expected_outputs@;
        let count = self.layers.len() - 1;
        let last = count - 1;

        let out_m = Matrix::from_flat(outputs).transpose();
        let exp_m = Matrix::from_flat(expected_outputs).transpose();
        let diff = match out_m.subtract(&exp_m, subf) {
            Ok(d) => d,
            Err(_) => unreached(),
        };
        let scaled = diff.scalar_multiply(two, mulf);
        let dz = (&record.preactivations[last]).map(deriv);
        let err = match scaled.dot(&dz, mulf) {
            Ok(e) => e,
            Err(_) => unreached(),
        };
        proof {
            assert(column_sub_rel(subf, outputs_seq, expected_seq, diff));
            assert(output_delta_rel(
                deriv,
                mulf,
                subf,
                two,
                outputs_seq,
                expected_seq,
                record.preactivations@[last as int],
                err,
            ));
        }
        let a_t = (&record.activations[last]).transpose();
        let nw_last = match err.multiply(&a_t, mulf, addf) {
            Ok(m) => m,
            Err(_) => unreached(),
        };
        proof {
            assert(weight_grad_rel(mulf, addf, err, record.activations@[last as int], nw_last));
        }

        let mut nabla_w: Vec<Matrix> = Vec::new();
        let mut nabla_b: Vec<Matrix> = Vec::new();
        for k in 0..count
            invariant
                nabla_w@.len() == k,
                nabla_b@.len() == k,
        {
            nabla_w.push(Matrix::zeros(0, 0));
            nabla_b.push(Matrix::zeros(0, 0));
        }
        nabla_w.set(last, nw_last);
        nabla_b.set(last, err);

        let mut l: usize = last;
        while l > 0
            invariant
                self.wf(),
                record.consistent_with(*self),
                forall|x: Scalar| #[trigger] call_requires(deriv, (x,)),
                forall|x: Scalar, y: Scalar| #[trigger] call_requires(mulf, (x, y)),
                forall|x: Scalar, y: Scalar| #[trigger] call_requires(addf, (x, y)),
                forall|x: Scalar, y: Scalar| #[trigger] call_requires(subf, (x, y)),
                count == self.depth() - 1,
                last == count - 1,
                l <= last,
                nabla_w@.len() == count,
                nabla_b@.len() == count,
                forall|k: int|
                    l <= k < count ==> {
                        &&& (#[trigger] nabla_b@[k]).wf()
                        &&& nabla_b@[k].rows == self.layers@[k + 1]
                        &&& nabla_b@[k].cols == 1
                    },
                forall|k: int|
                    l <= k < count ==> {
                        &&& (#[trigger] nabla_w@[k]).wf()
                        &&& nabla_w@[k].rows == self.layers@[k + 1]
                        &&& nabla_w@[k].cols == self.layers@[k]
                    },
                output_delta_rel(
                    deriv,
                    mulf,
                    subf,
                    two,
                    outputs_seq,
                    expected_seq,
                    record.preactivations@[last as int],
                    nabla_b@[last as int],
                ),
                forall|k: int|
                    l <= k < last ==> hidden_delta_rel(
                        deriv,
                        mulf,
                        addf,
                        self.weights@[k + 1],
                        nabla_b@[k + 1],
                        record.preactivations@[k],
                        #[trigger] nabla_b@[k],
                    ),
                forall|k: int|
                    l <= k < count ==> weight_grad_rel(
                        mulf,
                        addf,
                        nabla_b@[k],
                        record.activations@[k],
                        #[trigger] nabla_w@[k],
                    ),
            decreases l,
        {
            let wt = (&self.weights[l]).transpose();
            let prod = match wt.multiply(&nabla_b[l], mulf, addf) {
                Ok(p) => p,
                Err(_) => unreached(),
            };
            let dzl = (&record.preactivations[l - 1]).map(deriv);
            let errl = match prod.dot(&dzl, mulf) {
                Ok(e) => e,
                Err(_) => unreached(),
            };
            let a_tl = (&record.activations[l - 1]).transpose();
            let nwl = match errl.multiply(&a_tl, mulf, addf) {
                Ok(m) => m,
                Err(_) => unreached(),
            };
            proof {
                assert(hidden_delta_rel(
                    deriv,
                    mulf,
                    addf,
                    self.weights@[l as int],
                    nabla_b@[l as int],
                    record.preactivations@[l as int - 1],
                    errl,
                ));
                assert(weight_grad_rel(
                    mulf,
                    addf,
                    errl,
                    record.activations@[l as int - 1],
                    nwl,
                ));
            }
            nabla_w.set(l - 1, nwl);
            nabla_b.set(l - 1, errl);
            l -= 1;
        }
        Ok((nabla_w, nabla_b))
    }

    /// Validate a paired example set against the topology, before any
    /// computation proceeds: the sets must pair up, every input must fit the
    /// first layer and every expected output the last.
    fn check_examples(&self, xs: &Vec<Vec<Scalar>>, ys: &Vec<Vec<Scalar>>) -> (r: Result<
        (),
        Error,
    >)
        requires
            self.wf(),
        ensures
            match r {
                Ok(_) => examples_fit(*self, views_of(xs@), views_of(ys@)),
                Err(e) => {
                    &&& !examples_fit(*self, views_of(xs@), views_of(ys@))
                    &&& examples_error(*self, views_of(xs@), views_of(ys@), e)
                },
            },
    {
        if xs.len() != ys.len() {
            return Err(Error::InputArityMismatch { expected: xs.len(), found: ys.len() });
        }
        let n_in = self.layers[0];
        let n_out = self.layers[self.layers.len() - 1];
        for j in 0..xs.len()
            invariant
                self.wf(),
                n_in == self.layers@[0],
                xs@.len() == ys@.len(),
                forall|k: int| 0 <= k < j ==> (#[trigger] views_of(xs@)[k]).len() == n_in,
        {
            if xs[j].len() != n_in {
                proof {
                    assert(views_of(xs@)[j as int] == xs@[j as int]@);
                }
                return Err(Error::InputArityMismatch { expected: n_in, found: xs[j].len() });
            }
            proof {
                assert(views_of(xs@)[j as int] == xs@[j as int]@);
            }
        }
        for j in 0..ys.len()
            invariant
                self.wf(),
                n_out == self.layers@[self.depth() - 1],
                n_in == self.layers@[0],
                xs@.len() == ys@.len(),
                forall|k: int| 0 <= k < xs@.len() ==> (#[trigger] views_of(xs@)[k]).len() == n_in,
                forall|k: int| 0 <= k < j ==> (#[trigger] views_of(ys@)[k]).len() == n_out,
        {
            if ys[j].len() != n_out {
                proof {
                    assert(views_of(ys@)[j as int] == ys@[j as int]@);
                }
                return Err(Error::InputArityMismatch { expected: n_out, found: ys[j].len() });
            }
            proof {
                assert(views_of(ys@)[j as int] == ys@[j as int]@);
            }
        }
        Ok(())
    }

    /// The full-batch-per-example training loop: for each epoch, for each
    /// example in its original order, record a forward pass, backpropagate
    /// and update immediately — one gradient step per example. The example
    /// set is validated before any computation; on rejection the network is
    /// untouched.
    pub fn train<
        FA: Fn(Scalar) -> Scalar + Copy,
        FD: Fn(Scalar) -> Scalar + Copy,
        FM: Fn(Scalar, Scalar) -> Scalar + Copy,
        FAd: Fn(Scalar, Scalar) -> Scalar + Copy,
        FS: Fn(Scalar, Scalar) -> Scalar + Copy,
    >(
        &mut self,
        training_inputs: Vec<Vec<Scalar>>,
        training_outputs: Vec<Vec<Scalar>>,
        epochs: u16,
        act: FA,
        deriv: FD,
        two: Scalar,
        mulf: FM,
        addf: FAd,
        subf: FS,
    ) -> (r: Result<(), Error>)
        requires
            old(self).wf(),
            forall|x: Scalar| #[trigger] call_requires(act, (x,)),
            forall|x: Scalar| #[trigger] call_requires(deriv, (x,)),
            forall|x: Scalar, y: Scalar| #[trigger] call_requires(mulf, (x, y)),
            forall|x: Scalar, y: Scalar| #[trigger] call_requires(addf, (x, y)),
            forall|x: Scalar, y: Scalar| #[trigger] call_requires(subf, (x, y)),
        ensures
            match r {
                Ok(_) => {
                    &&& examples_fit(
                        *old(self),
                        views_of(training_inputs@),
                        views_of(training_outputs@),
                    )
                    &&& final(self).wf()
                    &&& same_structure(*old(self), *final(self))
                    &&& train_epochs_rel(
                        act,
                        deriv,
                        two,
                        mulf,
                        addf,
                        subf,
                        *old(self),
                        views_of(training_inputs@),
                        views_of(training_outputs@),
                        epochs as int,
                        *final(self),
                    )
                },
                Err(e) => {
                    &&& !examples_fit(
                        *old(self),
                        views_of(training_inputs@),
                        views_of(training_outputs@),
                    )
                    &&& examples_error(
                        *old(self),
                        views_of(training_inputs@),
                        views_of(training_outputs@),
                        e,
                    )
                    &&& *final(self) == *old(self)
                },
            },
    {
        match self.check_examples(&training_inputs, &training_outputs) {
            Err(e) => {
                return Err(e);
            },
            Ok(_) => {},
        }
        let ghost xs = views_of(training_inputs@);
        let ghost ys = views_of(training_outputs@);
        let n = training_inputs.len();
        let mut e: u16 = 0;
        while e < epochs
            invariant
                forall|x: Scalar| #[trigger] call_requires(act, (x,)),
                forall|x: Scalar| #[trigger] call_requires(deriv, (x,)),
                forall|x: Scalar, y: Scalar| #[trigger] call_requires(mulf, (x, y)),
                forall|x: Scalar, y: Scalar| #[trigger] call_requires(addf, (x, y)),
                forall|x: Scalar, y: Scalar| #[trigger] call_requires(subf, (x, y)),
                old(self).wf(),
                self.wf(),
                same_structure(*old(self), *self),
                examples_fit(*old(self), xs, ys),
                xs == views_of(training_inputs@),
                ys == views_of(training_outputs@),
                n == xs.len(),
                e <= epochs,
                train_epochs_rel(
                    act,
                    deriv,
                    two,
                    mulf,
                    addf,
                    subf,
                    *old(self),
                    xs,
                    ys,
                    e as int,
                    *self,
                ),
            decreases epochs - e,
        {
            let ghost epoch_start = *self;
            let mut j: usize = 0;
            while j < n
                invariant
                    forall|x: Scalar| #[trigger] call_requires(act, (x,)),
                    forall|x: Scalar| #[trigger] call_requires(deriv, (x,)),
                    forall|x: Scalar, y: Scalar| #[trigger] call_requires(mulf, (x, y)),
                    forall|x: Scalar, y: Scalar| #[trigger] call_requires(addf, (x, y)),
                    forall|x: Scalar, y: Scalar| #[trigger] call_requires(subf, (x, y)),
                    old(self).wf(),
                    self.wf(),
                    same_structure(*old(self), *self),
                    examples_fit(*old(self), xs, ys),
                    xs == views_of(training_inputs@),
                    ys == views_of(training_outputs@),
                    n == xs.len(),
                    j <= n,
                    train_pass_rel(
                        act,
                        deriv,
                        two,
                        mulf,
                        addf,
                        subf,
                        epoch_start,
                        xs,
                        ys,
                        j as int,
                        *self,
                    ),
                    train_epochs_rel(
                        act,
                        deriv,
                        two,
                        mulf,
                        addf,
                        subf,
                        *old(self),
                        xs,
                        ys,
                        e as int,
                        epoch_start,
                    ),
                decreases n - j,
            {
                let ghost step_start = *self;
                proof {
                    assert(xs[j as int] == training_inputs@[j as int]@);
                    assert(ys[j as int] == training_outputs@[j as int]@);
                }
                let inputs_j = clone_scalars(&training_inputs[j]);
                let p = match self.feed_forward_and_record(inputs_j, act, mulf, addf) {
                    Ok(p) => p,
                    Err(_) => unreached(),
                };
                let out = p.0;
                let rec = p.1;
                let ghost out_seq = out@;
                let labels_j = clone_scalars(&training_outputs[j]);
                let grads = match self.back_propagate(
                    out,
                    labels_j,
                    &rec,
                    two,
                    deriv,
                    mulf,
                    addf,
                    subf,
                ) {
                    Ok(g) => g,
                    Err(_) => unreached(),
                };
                let nw = grads.0;
                let nb = grads.1;
                let ghost nw_seq = nw@;
                let ghost nb_seq = nb@;
                self.update_network(nw, nb, mulf, subf);
                proof {
                    assert(backprop_rel(
                        step_start,
                        out_seq,
                        ys[j as int],
                        rec,
                        two,
                        deriv,
                        mulf,
                        addf,
                        subf,
                        nw_seq,
                        nb_seq,
                    ));
                    assert(train_step_rel(
                        act,
                        deriv,
                        two,
                        mulf,
                        addf,
                        subf,
                        step_start,
                        xs[j as int],
                        ys[j as int],
                        *self,
                    ));
                    lemma_train_pass_snoc(
                        act,
                        deriv,
                        two,
                        mulf,
                        addf,
                        subf,
                        epoch_start,
                        xs,
                        ys,
                        j as int,
                        step_start,
                        *self,
                    );
                }
                j += 1;
            }
            proof {
                assert(train_pass_rel(
                    act,
                    deriv,
                    two,
                    mulf,
                    addf,
                    subf,
                    epoch_start,
                    xs,
                    ys,
                    xs.len() as int,
                    *self,
                ));
                lemma_train_epochs_snoc(
                    act,
                    deriv,
                    two,
                    mulf,
                    addf,
                    subf,
                    *old(self),
                    xs,
                    ys,
                    e as int,
                    epoch_start,
                    *self,
                );
            }
            e += 1;
        }
        Ok(())
    }

    /// The mini-batch-stochastic training loop: each epoch shuffles the
    /// example order, then walks it in disjoint mini-batches — so each
    /// example is used exactly once per epoch, a final short batch being
    /// averaged over its own length. This is a deliberate choice: batching
    /// by overlapping sliding windows would revisit examples within one
    /// epoch and change the training dynamics. For each batch the per-example
    /// gradients are summed, with the weights untouched until the whole
    /// batch is done, and one update is applied with the averaged gradient:
    /// the learning rate divided, through `divf`, by the batch length. The
    /// example set is validated before any computation; on rejection the
    /// network is untouched.
    pub fn stochastic_train<
        FA: Fn(Scalar) -> Scalar + Copy,
        FD: Fn(Scalar) -> Scalar + Copy,
        FM: Fn(Scalar, Scalar) -> Scalar + Copy,
        FAd: Fn(Scalar, Scalar) -> Scalar + Copy,
        FS: Fn(Scalar, Scalar) -> Scalar + Copy,
        FDv: Fn(Scalar, usize) -> Scalar + Copy,
    >(
        &mut self,
        training_inputs: Vec<Vec<Scalar>>,
        training_outputs: Vec<Vec<Scalar>>,
        epochs: u16,
        mini_batch_size: usize,
        act: FA,
        deriv: FD,
        two: Scalar,
        mulf: FM,
        addf: FAd,
        subf: FS,
        divf: FDv,
    ) -> (r: Result<(), Error>)
        requires
            old(self).wf(),
            mini_batch_size >= 1,
            forall|x: Scalar| #[trigger] call_requires(act, (x,)),
            forall|x: Scalar| #[trigger] call_requires(deriv, (x,)),
            forall|x: Scalar, y: Scalar| #[trigger] call_requires(mulf, (x, y)),
            forall|x: Scalar, y: Scalar| #[trigger] call_requires(addf, (x, y)),
            forall|x: Scalar, y: Scalar| #[trigger] call_requires(subf, (x, y)),
            forall|x: Scalar, c: usize| #[trigger] call_requires(divf, (x, c)),
        ensures
            match r {
                Ok(_) => {
                    &&& examples_fit(
                        *old(self),
                        views_of(training_inputs@),
                        views_of(training_outputs@),
                    )
                    &&& final(self).wf()
                    &&& same_structure(*old(self), *final(self))
                    &&& sto_epochs_rel(
                        act,
                        deriv,
                        two,
                        mulf,
                        addf,
                        subf,
                        divf,
                        *old(self),
                        views_of(training_inputs@),
                        views_of(training_outputs@),
                        mini_batch_size as int,
                        epochs as int,
                        *final(self),
                    )
                },
                Err(e) => {
                    &&& !examples_fit(
                        *old(self),
                        views_of(training_inputs@),
                        views_of(training_outputs@),
                    )
                    &&& examples_error(
                        *old(self),
                        views_of(training_inputs@),
                        views_of(training_outputs@),
                        e,
                    )
                    &&& *final(self) == *old(self)
                },
            },
    {
        match self.check_examples(&training_inputs, &training_outputs) {
            Err(e) => {
                return Err(e);
            },
            Ok(_) => {},
        }
        let ghost xs = views_of(training_inputs@);
        let ghost ys = views_of(training_outputs@);
        let n = training_inputs.len();
        let ghost bs_int = mini_batch_size as int;
        let mut order: Vec<usize> = Vec::new();
        for i in 0..n
            invariant
                order@.len() == i,
                forall|k: int| 0 <= k < i ==> (#[trigger] order@[k]) == k,
        {
            order.push(i);
        }
        proof {
            assert(order@ =~= identity_order(n as int));
        }
        let mut e: u16 = 0;
        while e < epochs
            invariant
                forall|x: Scalar| #[trigger] call_requires(act, (x,)),
                forall|x: Scalar| #[trigger] call_requires(deriv, (x,)),
                forall|x: Scalar, y: Scalar| #[trigger] call_requires(mulf, (x, y)),
                forall|x: Scalar, y: Scalar| #[trigger] call_requires(addf, (x, y)),
                forall|x: Scalar, y: Scalar| #[trigger] call_requires(subf, (x, y)),
                forall|x: Scalar, c: usize| #[trigger] call_requires(divf, (x, c)),
                old(self).wf(),
                self.wf(),
                same_structure(*old(self), *self),
                examples_fit(*old(self), xs, ys),
                xs == views_of(training_inputs@),
                ys == views_of(training_outputs@),
                n == xs.len(),
                mini_batch_size >= 1,
                bs_int == mini_batch_size as int,
                is_order_of(order@, n as int),
                e <= epochs,
                sto_epochs_rel(
                    act,
                    deriv,
                    two,
                    mulf,
                    addf,
                    subf,
                    divf,
                    *old(self),
                    xs,
                    ys,
                    bs_int,
                    e as int,
                    *self,
                ),
            decreases epochs - e,
        {
            let ghost epoch_start = *self;
            shuffle_indices(&mut order);
            proof {
                lemma_order_bounds(order@, n as int);
            }
            let mut pos: usize = 0;
            let ghost mut kdone: int = 0;
            proof {
                if n == 0 {
                    vstd::arithmetic::div_mod::lemma_fundamental_div_mod_converse(
                        bs_int - 1,
                        bs_int,
                        0,
                        bs_int - 1,
                    );
                }
            }
            while pos < n
                invariant
                    forall|x: Scalar| #[trigger] call_requires(act, (x,)),
                    forall|x: Scalar| #[trigger] call_requires(deriv, (x,)),
                    forall|x: Scalar, y: Scalar| #[trigger] call_requires(mulf, (x, y)),
                    forall|x: Scalar, y: Scalar| #[trigger] call_requires(addf, (x, y)),
                    forall|x: Scalar, y: Scalar| #[trigger] call_requires(subf, (x, y)),
                    forall|x: Scalar, c: usize| #[trigger] call_requires(divf, (x, c)),
                    old(self).wf(),
                    self.wf(),
                    same_structure(*old(self), *self),
                    examples_fit(*old(self), xs, ys),
                    xs == views_of(training_inputs@),
                    ys == views_of(training_outputs@),
                    n == xs.len(),
                    n == training_inputs@.len(),
                    n == training_outputs@.len(),
                    mini_batch_size >= 1,
                    bs_int == mini_batch_size as int,
                    is_order_of(order@, n as int),
                    order@.len() == n,
                    forall|i: int| 0 <= i < n ==> (#[trigger] order@[i]) < n,
                    epoch_start.wf(),
                    pos <= n,
                    0 <= kdone,
                    pos < n ==> pos == kdone * bs_int,
                    pos == n ==> kdone == num_batches(n as int, bs_int),
                    sto_batches_rel(
                        act,
                        deriv,
                        two,
                        mulf,
                        addf,
                        subf,
                        divf,
                        epoch_start,
                        xs,
                        ys,
                        order@,
                        bs_int,
                        kdone,
                        *self,
                    ),
                    sto_epochs_rel(
                        act,
                        deriv,
                        two,
                        mulf,
                        addf,
                        subf,
                        divf,
                        *old(self),
                        xs,
                        ys,
                        bs_int,
                        e as int,
                        epoch_start,
                    ),
                decreases n - pos,
            {
                let ghost batch_net = *self;
                let ghost k0 = kdone;
                let end = if n - pos < mini_batch_size {
                    n
                } else {
                    pos + mini_batch_size
                };
                let ghost batch = order@.subrange(pos as int, end as int);
                proof {
                    assert((k0 + 1) * bs_int == k0 * bs_int + bs_int) by (nonlinear_arith);
                    assert(batch =~= batch_at(order@, bs_int, k0));
                }
                let zg = self.zero_gradients();
                let mut gw = zg.0;
                let mut gb = zg.1;
                let mut t: usize = pos;
                while t < end
                    invariant
                        forall|x: Scalar| #[trigger] call_requires(act, (x,)),
                        forall|x: Scalar| #[trigger] call_requires(deriv, (x,)),
                        forall|x: Scalar, y: Scalar| #[trigger] call_requires(mulf, (x, y)),
                        forall|x: Scalar, y: Scalar| #[trigger] call_requires(addf, (x, y)),
                        forall|x: Scalar, y: Scalar| #[trigger] call_requires(subf, (x, y)),
                        old(self).wf(),
                        self.wf(),
                        *self == batch_net,
                        same_structure(*old(self), *self),
                        examples_fit(*old(self), xs, ys),
                        xs == views_of(training_inputs@),
                        ys == views_of(training_outputs@),
                        n == xs.len(),
                        n == training_inputs@.len(),
                        n == training_outputs@.len(),
                        order@.len() == n,
                        forall|i: int| 0 <= i < n ==> (#[trigger] order@[i]) < n,
                        pos <= t <= end,
                        end <= n,
                        batch == order@.subrange(pos as int, end as int),
                        batch.len() == end - pos,
                        grads_match(batch_net, gw@, gb@),
                        batch_grads_rel(
                            act,
                            deriv,
                            two,
                            mulf,
                            addf,
                            subf,
                            batch_net,
                            xs,
                            ys,
                            batch,
                            t - pos,
                            gw@,
                            gb@,
                        ),
                    decreases end - t,
                {
                    let idx = order[t];
                    proof {
                        assert(order@[t as int] < n);
                        assert(xs[idx as int] == training_inputs@[idx as int]@);
                        assert(ys[idx as int] == training_outputs@[idx as int]@);
                    }
                    let inputs_i = clone_scalars(&training_inputs[idx]);
                    let p = match self.feed_forward_and_record(inputs_i, act, mulf, addf) {
                        Ok(p) => p,
                        Err(_) => unreached(),
                    };
                    let out = p.0;
                    let rec = p.1;
                    let ghost out_seq = out@;
                    let labels_i = clone_scalars(&training_outputs[idx]);
                    let grads = match self.back_propagate(
                        out,
                        labels_i,
                        &rec,
                        two,
                        deriv,
                        mulf,
                        addf,
                        subf,
                    ) {
                        Ok(g) => g,
                        Err(_) => unreached(),
                    };
                    let dw = grads.0;
                    let db = grads.1;
                    proof {
                        assert(example_grads_rel(
                            act,
                            deriv,
                            two,
                            mulf,
                            addf,
                            subf,
                            batch_net,
                            xs[idx as int],
                            ys[idx as int],
                            dw@,
                            db@,
                        ));
                    }
                    let ghost gw_prev = gw@;
                    let ghost gb_prev = gb@;
                    let acc = accumulate_grads(&gw, &gb, &dw, &db, addf);
                    gw = acc.0;
                    gb = acc.1;
                    proof {
                        assert(batch[t - pos] == order@[t as int]);
                        lemma_batch_grads_snoc(
                            act,
                            deriv,
                            two,
                            mulf,
                            addf,
                            subf,
                            batch_net,
                            xs,
                            ys,
                            batch,
                            t - pos,
                            gw_prev,
                            gb_prev,
                            dw@,
                            db@,
                            gw@,
                            gb@,
                        );
                    }
                    t += 1;
                }
                let blen = end - pos;
                let factor = divf(self.learning_rate, blen);
                let ghost gw_final = gw@;
                let ghost gb_final = gb@;
                self.apply_gradients(gw, gb, factor, mulf, subf);
                proof {
                    assert(call_ensures(divf, (batch_net.learning_rate, batch.len() as usize), factor));
                    assert(batch_step_rel(
                        act,
                        deriv,
                        two,
                        mulf,
                        addf,
                        subf,
                        divf,
                        batch_net,
                        xs,
                        ys,
                        batch,
                        *self,
                    ));
                    lemma_sto_batches_snoc(
                        act,
                        deriv,
                        two,
                        mulf,
                        addf,
                        subf,
                        divf,
                        epoch_start,
                        xs,
                        ys,
                        order@,
                        bs_int,
                        k0,
                        batch_net,
                        *self,
                    );
                    kdone = k0 + 1;
                    if end == n {
                        assert(n as int + bs_int - 1 == (k0 + 1) * bs_int + (n - pos - 1));
                        vstd::arithmetic::div_mod::lemma_fundamental_div_mod_converse(
                            n as int + bs_int - 1,
                            bs_int,
                            k0 + 1,
                            n - pos - 1,
                        );
                        assert(num_batches(n as int, bs_int) == k0 + 1);
                    }
                }
                pos = end;
            }
            proof {
                assert(sto_epoch_rel(
                    act,
                    deriv,
                    two,
                    mulf,
                    addf,
                    subf,
                    divf,
                    epoch_start,
                    xs,
                    ys,
                    order@,
                    bs_int,
                    *self,
                ));
                lemma_sto_epochs_snoc(
                    act,
                    deriv,
                    two,
                    mulf,
                    addf,
                    subf,
                    divf,
                    *old(self),
                    xs,
                    ys,
                    order@,
                    bs_int,
                    e as int,
                    epoch_start,
                    *self,
                );
            }
            e += 1;
        }
        Ok(())
    }

    /// Score the network on a labelled example set: run non-recording
    /// forward inference on each input, round every output entry through
    /// `roundf`, compare the rounded vector entry by entry, through `eqf`,
    /// with the expected vector, and count the exact matches. An expected
    /// vector of the wrong length simply never matches; it is not an error.
    /// Fails with `InputArityMismatch`, and only with it, exactly when the
    /// two sets have different lengths or some input does not fit the first
    /// layer.
    pub fn test<
        FA: Fn(Scalar) -> Scalar + Copy,
        FM: Fn(Scalar, Scalar) -> Scalar + Copy,
        FAd: Fn(Scalar, Scalar) -> Scalar + Copy,
        FR: Fn(Scalar) -> Scalar + Copy,
        FE: Fn(Scalar, Scalar) -> bool + Copy,
    >(
        &self,
        inputs_set: Vec<Vec<Scalar>>,
        expected_outputs_set: Vec<Vec<Scalar>>,
        act: FA,
        mulf: FM,
        addf: FAd,
        roundf: FR,
        eqf: FE,
    ) -> (r: Result<usize, Error>)
        requires
            self.wf(),
            forall|x: Scalar| #[trigger] call_requires(act, (x,)),
            forall|x: Scalar, y: Scalar| #[trigger] call_requires(mulf, (x, y)),
            forall|x: Scalar, y: Scalar| #[trigger] call_requires(addf, (x, y)),
            forall|x: Scalar| #[trigger] call_requires(roundf, (x,)),
            forall|x: Scalar, y: Scalar| #[trigger] call_requires(eqf, (x, y)),
        ensures
            match r {
                Ok(count) => {
                    &&& inputs_set@.len() == expected_outputs_set@.len()
                    &&& forall|j: int|
                        0 <= j < inputs_set@.len() ==> (#[trigger] views_of(inputs_set@)[j]).len()
                            == self.layers@[0]
                    &&& count <= inputs_set@.len()
                    &&& test_count_rel(
                        act,
                        mulf,
                        addf,
                        roundf,
                        eqf,
                        *self,
                        views_of(inputs_set@),
                        views_of(expected_outputs_set@),
                        inputs_set@.len() as int,
                        count as int,
                    )
                },
                Err(e) => {
                    &&& {
                        ||| inputs_set@.len() != expected_outputs_set@.len()
                        ||| exists|j: int|
                            0 <= j < inputs_set@.len() && (#[trigger] views_of(inputs_set@)[j]).len()
                                != self.layers@[0]
                    }
                    &&& (if inputs_set@.len() != expected_outputs_set@.len() {
                        e == (Error::InputArityMismatch {
                            expected: inputs_set@.len() as usize,
                            found: expected_outputs_set@.len() as usize,
                        })
                    } else {
                        exists|j: int|
                            {
                                &&& 0 <= j < inputs_set@.len()
                                &&& (#[trigger] views_of(inputs_set@)[j]).len() != self.layers@[0]
                                &&& forall|k: int|
                                    0 <= k < j ==> (#[trigger] views_of(inputs_set@)[k]).len()
                                        == self.layers@[0]
                                &&& e == (Error::InputArityMismatch {
                                    expected: self.layers@[0],
                                    found: views_of(inputs_set@)[j].len() as usize,
                                })
                            }
                    })
                },
            },
    {
        if inputs_set.len() != expected_outputs_set.len() {
            return Err(
                Error::InputArityMismatch {
                    expected: inputs_set.len(),
                    found: expected_outputs_set.len(),
                },
            );
        }
        let n = inputs_set.len();
        let n_in = self.layers[0];
        for j in 0..n
            invariant
                self.wf(),
                n == inputs_set@.len(),
                inputs_set@.len() == expected_outputs_set@.len(),
                n_in == self.layers@[0],
                forall|k: int| 0 <= k < j ==> (#[trigger] views_of(inputs_set@)[k]).len() == n_in,
        {
            if inputs_set[j].len() != n_in {
                let flen = inputs_set[j].len();
                proof {
                    assert(views_of(inputs_set@)[j as int] == inputs_set@[j as int]@);
                    assert(exists|jj: int|
                        0 <= jj < inputs_set@.len() && (#[trigger] views_of(inputs_set@)[jj]).len()
                            != self.layers@[0]);
                    assert(exists|jj: int|
                        {
                            &&& 0 <= jj < inputs_set@.len()
                            &&& (#[trigger] views_of(inputs_set@)[jj]).len() != self.layers@[0]
                            &&& forall|kk: int|
                                0 <= kk < jj ==> (#[trigger] views_of(inputs_set@)[kk]).len()
                                    == self.layers@[0]
                            &&& (Error::InputArityMismatch { expected: n_in, found: flen })
                                == (Error::InputArityMismatch {
                                expected: self.layers@[0],
                                found: views_of(inputs_set@)[jj].len() as usize,
                            })
                        });
                }
                return Err(Error::InputArityMismatch { expected: n_in, found: flen });
            }
            proof {
                assert(views_of(inputs_set@)[j as int] == inputs_set@[j as int]@);
            }
        }
        let ghost xs = views_of(inputs_set@);
        let ghost ys = views_of(expected_outputs_set@);
        let mut passes: usize = 0;
        let mut i: usize = 0;
        while i < n
            invariant
                self.wf(),
                forall|x: Scalar| #[trigger] call_requires(act, (x,)),
                forall|x: Scalar, y: Scalar| #[trigger] call_requires(mulf, (x, y)),
                forall|x: Scalar, y: Scalar| #[trigger] call_requires(addf, (x, y)),
                forall|x: Scalar| #[trigger] call_requires(roundf, (x,)),
                forall|x: Scalar, y: Scalar| #[trigger] call_requires(eqf, (x, y)),
                n == inputs_set@.len(),
                n == expected_outputs_set@.len(),
                n_in == self.layers@[0],
                xs == views_of(inputs_set@),
                ys == views_of(expected_outputs_set@),
                forall|k: int| 0 <= k < n ==> (#[trigger] xs[k]).len() == n_in,
                i <= n,
                passes <= i,
                test_count_rel(
                    act,
                    mulf,
                    addf,
                    roundf,
                    eqf,
                    *self,
                    xs,
                    ys,
                    i as int,
                    passes as int,
                ),
            decreases n - i,
        {
            proof {
                assert(xs[i as int] == inputs_set@[i as int]@);
                assert(ys[i as int] == expected_outputs_set@[i as int]@);
            }
            let results = match self.feed_forward(
                clone_scalars(&inputs_set[i]),
                act,
                mulf,
                addf,
            ) {
                Ok(v) => v,
                Err(_) => unreached(),
            };
            let ghost out_seq = results@;
            let mut rounded: Vec<Scalar> = Vec::new();
            for k in 0..results.len()
                invariant
                    forall|x: Scalar| #[trigger] call_requires(roundf, (x,)),
                    rounded@.len() == k,
                    forall|q: int|
                        0 <= q < k ==> call_ensures(roundf, (results@[q],), #[trigger] rounded@[q]),
            {
                rounded.push(roundf(results[k]));
            }
            let label = &expected_outputs_set[i];
            let pass: bool;
            let ghost mut flags: Seq<bool> = Seq::empty();
            if rounded.len() != label.len() {
                pass = false;
            } else {
                let mut all: bool = true;
                let mut k: usize = 0;
                while k < rounded.len()
                    invariant
                        forall|x: Scalar, y: Scalar| #[trigger] call_requires(eqf, (x, y)),
                        k <= rounded@.len(),
                        rounded@.len() == label@.len(),
                        flags.len() == k,
                        forall|q: int|
                            0 <= q < k ==> call_ensures(
                                eqf,
                                (rounded@[q], label@[q]),
                                #[trigger] flags[q],
                            ),
                        all ==> (forall|q: int| 0 <= q < k ==> flags[q]),
                        !all ==> (exists|q: int| 0 <= q < k && !(#[trigger] flags[q])),
                    decreases rounded@.len() - k,
                {
                    let b = eqf(rounded[k], label[k]);
                    let prev_all = all;
                    all = all && b;
                    proof {
                        let ghost flags0 = flags;
                        flags = flags.push(b);
                        assert(forall|q: int|
                            0 <= q < flags0.len() ==> #[trigger] flags[q] == flags0[q]);
                        assert(flags[k as int] == b);
                        if !all {
                            if !prev_all {
                                let q = choose|q: int| 0 <= q < flags0.len() && !flags0[q];
                                assert(!flags[q]);
                            } else {
                                assert(!flags[k as int]);
                            }
                        }
                    }
                    k += 1;
                }
                pass = all;
            }
            if pass {
                passes += 1;
            }
            proof {
                assert(round_seq_rel(roundf, out_seq, rounded@));
                if rounded@.len() == ys[i as int].len() {
                    assert(eq_flags_rel(eqf, rounded@, ys[i as int], flags));
                    if !pass {
                        let q = choose|q: int| 0 <= q < flags.len() && !flags[q];
                        assert(!(forall|qq: int| 0 <= qq < flags.len() ==> flags[qq]));
                    }
                    assert(pass == (forall|q: int| 0 <= q < flags.len() ==> flags[q]));
                }
                assert(example_pass_rel(
                    act,
                    mulf,
                    addf,
                    roundf,
                    eqf,
                    *self,
                    xs[i as int],
                    ys[i as int],
                    pass,
                ));
                lemma_test_count_snoc(
                    act,
                    mulf,
                    addf,
                    roundf,
                    eqf,
                    *self,
                    xs,
                    ys,
                    i as int,
                    (passes - (if pass {
                        1int
                    } else {
                        0int
                    })) as int,
                    pass,
                );
            }
            i += 1;
        }
        Ok(passes)
    }

    /// Zero-filled gradient lists shaped like the weights and biases.
    fn zero_gradients(&self) -> (r: (Vec<Matrix>, Vec<Matrix>))
        requires
            self.wf(),
        ensures
            zero_grads(*self, r.0@, r.1@),
    {
        let mut gw: Vec<Matrix> = Vec::new();
        let mut gb: Vec<Matrix> = Vec::new();
        let count = self.weights.len();
        for l in 0..count
            invariant
                self.wf(),
                count == self.weights@.len(),
                gw@.len() == l,
                gb@.len() == l,
                forall|k: int|
                    0 <= k < l ==> {
                        &&& (#[trigger] gw@[k]).wf()
                        &&& same_shape(gw@[k], self.weights@[k])
                    },
                forall|k: int|
                    0 <= k < l ==> {
                        &&& (#[trigger] gb@[k]).wf()
                        &&& same_shape(gb@[k], self.biases@[k])
                    },
                forall|k: int, i: int, j: int|
                    0 <= k < l && 0 <= i < gw@[k].rows && 0 <= j < gw@[k].cols ==> (
                    #[trigger] gw@[k].at(i, j)) == 0,
                forall|k: int, i: int, j: int|
                    0 <= k < l && 0 <= i < gb@[k].rows && 0 <= j < gb@[k].cols ==> (
                    #[trigger] gb@[k].at(i, j)) == 0,
        {
            gw.push(Matrix::zeros(self.weights[l].rows, self.weights[l].cols));
            gb.push(Matrix::zeros(self.biases[l].rows, 1));
        }
        (gw, gb)
    }

    /// Apply one whole gradient application scaled by the word `factor`:
    /// every weight and bias descends by the matching gradient scaled with
    /// `factor`. The topology, the activation tag and the learning rate are
    /// untouched.
    fn apply_gradients<
        FM: Fn(Scalar, Scalar) -> Scalar + Copy,
        FS: Fn(Scalar, Scalar) -> Scalar + Copy,
    >(&mut self, nabla_w: Vec<Matrix>, nabla_b: Vec<Matrix>, factor: Scalar, mulf: FM, subf: FS)
        requires
            old(self).wf(),
            grads_match(*old(self), nabla_w@, nabla_b@),
            forall|x: Scalar, y: Scalar| #[trigger] call_requires(mulf, (x, y)),
            forall|x: Scalar, y: Scalar| #[trigger] call_requires(subf, (x, y)),
        ensures
            final(self).wf(),
            scaled_update_rel(
                mulf,
                subf,
                factor,
                *old(self),
                nabla_w@,
                nabla_b@,
                *final(self),
            ),
    {
        let count = self.weights.len();
        let lr = factor;
        let mut l: usize = 0;
        while l < count
            invariant
                old(self).wf(),
                grads_match(*old(self), nabla_w@, nabla_b@),
                forall|x: Scalar, y: Scalar| #[trigger] call_requires(mulf, (x, y)),
                forall|x: Scalar, y: Scalar| #[trigger] call_requires(subf, (x, y)),
                l <= count,
                count == old(self).weights@.len(),
                lr == factor,
                self.layers@ == old(self).layers@,
                self.activation_function == old(self).activation_function,
                self.learning_rate == old(self).learning_rate,
                self.weights@.len() == old(self).weights@.len(),
                self.biases@.len() == old(self).biases@.len(),
                forall|k: int|
                    l <= k < count ==> #[trigger] self.weights@[k] == old(self).weights@[k],
                forall|k: int|
                    l <= k < count ==> #[trigger] self.biases@[k] == old(self).biases@[k],
                forall|k: int|
                    0 <= k < l ==> descend_rel(
                        mulf,
                        subf,
                        lr,
                        old(self).weights@[k],
                        nabla_w@[k],
                        #[trigger] self.weights@[k],
                    ),
                forall|k: int|
                    0 <= k < l ==> descend_rel(
                        mulf,
                        subf,
                        lr,
                        old(self).biases@[k],
                        nabla_b@[k],
                        #[trigger] self.biases@[k],
                    ),
                self.wf(),
            decreases count - l,
        {
            let scaled_w = (&nabla_w[l]).scalar_multiply(lr, mulf);
            let new_w = match (&self.weights[l]).subtract(&scaled_w, subf) {
                Ok(m) => m,
                Err(_) => unreached(),
            };
            self.weights.set(l, new_w);
            let scaled_b = (&nabla_b[l]).scalar_multiply(lr, mulf);
            let new_b = match (&self.biases[l]).subtract(&scaled_b, subf) {
                Ok(m) => m,
                Err(_) => unreached(),
            };
            self.biases.set(l, new_b);
            proof {
                assert(scale_rel(mulf, lr, nabla_w@[l as int], scaled_w));
                assert(descend_rel(
                    mulf,
                    subf,
                    lr,
                    old(self).weights@[l as int],
                    nabla_w@[l as int],
                    self.weights@[l as int],
                ));
                assert(scale_rel(mulf, lr, nabla_b@[l as int], scaled_b));
                assert(descend_rel(
                    mulf,
                    subf,
                    lr,
                    old(self).biases@[l as int],
                    nabla_b@[l as int],
                    self.biases@[l as int],
                ));
            }
            l += 1;
        }
    }

    /// Apply one whole gradient step: every weight and bias descends by the
    /// matching gradient scaled with the learning rate. The topology, the
    /// activation tag and the learning rate are untouched.
    pub fn update_network<
        FM: Fn(Scalar, Scalar) -> Scalar + Copy,
        FS: Fn(Scalar, Scalar) -> Scalar + Copy,
    >(&mut self, nabla_w: Vec<Matrix>, nabla_b: Vec<Matrix>, mulf: FM, subf: FS)
        requires
            old(self).wf(),
            grads_match(*old(self), nabla_w@, nabla_b@),
            forall|x: Scalar, y: Scalar| #[trigger] call_requires(mulf, (x, y)),
            forall|x: Scalar, y: Scalar| #[trigger] call_requires(subf, (x, y)),
        ensures
            final(self).wf(),
            scaled_update_rel(
                mulf,
                subf,
                old(self).learning_rate,
                *old(self),
                nabla_w@,
                nabla_b@,
                *final(self),
            ),
    {
        let lr = self.learning_rate;
        self.apply_gradients(nabla_w, nabla_b, lr, mulf, subf);
    }
}

} // verus!
