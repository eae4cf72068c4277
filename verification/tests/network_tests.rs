use neuralnetwork::activation::ActivationFunction;
use neuralnetwork::error::Error;
use neuralnetwork::matrix::Matrix;
use neuralnetwork::network::Network;

fn add_op(a: u32, b: u32) -> u32 {
    (f32::from_bits(a) + f32::from_bits(b)).to_bits()
}

fn sub_op(a: u32, b: u32) -> u32 {
    (f32::from_bits(a) - f32::from_bits(b)).to_bits()
}

fn mul_op(a: u32, b: u32) -> u32 {
    (f32::from_bits(a) * f32::from_bits(b)).to_bits()
}

fn ident_op(x: u32) -> u32 {
    x
}

fn one_op(_x: u32) -> u32 {
    1.0f32.to_bits()
}

fn round_op(x: u32) -> u32 {
    f32::from_bits(x).round().to_bits()
}

fn eq_op(a: u32, b: u32) -> bool {
    f32::from_bits(a) == f32::from_bits(b)
}

fn unit_init(w: u32) -> u32 {
    let unit = (w as f64) / (u32::MAX as f64 + 1.0);
    ((unit * 2.0 - 1.0) as f32).to_bits()
}

fn from_f32(rows: &[&[f32]]) -> Matrix {
    let data: Vec<Vec<u32>> = rows
        .iter()
        .map(|r| r.iter().map(|x| x.to_bits()).collect())
        .collect();
    Matrix::from_rows(data).unwrap()
}

fn bits_vec(xs: &[f32]) -> Vec<u32> {
    xs.iter().map(|x| x.to_bits()).collect()
}

fn floats_vec(xs: &[u32]) -> Vec<f32> {
    xs.iter().map(|x| f32::from_bits(*x)).collect()
}

#[test]
fn new_rejects_short_topology() {
    let r = Network::new(vec![5], ActivationFunction::Sigmoid, 1.0f32.to_bits(), unit_init);
    assert_eq!(r.err(), Some(Error::InvalidTopology { layer_count: 1 }));
}

#[test]
fn new_builds_matching_shapes() {
    let n = Network::new(
        vec![2, 3, 1],
        ActivationFunction::Sigmoid,
        0.5f32.to_bits(),
        unit_init,
    )
    .unwrap();
    assert_eq!(n.layers, vec![2, 3, 1]);
    assert_eq!(n.weights.len(), 2);
    assert_eq!(n.biases.len(), 2);
    assert_eq!((n.weights[0].rows, n.weights[0].cols), (3, 2));
    assert_eq!((n.weights[1].rows, n.weights[1].cols), (1, 3));
    assert_eq!((n.biases[0].rows, n.biases[0].cols), (3, 1));
    assert_eq!((n.biases[1].rows, n.biases[1].cols), (1, 1));
    assert_eq!(n.activation_function, ActivationFunction::Sigmoid);
    assert_eq!(f32::from_bits(n.learning_rate), 0.5);
    for w in n.weights.iter().chain(n.biases.iter()) {
        for row in &w.data {
            for &v in row {
                let x = f32::from_bits(v);
                assert!((-1.0..1.0).contains(&x));
            }
        }
    }
}

#[test]
fn from_parts_rejects_wrong_list_length() {
    let r = Network::from_parts(
        vec![2, 1],
        vec![],
        vec![],
        ActivationFunction::Relu,
        1.0f32.to_bits(),
    );
    assert_eq!(r.err(), Some(Error::InvalidTopology { layer_count: 2 }));
}

#[test]
fn from_parts_rejects_wrong_weight_shape() {
    let r = Network::from_parts(
        vec![2, 1],
        vec![Matrix::zeros(2, 2)],
        vec![Matrix::zeros(1, 1)],
        ActivationFunction::Relu,
        1.0f32.to_bits(),
    );
    assert_eq!(
        r.err(),
        Some(Error::ShapeMismatch {
            left_rows: 1,
            left_cols: 2,
            right_rows: 2,
            right_cols: 2,
        })
    );
}

#[test]
fn from_parts_rejects_wrong_bias_shape() {
    let r = Network::from_parts(
        vec![2, 1],
        vec![Matrix::zeros(1, 2)],
        vec![Matrix::zeros(2, 1)],
        ActivationFunction::Relu,
        1.0f32.to_bits(),
    );
    assert_eq!(
        r.err(),
        Some(Error::ShapeMismatch {
            left_rows: 1,
            left_cols: 1,
            right_rows: 2,
            right_cols: 1,
        })
    );
}

#[test]
fn from_parts_accepts_consistent_parts() {
    let n = Network::from_parts(
        vec![2, 1],
        vec![from_f32(&[&[0.5, -0.5]])],
        vec![from_f32(&[&[0.25]])],
        ActivationFunction::Relu,
        1.0f32.to_bits(),
    )
    .unwrap();
    assert_eq!(n.layers, vec![2, 1]);
    assert_eq!(n.weights[0].data, from_f32(&[&[0.5, -0.5]]).data);
}

#[test]
fn feed_forward_rejects_wrong_input_arity() {
    let n = Network::from_parts(
        vec![2, 1],
        vec![from_f32(&[&[0.5, -0.5]])],
        vec![from_f32(&[&[0.25]])],
        ActivationFunction::Relu,
        1.0f32.to_bits(),
    )
    .unwrap();
    let r = n.feed_forward(bits_vec(&[1.0, 2.0, 3.0]), ident_op, mul_op, add_op);
    assert_eq!(
        r.err(),
        Some(Error::InputArityMismatch { expected: 2, found: 3 })
    );
}

#[test]
fn feed_forward_computes_affine_map_under_identity_activation() {
    let n = Network::from_parts(
        vec![2, 2],
        vec![from_f32(&[&[1.0, 2.0], &[0.5, -1.0]])],
        vec![from_f32(&[&[0.25], &[0.5]])],
        ActivationFunction::Relu,
        1.0f32.to_bits(),
    )
    .unwrap();
    let out = n
        .feed_forward(bits_vec(&[1.0, 2.0]), ident_op, mul_op, add_op)
        .unwrap();
    assert_eq!(floats_vec(&out), vec![5.25, -1.0]);
}

#[test]
fn feed_forward_and_record_keeps_full_history() {
    let n = Network::from_parts(
        vec![2, 2],
        vec![from_f32(&[&[1.0, 2.0], &[0.5, -1.0]])],
        vec![from_f32(&[&[0.25], &[0.5]])],
        ActivationFunction::Relu,
        1.0f32.to_bits(),
    )
    .unwrap();
    let (out, rec) = n
        .feed_forward_and_record(bits_vec(&[1.0, 2.0]), ident_op, mul_op, add_op)
        .unwrap();
    assert_eq!(rec.activations.len(), 2);
    assert_eq!(rec.preactivations.len(), 1);
    // The input column comes first.
    assert_eq!(rec.activations[0].data, vec![vec![1.0f32.to_bits()], vec![2.0f32.to_bits()]]);
    // Under the identity activation the pre-activation equals the output.
    assert_eq!(rec.preactivations[0].data, rec.activations[1].data);
    assert_eq!(out, rec.activations[1].col(0));
    assert_eq!(floats_vec(&out), vec![5.25, -1.0]);
}

#[test]
fn back_propagate_rejects_wrong_expected_arity() {
    let n = Network::from_parts(
        vec![1, 1],
        vec![from_f32(&[&[0.5]])],
        vec![from_f32(&[&[0.1]])],
        ActivationFunction::Relu,
        1.0f32.to_bits(),
    )
    .unwrap();
    let (out, rec) = n
        .feed_forward_and_record(bits_vec(&[2.0]), ident_op, mul_op, add_op)
        .unwrap();
    let r = n.back_propagate(
        out,
        bits_vec(&[0.5, 0.5]),
        &rec,
        2.0f32.to_bits(),
        one_op,
        mul_op,
        add_op,
        sub_op,
    );
    assert_eq!(
        r.err(),
        Some(Error::InputArityMismatch { expected: 1, found: 2 })
    );
}

#[test]
fn back_propagate_computes_output_delta() {
    // One layer transition, identity activation with constant derivative 1:
    // the bias gradient is 2 * (output - expected) and the weight gradient
    // multiplies it by the input.
    let n = Network::from_parts(
        vec![1, 1],
        vec![from_f32(&[&[0.5]])],
        vec![from_f32(&[&[0.1]])],
        ActivationFunction::Relu,
        1.0f32.to_bits(),
    )
    .unwrap();
    let (out, rec) = n
        .feed_forward_and_record(bits_vec(&[2.0]), ident_op, mul_op, add_op)
        .unwrap();
    let o = 0.5f32 * 2.0 + 0.1;
    assert_eq!(floats_vec(&out), vec![o]);
    let (nw, nb) = n
        .back_propagate(
            out,
            bits_vec(&[0.5]),
            &rec,
            2.0f32.to_bits(),
            one_op,
            mul_op,
            add_op,
            sub_op,
        )
        .unwrap();
    let delta = 2.0f32 * (o - 0.5) * 1.0;
    assert_eq!(nb[0].data, vec![vec![delta.to_bits()]]);
    assert_eq!(nw[0].data, vec![vec![(delta * 2.0).to_bits()]]);
}

#[test]
fn update_network_descends_by_scaled_gradients() {
    let mut n = Network::from_parts(
        vec![1, 1],
        vec![from_f32(&[&[0.5]])],
        vec![from_f32(&[&[0.1]])],
        ActivationFunction::Relu,
        0.25f32.to_bits(),
    )
    .unwrap();
    n.update_network(
        vec![from_f32(&[&[2.0]])],
        vec![from_f32(&[&[-1.0]])],
        mul_op,
        sub_op,
    );
    let w = 0.5f32 - 0.25 * 2.0;
    let b = 0.1f32 - 0.25 * -1.0;
    assert_eq!(n.weights[0].data, vec![vec![w.to_bits()]]);
    assert_eq!(n.biases[0].data, vec![vec![b.to_bits()]]);
}

#[test]
fn train_rejects_mismatched_example_sets() {
    let mut n = Network::from_parts(
        vec![1, 1],
        vec![from_f32(&[&[0.5]])],
        vec![from_f32(&[&[0.1]])],
        ActivationFunction::Relu,
        1.0f32.to_bits(),
    )
    .unwrap();
    let before = n.weights[0].data.clone();
    let r = n.train(
        vec![bits_vec(&[1.0]), bits_vec(&[2.0])],
        vec![bits_vec(&[1.0])],
        3,
        ident_op,
        one_op,
        2.0f32.to_bits(),
        mul_op,
        add_op,
        sub_op,
    );
    assert_eq!(
        r.err(),
        Some(Error::InputArityMismatch { expected: 2, found: 1 })
    );
    assert_eq!(n.weights[0].data, before);
}

#[test]
fn train_rejects_ill_sized_input_before_any_update() {
    let mut n = Network::from_parts(
        vec![1, 1],
        vec![from_f32(&[&[0.5]])],
        vec![from_f32(&[&[0.1]])],
        ActivationFunction::Relu,
        1.0f32.to_bits(),
    )
    .unwrap();
    let before = n.weights[0].data.clone();
    let r = n.train(
        vec![bits_vec(&[1.0]), bits_vec(&[2.0, 3.0])],
        vec![bits_vec(&[1.0]), bits_vec(&[0.0])],
        3,
        ident_op,
        one_op,
        2.0f32.to_bits(),
        mul_op,
        add_op,
        sub_op,
    );
    assert_eq!(
        r.err(),
        Some(Error::InputArityMismatch { expected: 1, found: 2 })
    );
    assert_eq!(n.weights[0].data, before);
}

#[test]
fn train_single_example_matches_manual_step() {
    let build = || {
        Network::from_parts(
            vec![2, 2, 1],
            vec![
                from_f32(&[&[0.4, -0.3], &[0.25, 0.6]]),
                from_f32(&[&[0.5, -0.45]]),
            ],
            vec![from_f32(&[&[0.1], &[-0.15]]), from_f32(&[&[0.2]])],
            ActivationFunction::Relu,
            1.0f32.to_bits(),
        )
        .unwrap()
    };
    let mut trained = build();
    trained
        .train(
            vec![bits_vec(&[0.3, -0.2])],
            vec![bits_vec(&[0.7])],
            1,
            ident_op,
            one_op,
            2.0f32.to_bits(),
            mul_op,
            add_op,
            sub_op,
        )
        .unwrap();
    let mut manual = build();
    let (out, rec) = manual
        .feed_forward_and_record(bits_vec(&[0.3, -0.2]), ident_op, mul_op, add_op)
        .unwrap();
    let (nw, nb) = manual
        .back_propagate(
            out,
            bits_vec(&[0.7]),
            &rec,
            2.0f32.to_bits(),
            one_op,
            mul_op,
            add_op,
            sub_op,
        )
        .unwrap();
    manual.update_network(nw, nb, mul_op, sub_op);
    for l in 0..2 {
        assert_eq!(trained.weights[l].data, manual.weights[l].data);
        assert_eq!(trained.biases[l].data, manual.biases[l].data);
    }
}

#[test]
fn train_with_no_examples_or_no_epochs_changes_nothing() {
    let build = || {
        Network::from_parts(
            vec![1, 1],
            vec![from_f32(&[&[0.5]])],
            vec![from_f32(&[&[0.1]])],
            ActivationFunction::Relu,
            1.0f32.to_bits(),
        )
        .unwrap()
    };
    let mut idle = build();
    idle.train(
        vec![],
        vec![],
        5,
        ident_op,
        one_op,
        2.0f32.to_bits(),
        mul_op,
        add_op,
        sub_op,
    )
    .unwrap();
    assert_eq!(idle.weights[0].data, build().weights[0].data);
    let mut lazy = build();
    lazy.train(
        vec![bits_vec(&[1.0])],
        vec![bits_vec(&[0.0])],
        0,
        ident_op,
        one_op,
        2.0f32.to_bits(),
        mul_op,
        add_op,
        sub_op,
    )
    .unwrap();
    assert_eq!(lazy.weights[0].data, build().weights[0].data);
    let mut sto = build();
    sto.stochastic_train(
        vec![],
        vec![],
        5,
        2,
        ident_op,
        one_op,
        2.0f32.to_bits(),
        mul_op,
        add_op,
        sub_op,
        |x: u32, c: usize| (f32::from_bits(x) / c as f32).to_bits(),
    )
    .unwrap();
    assert_eq!(sto.weights[0].data, build().weights[0].data);
}

#[test]
fn test_counts_exact_rounded_matches() {
    let n = Network::from_parts(
        vec![1, 1],
        vec![from_f32(&[&[1.0]])],
        vec![from_f32(&[&[0.0]])],
        ActivationFunction::Relu,
        1.0f32.to_bits(),
    )
    .unwrap();
    let score = n
        .test(
            vec![bits_vec(&[1.0]), bits_vec(&[2.0]), bits_vec(&[2.6])],
            vec![bits_vec(&[1.0]), bits_vec(&[3.0]), bits_vec(&[3.0])],
            ident_op,
            mul_op,
            add_op,
            round_op,
            eq_op,
        )
        .unwrap();
    // 1.0 rounds to 1.0: match; 2.0 rounds to 2.0, not 3.0; 2.6 rounds to 3.0: match.
    assert_eq!(score, 2);
}

#[test]
fn test_never_matches_labels_of_wrong_arity() {
    let n = Network::from_parts(
        vec![1, 1],
        vec![from_f32(&[&[1.0]])],
        vec![from_f32(&[&[0.0]])],
        ActivationFunction::Relu,
        1.0f32.to_bits(),
    )
    .unwrap();
    let score = n
        .test(
            vec![bits_vec(&[1.0])],
            vec![bits_vec(&[1.0, 1.0])],
            ident_op,
            mul_op,
            add_op,
            round_op,
            eq_op,
        )
        .unwrap();
    assert_eq!(score, 0);
}

#[test]
fn test_rejects_mismatched_set_lengths() {
    let n = Network::from_parts(
        vec![1, 1],
        vec![from_f32(&[&[1.0]])],
        vec![from_f32(&[&[0.0]])],
        ActivationFunction::Relu,
        1.0f32.to_bits(),
    )
    .unwrap();
    let r = n.test(
        vec![bits_vec(&[1.0])],
        vec![],
        ident_op,
        mul_op,
        add_op,
        round_op,
        eq_op,
    );
    assert_eq!(
        r.err(),
        Some(Error::InputArityMismatch { expected: 1, found: 0 })
    );
}
