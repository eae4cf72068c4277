use neuralnetwork::activation::ActivationFunction;
use neuralnetwork::matrix::Matrix;
use neuralnetwork::network::Network;

fn add_op(a: u32, b: u32) -> u32 {
    (f32::from_bits(a) + f32::from_bits(b)).to_bits()
}

fn sub_op(a: u32, b: u32) -> u32 {
    (f32::from_bits(a) - f32::from_bits(b)).to_bits()
}

fn mul_op(a: u32, b: u32) -> u32 {
    (f32::from_bits(a) * f32::from_bits(b)).to_bits()
}

fn div_count_op(x: u32, count: usize) -> u32 {
    (f32::from_bits(x) / count as f32).to_bits()
}

fn sigmoid_f32(x: f32) -> f32 {
    1.0 / (1.0 + std::f64::consts::E.powf(-(x as f64)) as f32)
}

fn sigmoid_op(x: u32) -> u32 {
    sigmoid_f32(f32::from_bits(x)).to_bits()
}

fn sigmoid_deriv_op(x: u32) -> u32 {
    let s = sigmoid_f32(f32::from_bits(x));
    (s * (1.0 - s)).to_bits()
}

fn round_op(x: u32) -> u32 {
    f32::from_bits(x).round().to_bits()
}

fn eq_op(a: u32, b: u32) -> bool {
    f32::from_bits(a) == f32::from_bits(b)
}

fn from_f32(rows: &[&[f32]]) -> Matrix {
    let data: Vec<Vec<u32>> = rows
        .iter()
        .map(|r| r.iter().map(|x| x.to_bits()).collect())
        .collect();
    Matrix::from_rows(data).unwrap()
}

fn bits_vec(xs: &[f32]) -> Vec<u32> {
    xs.iter().map(|x| x.to_bits()).collect()
}

fn small_network() -> Network {
    Network::from_parts(
        vec![2, 2, 1],
        vec![
            from_f32(&[&[0.4, -0.3], &[0.25, 0.6]]),
            from_f32(&[&[0.5, -0.45]]),
        ],
        vec![from_f32(&[&[0.1], &[-0.15]]), from_f32(&[&[0.2]])],
        ActivationFunction::Sigmoid,
        1.0f32.to_bits(),
    )
    .unwrap()
}

fn squared_error_loss(n: &Network, input: &[f32], expected: &[f32]) -> f64 {
    let out = n
        .feed_forward(bits_vec(input), sigmoid_op, mul_op, add_op)
        .unwrap();
    let mut loss = 0.0f64;
    for (o, e) in out.iter().zip(expected.iter()) {
        let d = f32::from_bits(*o) as f64 - *e as f64;
        loss += d * d;
    }
    loss
}

fn perturbed(base: &Network, layer: usize, i: usize, j: usize, bias: bool, eps: f32) -> Network {
    let mut weights = base.weights.clone();
    let mut biases = base.biases.clone();
    let target = if bias {
        &mut biases[layer]
    } else {
        &mut weights[layer]
    };
    let v = f32::from_bits(target.data[i][j]);
    target.data[i][j] = (v + eps).to_bits();
    Network::from_parts(
        base.layers.clone(),
        weights,
        biases,
        base.activation_function,
        base.learning_rate,
    )
    .unwrap()
}

#[test]
fn analytic_gradient_matches_finite_differences() {
    let n = small_network();
    let input = [0.3f32, -0.2];
    let expected = [0.7f32];
    let (out, rec) = n
        .feed_forward_and_record(bits_vec(&input), sigmoid_op, mul_op, add_op)
        .unwrap();
    let (nw, nb) = n
        .back_propagate(
            out,
            bits_vec(&expected),
            &rec,
            2.0f32.to_bits(),
            sigmoid_deriv_op,
            mul_op,
            add_op,
            sub_op,
        )
        .unwrap();
    let eps = 0.02f32;
    for layer in 0..2 {
        for bias in [false, true] {
            let target = if bias { &n.biases[layer] } else { &n.weights[layer] };
            for i in 0..target.rows {
                for j in 0..target.cols {
                    let plus = perturbed(&n, layer, i, j, bias, eps);
                    let minus = perturbed(&n, layer, i, j, bias, -eps);
                    let wp = if bias {
                        f32::from_bits(plus.biases[layer].data[i][j])
                    } else {
                        f32::from_bits(plus.weights[layer].data[i][j])
                    };
                    let wm = if bias {
                        f32::from_bits(minus.biases[layer].data[i][j])
                    } else {
                        f32::from_bits(minus.weights[layer].data[i][j])
                    };
                    let lp = squared_error_loss(&plus, &input, &expected);
                    let lm = squared_error_loss(&minus, &input, &expected);
                    let numeric = (lp - lm) / (wp as f64 - wm as f64);
                    let analytic = if bias {
                        f32::from_bits(nb[layer].data[i][j]) as f64
                    } else {
                        f32::from_bits(nw[layer].data[i][j]) as f64
                    };
                    let diff = (numeric - analytic).abs();
                    assert!(
                        diff < 1e-4,
                        "gradient mismatch at layer {layer} bias {bias} ({i},{j}): analytic {analytic} numeric {numeric}"
                    );
                }
            }
        }
    }
}

fn xor_network() -> Network {
    Network::from_parts(
        vec![2, 3, 1],
        vec![
            from_f32(&[&[0.62, -0.41], &[-0.55, 0.83], &[0.21, 0.74]]),
            from_f32(&[&[0.67, -0.44, 0.88]]),
        ],
        vec![
            from_f32(&[&[0.11], &[-0.32], &[0.05]]),
            from_f32(&[&[-0.12]]),
        ],
        ActivationFunction::Sigmoid,
        1.0f32.to_bits(),
    )
    .unwrap()
}

fn xor_examples() -> (Vec<Vec<u32>>, Vec<Vec<u32>>) {
    (
        vec![
            bits_vec(&[0.0, 0.0]),
            bits_vec(&[0.0, 1.0]),
            bits_vec(&[1.0, 0.0]),
            bits_vec(&[1.0, 1.0]),
        ],
        vec![
            bits_vec(&[0.0]),
            bits_vec(&[1.0]),
            bits_vec(&[1.0]),
            bits_vec(&[0.0]),
        ],
    )
}

#[test]
fn xor_training_reaches_a_perfect_score() {
    let mut n = xor_network();
    let (inputs, expected) = xor_examples();
    n.train(
        inputs.clone(),
        expected.clone(),
        10000,
        sigmoid_op,
        sigmoid_deriv_op,
        2.0f32.to_bits(),
        mul_op,
        add_op,
        sub_op,
    )
    .unwrap();
    let score = n
        .test(
            inputs,
            expected,
            sigmoid_op,
            mul_op,
            add_op,
            round_op,
            eq_op,
        )
        .unwrap();
    assert_eq!(score, 4);
}

#[test]
fn serialization_round_trip_reproduces_outputs_bit_for_bit() {
    let mut n = xor_network();
    let (inputs, expected) = xor_examples();
    n.train(
        inputs,
        expected,
        200,
        sigmoid_op,
        sigmoid_deriv_op,
        2.0f32.to_bits(),
        mul_op,
        add_op,
        sub_op,
    )
    .unwrap();

    let tag = match n.activation_function {
        ActivationFunction::Sigmoid => "Sigmoid".to_string(),
        ActivationFunction::Relu => "Relu".to_string(),
    };
    let weights: Vec<(usize, usize, Vec<Vec<u32>>)> = n
        .weights
        .iter()
        .map(|m| (m.rows, m.cols, m.data.clone()))
        .collect();
    let biases: Vec<(usize, usize, Vec<Vec<u32>>)> = n
        .biases
        .iter()
        .map(|m| (m.rows, m.cols, m.data.clone()))
        .collect();
    let model = (n.layers.clone(), weights, biases, tag, n.learning_rate);
    let buf = rmp_serde::to_vec(&model).unwrap();

    let loaded: (
        Vec<usize>,
        Vec<(usize, usize, Vec<Vec<u32>>)>,
        Vec<(usize, usize, Vec<Vec<u32>>)>,
        String,
        u32,
    ) = rmp_serde::from_slice(&buf).unwrap();
    let activation = if loaded.3 == "Sigmoid" {
        ActivationFunction::Sigmoid
    } else {
        ActivationFunction::Relu
    };
    let restored = Network::from_parts(
        loaded.0,
        loaded
            .1
            .into_iter()
            .map(|(rows, cols, data)| Matrix { rows, cols, data })
            .collect(),
        loaded
            .2
            .into_iter()
            .map(|(rows, cols, data)| Matrix { rows, cols, data })
            .collect(),
        activation,
        loaded.4,
    )
    .unwrap();

    for l in 0..n.weights.len() {
        assert_eq!(restored.weights[l].data, n.weights[l].data);
        assert_eq!(restored.biases[l].data, n.biases[l].data);
    }
    let probe = bits_vec(&[1.0, 0.0]);
    let out_original = n
        .feed_forward(probe.clone(), sigmoid_op, mul_op, add_op)
        .unwrap();
    let out_restored = restored
        .feed_forward(probe, sigmoid_op, mul_op, add_op)
        .unwrap();
    assert_eq!(out_original, out_restored);
}

#[test]
fn singleton_mini_batch_equals_one_online_step() {
    let mut online = small_network();
    let mut stochastic = small_network();
    let inputs = vec![bits_vec(&[0.3, -0.2])];
    let expected = vec![bits_vec(&[0.7])];
    online
        .train(
            inputs.clone(),
            expected.clone(),
            1,
            sigmoid_op,
            sigmoid_deriv_op,
            2.0f32.to_bits(),
            mul_op,
            add_op,
            sub_op,
        )
        .unwrap();
    stochastic
        .stochastic_train(
            inputs,
            expected,
            1,
            1,
            sigmoid_op,
            sigmoid_deriv_op,
            2.0f32.to_bits(),
            mul_op,
            add_op,
            sub_op,
            div_count_op,
        )
        .unwrap();
    for l in 0..online.weights.len() {
        assert_eq!(online.weights[l].data, stochastic.weights[l].data);
        assert_eq!(online.biases[l].data, stochastic.biases[l].data);
    }
}

#[test]
fn averaged_batch_of_identical_examples_equals_one_step() {
    // Two copies of the same example in one mini-batch: the summed gradient
    // is twice the single gradient and the average halves it back exactly,
    // so the update equals one online step on the example alone. Shuffling
    // cannot disturb this: both orders of the batch are the same.
    let mut online = small_network();
    let mut stochastic = small_network();
    online
        .train(
            vec![bits_vec(&[0.3, -0.2])],
            vec![bits_vec(&[0.7])],
            1,
            sigmoid_op,
            sigmoid_deriv_op,
            2.0f32.to_bits(),
            mul_op,
            add_op,
            sub_op,
        )
        .unwrap();
    stochastic
        .stochastic_train(
            vec![bits_vec(&[0.3, -0.2]), bits_vec(&[0.3, -0.2])],
            vec![bits_vec(&[0.7]), bits_vec(&[0.7])],
            1,
            2,
            sigmoid_op,
            sigmoid_deriv_op,
            2.0f32.to_bits(),
            mul_op,
            add_op,
            sub_op,
            div_count_op,
        )
        .unwrap();
    for l in 0..online.weights.len() {
        assert_eq!(online.weights[l].data, stochastic.weights[l].data);
        assert_eq!(online.biases[l].data, stochastic.biases[l].data);
    }
}

#[test]
fn stochastic_training_learns_xor() {
    let mut n = xor_network();
    let (inputs, expected) = xor_examples();
    n.stochastic_train(
        inputs.clone(),
        expected.clone(),
        10000,
        1,
        sigmoid_op,
        sigmoid_deriv_op,
        2.0f32.to_bits(),
        mul_op,
        add_op,
        sub_op,
        div_count_op,
    )
    .unwrap();
    let score = n
        .test(
            inputs,
            expected,
            sigmoid_op,
            mul_op,
            add_op,
            round_op,
            eq_op,
        )
        .unwrap();
    assert_eq!(score, 4);
}
