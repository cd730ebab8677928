//! Engine-level behaviour: inference, training, persistence, with the
//! scalar closures interpreting words as IEEE-754 doubles, as the driver
//! does.

use std::cell::Cell;

use neural_network::activations::Activation;
use neural_network::codec::DecodeError;
use neural_network::matrix::Matrix;
use neural_network::network::Network;

fn fadd(a: u64, b: u64) -> u64 {
    (f64::from_bits(a) + f64::from_bits(b)).to_bits()
}

fn fsub(a: u64, b: u64) -> u64 {
    (f64::from_bits(a) - f64::from_bits(b)).to_bits()
}

fn fmul(a: u64, b: u64) -> u64 {
    (f64::from_bits(a) * f64::from_bits(b)).to_bits()
}

fn fmac(acc: u64, x: u64, y: u64) -> u64 {
    (f64::from_bits(acc) + f64::from_bits(x) * f64::from_bits(y)).to_bits()
}

fn sigmoid_f(x: f64) -> f64 {
    1.0 / (1.0 + std::f64::consts::E.powf(-x))
}

fn sigmoid(x: u64) -> u64 {
    sigmoid_f(f64::from_bits(x)).to_bits()
}

fn sigmoid_deriv(y: u64) -> u64 {
    let v = f64::from_bits(y);
    (v * (1.0 - v)).to_bits()
}

fn bits(v: &[f64]) -> Vec<u64> {
    v.iter().map(|x| x.to_bits()).collect()
}

/// A small deterministic generator in [0, 1), shared through a cell so the
/// engine sees a plain `Fn` closure.
fn lcg_gen(state: &Cell<u64>) -> impl Fn() -> u64 + Copy + '_ {
    move || {
        let s = state
            .get()
            .wrapping_mul(6364136223846793005)
            .wrapping_add(1442695040888963407);
        state.set(s);
        ((s >> 11) as f64 / (1u64 << 53) as f64).to_bits()
    }
}

fn train_gate(layers: Vec<usize>, inputs: Vec<Vec<f64>>, targets: Vec<Vec<f64>>, epochs: u32) -> Network {
    let seed = Cell::new(0x9E3779B97F4A7C15u64);
    let gen = lcg_gen(&seed);
    let lr = 0.5f64.to_bits();
    let scale = move |x: u64| fmul(x, lr);
    let mut net = Network::new(layers, Activation::sigmoid(), lr, gen);
    let win: Vec<Vec<u64>> = inputs.iter().map(|v| bits(v)).collect();
    let wt: Vec<Vec<u64>> = targets.iter().map(|v| bits(v)).collect();
    net.train(win, wt, epochs, fmac, fadd, sigmoid, fsub, fmul, scale, sigmoid_deriv);
    net
}

fn run(net: &mut Network, input: &[f64]) -> Vec<f64> {
    let out = net.feed_forward(Matrix::from(bits(input)), fmac, fadd, sigmoid);
    out.data.iter().map(|w| f64::from_bits(*w)).collect()
}

#[test]
fn sigmoid_of_zero_is_half() {
    assert_eq!(f64::from_bits(sigmoid(0.0f64.to_bits())), 0.5);
}

#[test]
fn sigmoid_stays_strictly_between_zero_and_one() {
    for x in [-30.0, -5.0, -1.0, -1e-9, 0.0, 1e-9, 0.5, 1.0, 5.0, 30.0] {
        let y = sigmoid_f(x);
        assert!(y > 0.0 && y < 1.0, "sigmoid({x}) = {y}");
    }
}

#[test]
fn sigmoid_derivative_is_y_times_one_minus_y() {
    for x in [-3.0, -0.5, 0.0, 0.5, 3.0] {
        let y = sigmoid_f(x);
        let d = f64::from_bits(sigmoid_deriv(y.to_bits()));
        assert_eq!(d, y * (1.0 - y));
    }
}

#[test]
fn new_network_reports_layers_and_learning_rate() {
    let seed = Cell::new(7);
    let net = Network::new(vec![2, 3, 1], Activation::sigmoid(), 0.5f64.to_bits(), lcg_gen(&seed));
    assert_eq!(net.layer_sizes().clone(), vec![2, 3, 1]);
    assert_eq!(f64::from_bits(net.learning_rate_word()), 0.5);
}

#[test]
fn feed_forward_is_deterministic_without_updates() {
    let seed = Cell::new(42);
    let mut net = Network::new(vec![2, 3, 1], Activation::sigmoid(), 0.5f64.to_bits(), lcg_gen(&seed));
    let a = net.feed_forward(Matrix::from(bits(&[0.25, 0.75])), fmac, fadd, sigmoid);
    let b = net.feed_forward(Matrix::from(bits(&[0.25, 0.75])), fmac, fadd, sigmoid);
    assert_eq!(a.data, b.data);
    assert_eq!(a.rows, 1);
    assert_eq!(a.cols, 1);
}

#[test]
fn back_propogate_updates_follow_the_engine_order() {
    // A single [1, 1] transition with known weight and bias, one training
    // step recomputed by hand with the same double arithmetic.
    let draws = Cell::new(0usize);
    let vals = [0.3f64, -0.1];
    let gen = move || {
        let i = draws.get();
        draws.set(i + 1);
        vals[i].to_bits()
    };
    let lr = 0.5f64;
    let scale = move |x: u64| fmul(x, lr.to_bits());
    let mut net = Network::new(vec![1, 1], Activation::sigmoid(), lr.to_bits(), &gen);
    let (w, b) = (vals[0], vals[1]);
    let x = 0.8f64;
    let t = 1.0f64;

    let out = net.feed_forward(Matrix::from(bits(&[x])), fmac, fadd, sigmoid);
    let o = f64::from_bits(out.data[0]);
    assert_eq!(o, sigmoid_f(0.0 + w * x + b));

    net.back_propogate(out, Matrix::from(bits(&[t])), fsub, fmul, scale, fadd, fmac, sigmoid_deriv);

    // The engine's order: g = ((o * (1 - o)) * (t - o)) * lr, then
    // w' = w + (0 + g * x), b' = b + g.
    let g = ((o * (1.0 - o)) * (t - o)) * lr;
    let w2 = w + (0.0 + g * x);
    let b2 = b + g;
    let expect = sigmoid_f(0.0 + w2 * x + b2);
    let after = run(&mut net, &[x]);
    assert_eq!(after, vec![expect]);
}

#[test]
fn save_load_round_trip_preserves_inference() {
    let net = train_gate(
        vec![2, 3, 1],
        vec![vec![0.0, 0.0], vec![0.0, 1.0], vec![1.0, 0.0], vec![1.0, 1.0]],
        vec![vec![0.0], vec![0.0], vec![0.0], vec![1.0]],
        500,
    );
    let saved = net.save();
    let seed = Cell::new(1);
    let mut other = Network::new(vec![3, 2], Activation::sigmoid(), 0.25f64.to_bits(), lcg_gen(&seed));
    other.load(&saved).unwrap();
    let mut net = net;
    for input in [[0.0, 0.0], [0.0, 1.0], [1.0, 0.0], [1.0, 1.0]] {
        let a = net.feed_forward(Matrix::from(bits(&input)), fmac, fadd, sigmoid);
        let b = other.feed_forward(Matrix::from(bits(&input)), fmac, fadd, sigmoid);
        assert_eq!(a.data, b.data, "outputs differ bit-for-bit on {input:?}");
    }
    assert_eq!(other.save(), net.save());
}

#[test]
fn load_rejects_truncated_data_and_leaves_network_unchanged() {
    let mut net = train_gate(vec![1, 2, 1], vec![vec![0.0], vec![1.0]], vec![vec![1.0], vec![0.0]], 50);
    let before = run(&mut net, &[0.5]);
    let mut saved = net.save();
    saved.truncate(saved.len() - 8);
    assert_eq!(net.load(&saved), Err(DecodeError::Malformed));
    let after = run(&mut net, &[0.5]);
    assert_eq!(before, after);
}

#[test]
fn load_rejects_ragged_length() {
    let seed = Cell::new(3);
    let mut net = Network::new(vec![2, 2], Activation::sigmoid(), 0.5f64.to_bits(), lcg_gen(&seed));
    let mut saved = net.save();
    saved.push(0);
    assert_eq!(net.load(&saved), Err(DecodeError::Malformed));
}

#[test]
fn load_rejects_unknown_activation_tag() {
    let seed = Cell::new(5);
    let mut net = Network::new(vec![2, 2], Activation::sigmoid(), 0.5f64.to_bits(), lcg_gen(&seed));
    let mut saved = net.save();
    let n = saved.len();
    // The activation tag is the second-to-last word.
    saved[n - 16] = 9;
    assert_eq!(net.load(&saved), Err(DecodeError::Malformed));
}

#[test]
fn and_gate_converges() {
    let mut net = train_gate(
        vec![2, 3, 1],
        vec![vec![0.0, 0.0], vec![0.0, 1.0], vec![1.0, 0.0], vec![1.0, 1.0]],
        vec![vec![0.0], vec![0.0], vec![0.0], vec![1.0]],
        100_000,
    );
    let cases = [([0.0, 0.0], 0.0), ([0.0, 1.0], 0.0), ([1.0, 0.0], 0.0), ([1.0, 1.0], 1.0)];
    for (input, want) in cases {
        let got = run(&mut net, &input)[0];
        assert!((got - want).abs() < 0.1, "AND{input:?} gave {got}, wanted about {want}");
    }
}

#[test]
fn not_gate_separates_its_inputs() {
    let mut net = train_gate(vec![1, 2, 1], vec![vec![0.0], vec![1.0]], vec![vec![1.0], vec![0.0]], 100_000);
    let low = run(&mut net, &[0.0])[0];
    let high = run(&mut net, &[1.0])[0];
    assert!(low > 0.5, "NOT(0) gave {low}");
    assert!(high < 0.5, "NOT(1) gave {high}");
}

#[test]
fn save_layout_is_the_documented_word_sequence() {
    let draws = Cell::new(0u64);
    let gen = move || {
        let i = draws.get();
        draws.set(i + 1);
        (0.001 * i as f64).to_bits()
    };
    let net = Network::new(vec![2, 3, 1], Activation::sigmoid(), 0.5f64.to_bits(), &gen);
    let saved = net.save();
    assert_eq!(saved.len() % 8, 0);
    let words: Vec<u64> = saved
        .chunks(8)
        .map(|c| u64::from_le_bytes([c[0], c[1], c[2], c[3], c[4], c[5], c[6], c[7]]))
        .collect();
    // Layer count, layer sizes, weight matrices as rows/cols/data, bias
    // matrices likewise, activation tag, learning-rate word.
    assert_eq!(words.len(), 1 + 3 + (2 + 6) + (2 + 3) + (2 + 3) + (2 + 1) + 2);
    assert_eq!(words[0], 3);
    assert_eq!(&words[1..4], &[2, 3, 1]);
    assert_eq!(words[4], 3); // first weight matrix rows
    assert_eq!(words[5], 2); // first weight matrix cols
    assert_eq!(words[12], 1); // second weight matrix rows
    assert_eq!(words[13], 3); // second weight matrix cols
    assert_eq!(words[17], 3); // first bias rows
    assert_eq!(words[18], 1); // first bias cols
    assert_eq!(words[words.len() - 2], 0); // sigmoid tag
    assert_eq!(words[words.len() - 1], 0.5f64.to_bits());
}
