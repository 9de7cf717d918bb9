use mnist_net::fixed::FX_ONE;
use mnist_net::mnist::Picture;
use mnist_net::net::Network;
use mnist_net::Error;

fn fx(x: f64) -> i64 {
    (x * FX_ONE as f64).round() as i64
}

/// A small network with fixed, hand-picked parameters.
fn build_net() -> Network {
    let mut n = Network::new(vec![2, 3, 1]).unwrap();
    let w0 = [[0.1, -0.2], [0.3, 0.4], [-0.5, 0.25]];
    let b0 = [0.05, -0.1, 0.15];
    let w1 = [[0.2, -0.3, 0.4]];
    let b1 = 0.1;
    for r in 0..3 {
        for c in 0..2 {
            n.weights[0].set(r, c, fx(w0[r][c]));
        }
        n.biases[0].set(r, 0, fx(b0[r]));
    }
    for c in 0..3 {
        n.weights[1].set(0, c, fx(w1[0][c]));
    }
    n.biases[1].set(0, 0, fx(b1));
    n
}

fn norm(p: u8) -> i64 {
    (p as i64) * (FX_ONE as i64) / 255
}

fn cost(n: &Network, input: &Vec<i64>) -> f64 {
    let out = n.feedforward(input.clone()).unwrap();
    let mut c = 0.0;
    for (k, o) in out.iter().enumerate() {
        let target = if k == 0 { FX_ONE as f64 } else { 0.0 };
        let d = (*o as f64 - target) / FX_ONE as f64;
        c += 0.5 * d * d;
    }
    c
}

#[test]
fn simpletenettest() {
    let n = Network::new(vec![2, 3, 1]).unwrap();
    assert_eq!(n.sizes, vec![2, 3, 1]);
    assert_eq!(n.biases.iter().count(), 2);
    assert_eq!(n.biases[0].shape(), (3, 1));
    assert_eq!(n.weights.iter().count(), 2);
    assert_eq!(n.weights[0].shape(), (3, 2));
}

#[test]
fn new_network_has_layer_shapes() {
    let sizes = vec![5usize, 4, 3, 2];
    let n = Network::new(sizes.clone()).unwrap();
    assert_eq!(n.num_layers, 4);
    assert_eq!(n.weights.len(), 3);
    assert_eq!(n.biases.len(), 3);
    for i in 0..3 {
        assert_eq!(n.weights[i].shape(), (sizes[i + 1], sizes[i]));
        assert_eq!(n.biases[i].shape(), (sizes[i + 1], 1));
    }
}

#[test]
fn new_network_draws_parameters_in_unit_range() {
    let n = Network::new(vec![3, 3, 3]).unwrap();
    for l in 0..2 {
        let (r, c) = n.weights[l].shape();
        for i in 0..r {
            for j in 0..c {
                let v = n.weights[l].get(i, j);
                assert!(0 <= v && v < FX_ONE);
            }
            let v = n.biases[l].get(i, 0);
            assert!(0 <= v && v < FX_ONE);
        }
    }
}

#[test]
fn too_few_layers_are_rejected() {
    assert_eq!(Network::new(vec![5]).unwrap_err(), Error::InvalidTopology);
    assert_eq!(Network::new(vec![]).unwrap_err(), Error::InvalidTopology);
}

#[test]
fn zero_width_layer_is_rejected() {
    assert_eq!(Network::new(vec![2, 0, 1]).unwrap_err(), Error::InvalidTopology);
}

#[test]
fn feedforward_on_zeros_stays_strictly_inside_unit_interval() {
    let n = Network::new(vec![4, 3, 2]).unwrap();
    let out = n.feedforward(vec![0, 0, 0, 0]).unwrap();
    assert_eq!(out.len(), 2);
    for v in out {
        assert!(0 < v && v < FX_ONE);
    }
}

#[test]
fn feedforward_rejects_wrong_input_length() {
    let n = Network::new(vec![4, 3, 2]).unwrap();
    assert_eq!(n.feedforward(vec![0, 0, 0]).unwrap_err(), Error::DimensionMismatch);
}

#[test]
fn sigmoid_of_zero_is_one_half() {
    // with all weights and biases zero the output is exactly sigmoid(0)
    let mut n = Network::new(vec![2, 1]).unwrap();
    n.weights[0].set(0, 0, 0);
    n.weights[0].set(0, 1, 0);
    n.biases[0].set(0, 0, 0);
    let out = n.feedforward(vec![0, 0]).unwrap();
    assert_eq!(out, vec![FX_ONE / 2]);
}

#[test]
fn backprop_rejects_out_of_range_label() {
    let n = build_net();
    let pic = Picture { pixels: vec![vec![100, 200]], value: 5 };
    assert_eq!(n.backprop(&pic).unwrap_err(), Error::InvalidLabel);
}

#[test]
fn backprop_rejects_wrong_pixel_count() {
    let n = build_net();
    let pic = Picture { pixels: vec![vec![100, 200, 30]], value: 0 };
    assert_eq!(n.backprop(&pic).unwrap_err(), Error::DimensionMismatch);
}

#[test]
fn backprop_gradient_shapes_mirror_parameters() {
    let n = build_net();
    let pic = Picture { pixels: vec![vec![100, 200]], value: 0 };
    let (gb, gw) = n.backprop(&pic).unwrap();
    assert_eq!(gb.len(), 2);
    assert_eq!(gw.len(), 2);
    assert_eq!(gb[0].shape(), (3, 1));
    assert_eq!(gb[1].shape(), (1, 1));
    assert_eq!(gw[0].shape(), (3, 2));
    assert_eq!(gw[1].shape(), (1, 3));
}

#[test]
fn backprop_matches_finite_differences() {
    let n = build_net();
    let pic = Picture { pixels: vec![vec![100, 200]], value: 0 };
    let (_gb, gw) = n.backprop(&pic).unwrap();
    let input = vec![norm(100), norm(200)];
    let eps: i64 = FX_ONE / 8;
    for &(layer, r, c) in &[(0usize, 0usize, 0usize), (0, 1, 1), (0, 2, 0), (1, 0, 1)] {
        let base = build_net().weights[layer].get(r, c);
        let mut plus = build_net();
        plus.weights[layer].set(r, c, base + eps);
        let mut minus = build_net();
        minus.weights[layer].set(r, c, base - eps);
        let numeric = (cost(&plus, &input) - cost(&minus, &input))
            / (2.0 * eps as f64 / FX_ONE as f64);
        let analytic = gw[layer].get(r, c) as f64 / FX_ONE as f64;
        assert!(
            (analytic - numeric).abs() < 0.01,
            "layer {} entry ({}, {}): analytic {} vs numeric {}",
            layer,
            r,
            c,
            analytic,
            numeric
        );
    }
}

#[test]
fn zero_learning_rate_changes_nothing() {
    let mut n = build_net();
    let pic = Picture { pixels: vec![vec![100, 200]], value: 0 };
    let mut before = Vec::new();
    for l in 0..2 {
        let (r, c) = n.weights[l].shape();
        for i in 0..r {
            for j in 0..c {
                before.push(n.weights[l].get(i, j));
            }
            before.push(n.biases[l].get(i, 0));
        }
    }
    n.stochastic_gradient_descent(vec![pic], 1, 1, 0).unwrap();
    let mut after = Vec::new();
    for l in 0..2 {
        let (r, c) = n.weights[l].shape();
        for i in 0..r {
            for j in 0..c {
                after.push(n.weights[l].get(i, j));
            }
            after.push(n.biases[l].get(i, 0));
        }
    }
    assert_eq!(before, after);
}

#[test]
fn training_runs_and_keeps_shapes() {
    let mut n = Network::new(vec![2, 4, 2]).unwrap();
    let samples = vec![
        Picture { pixels: vec![vec![0, 255]], value: 1 },
        Picture { pixels: vec![vec![255, 0]], value: 0 },
        Picture { pixels: vec![vec![10, 240]], value: 1 },
        Picture { pixels: vec![vec![240, 10]], value: 0 },
        Picture { pixels: vec![vec![30, 220]], value: 1 },
    ];
    n.stochastic_gradient_descent(samples, 3, 2, fx(3.0)).unwrap();
    assert_eq!(n.weights[0].shape(), (4, 2));
    assert_eq!(n.weights[1].shape(), (2, 4));
    assert_eq!(n.biases[0].shape(), (4, 1));
    assert_eq!(n.biases[1].shape(), (2, 1));
}

#[test]
fn training_reports_bad_label() {
    let mut n = Network::new(vec![2, 2]).unwrap();
    let samples = vec![Picture { pixels: vec![vec![1, 2]], value: 9 }];
    assert_eq!(
        n.stochastic_gradient_descent(samples, 1, 1, fx(1.0)).unwrap_err(),
        Error::InvalidLabel
    );
}

#[test]
fn training_reports_bad_pixel_count() {
    let mut n = Network::new(vec![2, 2]).unwrap();
    let samples = vec![Picture { pixels: vec![vec![1, 2, 3]], value: 0 }];
    assert_eq!(
        n.stochastic_gradient_descent(samples, 1, 1, fx(1.0)).unwrap_err(),
        Error::DimensionMismatch
    );
}

#[test]
fn one_gradient_step_gives_exact_parameters() {
    // a single sample makes the whole run deterministic
    let mut n = build_net();
    let pic = Picture { pixels: vec![vec![100, 200]], value: 0 };
    n.stochastic_gradient_descent(vec![pic], 1, 1, fx(1.0)).unwrap();
    let w0_after = [[6693i64, -12829], [19458, 25807], [-32491, 16939]];
    for r in 0..3 {
        for c in 0..2 {
            assert_eq!(n.weights[0].get(r, c), w0_after[r][c]);
        }
    }
    let w1_after = [16549i64, -15514, 30043];
    for c in 0..3 {
        assert_eq!(n.weights[1].get(0, c), w1_after[c]);
    }
    let b0_after = [3632i64, -7073, 10538];
    for r in 0..3 {
        assert_eq!(n.biases[0].get(r, 0), b0_after[r]);
    }
    assert_eq!(n.biases[1].get(0, 0), 13679);
}

#[test]
fn gradient_step_moves_toward_the_target() {
    // one sample, one step: the cost must not grow
    let mut n = build_net();
    let pic = Picture { pixels: vec![vec![100, 200]], value: 0 };
    let input = vec![norm(100), norm(200)];
    let before = cost(&n, &input);
    n.stochastic_gradient_descent(vec![pic], 1, 1, fx(1.0)).unwrap();
    let after = cost(&n, &input);
    assert!(after <= before);
}
