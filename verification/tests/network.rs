// Tests for the network layer and an end-to-end training scenario.

use autograd::graph::{Graph, Value};
use autograd::mlp::MLP;

fn b(x: f64) -> u64 {
    x.to_bits()
}

fn f(x: u64) -> f64 {
    f64::from_bits(x)
}

#[test]
fn mlp_shapes_and_parameter_count() {
    let mut g = Graph::new();
    let m = MLP::new(&mut g, 2, &vec![16, 16, 1]);
    let ps = m.parameters();
    // (2+1)*16 + (16+1)*16 + (16+1)*1 parameters
    assert_eq!(ps.len(), 48 + 272 + 17);
    assert_eq!(m.layers.len(), 3);
    assert_eq!(m.layers[0].neurons.len(), 16);
    assert_eq!(m.layers[2].neurons.len(), 1);
}

#[test]
fn mlp_weights_start_in_range_and_biases_at_zero() {
    let mut g = Graph::new();
    let m = MLP::new(&mut g, 3, &vec![4, 2]);
    let ps = m.parameters();
    assert_eq!(ps.len(), 16 + 10);
    for p in &ps {
        let v = f(p.data(&g));
        assert!((-1.0..1.0).contains(&v));
    }
    for layer in &m.layers {
        for nr in &layer.neurons {
            assert_eq!(f(nr.bias.data(&g)), 0.0);
        }
    }
}

#[test]
fn single_linear_layer_computes_weighted_sum() {
    let mut g = Graph::new();
    let m = MLP::new(&mut g, 2, &vec![1]);
    let ps = m.parameters();
    assert_eq!(ps.len(), 3);
    // weights first, bias last
    ps[0].set_data(&mut g, b(0.5));
    ps[1].set_data(&mut g, b(0.25));
    ps[2].set_data(&mut g, b(2.0));
    let x1 = Value::new(&mut g, b(4.0));
    let x2 = Value::new(&mut g, b(8.0));
    let out = m.forward(&mut g, &vec![x1, x2]);
    assert_eq!(out.len(), 1);
    // bias + w1*x1 + w2*x2 = 2 + 2 + 2
    assert_eq!(f(out[0].data(&g)), 6.0);
}

#[test]
fn hidden_layer_applies_relu_and_output_is_linear() {
    let mut g = Graph::new();
    let m = MLP::new(&mut g, 1, &vec![1, 1]);
    let ps = m.parameters();
    // hidden: w, bias; output: w, bias
    assert_eq!(ps.len(), 4);
    ps[0].set_data(&mut g, b(-1.0));
    ps[1].set_data(&mut g, b(0.0));
    ps[2].set_data(&mut g, b(5.0));
    ps[3].set_data(&mut g, b(3.0));
    // input 2: hidden pre-activation -2, rectified to 0, output 3
    let x = Value::new(&mut g, b(2.0));
    let out = m.forward(&mut g, &vec![x]);
    assert_eq!(f(out[0].data(&g)), 3.0);
    // input -2: hidden pre-activation 2, kept, output 3 + 5*2 = 13
    let x2 = Value::new(&mut g, b(-2.0));
    let out2 = m.forward(&mut g, &vec![x2]);
    assert_eq!(f(out2[0].data(&g)), 13.0);
}

#[test]
fn gradients_flow_into_parameters() {
    let mut g = Graph::new();
    let m = MLP::new(&mut g, 2, &vec![1]);
    let ps = m.parameters();
    ps[0].set_data(&mut g, b(0.5));
    ps[1].set_data(&mut g, b(0.25));
    ps[2].set_data(&mut g, b(2.0));
    let x1 = Value::new(&mut g, b(4.0));
    let x2 = Value::new(&mut g, b(8.0));
    let out = m.forward(&mut g, &vec![x1, x2]);
    out[0].backward(&mut g);
    // d(out)/d(w1) = x1, d(out)/d(w2) = x2, d(out)/d(bias) = 1
    assert_eq!(f(ps[0].grad(&g)), 4.0);
    assert_eq!(f(ps[1].grad(&g)), 8.0);
    assert_eq!(f(ps[2].grad(&g)), 1.0);
    m.zero_grad(&mut g);
    assert_eq!(f(ps[0].grad(&g)), 0.0);
    assert_eq!(f(ps[1].grad(&g)), 0.0);
    assert_eq!(f(ps[2].grad(&g)), 0.0);
}

#[test]
fn training_reduces_loss() {
    // A 2-input, [16, 16, 1]-width network trained with mean-squared
    // error and plain gradient descent (rate 0.01) on y = x1 + x2: the
    // final epoch's loss must come out below the first epoch's.
    let mut g = Graph::new();
    let m = MLP::new(&mut g, 2, &vec![16, 16, 1]);
    let xs_raw = [[0.0, 0.0], [0.0, 1.0], [1.0, 0.0], [1.0, 1.0]];
    let ys_raw = [0.0, 1.0, 1.0, 2.0];
    let xs: Vec<Vec<Value>> = xs_raw
        .iter()
        .map(|p| p.iter().map(|&v| Value::new(&mut g, b(v))).collect())
        .collect();
    let ys: Vec<Value> = ys_raw.iter().map(|&v| Value::new(&mut g, b(v))).collect();

    let rate = b(0.01);
    let epochs = 50;
    let mut first_loss = 0.0;
    let mut last_loss = 0.0;
    for epoch in 0..epochs {
        let mut total_loss = 0.0;
        m.zero_grad(&mut g);
        for (x, y) in xs.iter().zip(ys.iter()) {
            let pred = m.forward(&mut g, x);
            let diff = pred[0].sub(&mut g, *y);
            let loss = diff.mul(&mut g, diff);
            total_loss += f(loss.data(&g));
            loss.backward(&mut g);
        }
        total_loss /= xs.len() as f64;
        if epoch == 0 {
            first_loss = total_loss;
        }
        last_loss = total_loss;
        for p in m.parameters() {
            p.update(&mut g, rate);
        }
    }
    assert!(last_loss < first_loss);
    assert!(last_loss.is_finite());
}
