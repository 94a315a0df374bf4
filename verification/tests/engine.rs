// Scenario tests for the scalar autograd engine. Values cross the API as
// IEEE-754 binary64 bit patterns.

use autograd::graph::{Graph, Value};

fn b(x: f64) -> u64 {
    x.to_bits()
}

fn f(x: u64) -> f64 {
    f64::from_bits(x)
}

#[test]
fn add_forward_and_backward() {
    let mut g = Graph::new();
    let a = Value::new(&mut g, b(2.0));
    let c = Value::new(&mut g, b(3.0));
    let s = a.add(&mut g, c);
    assert_eq!(f(s.data(&g)), 5.0);
    s.backward(&mut g);
    assert_eq!(f(s.grad(&g)), 1.0);
    assert_eq!(f(a.grad(&g)), 1.0);
    assert_eq!(f(c.grad(&g)), 1.0);
}

#[test]
fn mul_forward_and_backward() {
    let mut g = Graph::new();
    let a = Value::new(&mut g, b(2.0));
    let c = Value::new(&mut g, b(3.0));
    let p = a.mul(&mut g, c);
    assert_eq!(f(p.data(&g)), 6.0);
    p.backward(&mut g);
    assert_eq!(f(a.grad(&g)), 3.0);
    assert_eq!(f(c.grad(&g)), 2.0);
}

#[test]
fn pow_forward_and_backward() {
    let mut g = Graph::new();
    let a = Value::new(&mut g, b(2.0));
    let p = a.pow(&mut g, b(3.0));
    assert_eq!(f(p.data(&g)), 8.0);
    p.backward(&mut g);
    // d(a^3)/da = 3 * a^2 = 12
    assert_eq!(f(a.grad(&g)), 12.0);
}

#[test]
fn pow_with_fractional_exponent() {
    let mut g = Graph::new();
    let a = Value::new(&mut g, b(4.0));
    let p = a.pow(&mut g, b(0.5));
    assert_eq!(f(p.data(&g)), 2.0);
    p.backward(&mut g);
    // d(a^0.5)/da = 0.5 * a^(-0.5) = 0.25
    assert_eq!(f(a.grad(&g)), 0.25);
}

#[test]
fn pow_of_negative_base_with_fractional_exponent_is_canonical_nan() {
    // (-1)^0.5 has no real value: the node holds the one canonical
    // quiet-NaN bit pattern, whatever machine computed it.
    let mut g = Graph::new();
    let a = Value::new(&mut g, b(-1.0));
    let p = a.pow(&mut g, b(0.5));
    assert!(f(p.data(&g)).is_nan());
    assert_eq!(p.data(&g), 0x7FF8_0000_0000_0000);
}

#[test]
fn chain_rule_exactness() {
    // f(a, b) = a*b + a^3 with a = 2, b = 3:
    // gradient(a) = b + 3*a^2 = 15, gradient(b) = a = 2, exactly.
    let mut g = Graph::new();
    let a = Value::new(&mut g, b(2.0));
    let bb = Value::new(&mut g, b(3.0));
    let ab = a.mul(&mut g, bb);
    let a3 = a.pow(&mut g, b(3.0));
    let y = ab.add(&mut g, a3);
    assert_eq!(f(y.data(&g)), 14.0);
    y.backward(&mut g);
    assert_eq!(f(a.grad(&g)), 15.0);
    assert_eq!(f(bb.grad(&g)), 2.0);
}

#[test]
fn relu_gradient_gating_positive() {
    // f(x) = relu(2x - 1)^2 with x = 1.5: forward (2*1.5 - 1)^2 = 4,
    // gradient(x) = 2 * relu(2x-1) * 2 = 8.
    let mut g = Graph::new();
    let x = Value::new(&mut g, b(1.5));
    let two_x = x.mul_scalar(&mut g, b(2.0));
    let one = Value::new(&mut g, b(1.0));
    let pre = two_x.sub(&mut g, one);
    let r = pre.relu(&mut g);
    let y = r.pow(&mut g, b(2.0));
    assert_eq!(f(pre.data(&g)), 2.0);
    assert_eq!(f(y.data(&g)), 4.0);
    y.backward(&mut g);
    assert_eq!(f(x.grad(&g)), 8.0);
}

#[test]
fn relu_gradient_gating_nonpositive() {
    // With x = 0.25 the pre-activation 2x - 1 = -0.5 is negative: the
    // forward value and the gradient are both 0.
    let mut g = Graph::new();
    let x = Value::new(&mut g, b(0.25));
    let two_x = x.mul_scalar(&mut g, b(2.0));
    let one = Value::new(&mut g, b(1.0));
    let pre = two_x.sub(&mut g, one);
    let r = pre.relu(&mut g);
    let y = r.pow(&mut g, b(2.0));
    assert_eq!(f(r.data(&g)), 0.0);
    assert_eq!(f(y.data(&g)), 0.0);
    y.backward(&mut g);
    assert_eq!(f(x.grad(&g)), 0.0);
}

#[test]
fn relu_at_exactly_zero_gives_zero_gradient() {
    let mut g = Graph::new();
    let x = Value::new(&mut g, b(0.0));
    let r = x.relu(&mut g);
    assert_eq!(f(r.data(&g)), 0.0);
    r.backward(&mut g);
    assert_eq!(f(x.grad(&g)), 0.0);
}

#[test]
fn fanout_accumulation() {
    // f(x) = x^2 + x + 1 with x = 3: forward 13, gradient 2x + 1 = 7.
    // The two uses of x must sum their contributions, not overwrite.
    let mut g = Graph::new();
    let x = Value::new(&mut g, b(3.0));
    let sq = x.pow(&mut g, b(2.0));
    let s = sq.add(&mut g, x);
    let y = s.add_scalar(&mut g, b(1.0));
    assert_eq!(f(y.data(&g)), 13.0);
    y.backward(&mut g);
    assert_eq!(f(x.grad(&g)), 7.0);
}

#[test]
fn sub_forward_and_backward() {
    let mut g = Graph::new();
    let a = Value::new(&mut g, b(5.0));
    let c = Value::new(&mut g, b(3.0));
    let d = a.sub(&mut g, c);
    assert_eq!(f(d.data(&g)), 2.0);
    d.backward(&mut g);
    assert_eq!(f(a.grad(&g)), 1.0);
    assert_eq!(f(c.grad(&g)), -1.0);
}

#[test]
fn idempotent_zeroing_reproduces_gradients() {
    // Zeroing every reachable gradient and running backward again gives
    // exactly the gradients of a clean run from fresh nodes.
    let mut g = Graph::new();
    let a = Value::new(&mut g, b(2.0));
    let bb = Value::new(&mut g, b(3.0));
    let ab = a.mul(&mut g, bb);
    let a3 = a.pow(&mut g, b(3.0));
    let y = ab.add(&mut g, a3);
    y.backward(&mut g);
    let first: Vec<u64> = (0..g.len()).map(|i| Value { id: i }.grad(&g)).collect();

    for i in 0..g.len() {
        Value { id: i }.zero_grad(&mut g);
    }
    y.backward(&mut g);
    let second: Vec<u64> = (0..g.len()).map(|i| Value { id: i }.grad(&g)).collect();
    assert_eq!(first, second);

    // and a clean run over a freshly constructed identical graph
    let mut g2 = Graph::new();
    let a2 = Value::new(&mut g2, b(2.0));
    let b2 = Value::new(&mut g2, b(3.0));
    let ab2 = a2.mul(&mut g2, b2);
    let a32 = a2.pow(&mut g2, b(3.0));
    let y2 = ab2.add(&mut g2, a32);
    y2.backward(&mut g2);
    let fresh: Vec<u64> = (0..g2.len()).map(|i| Value { id: i }.grad(&g2)).collect();
    assert_eq!(first, fresh);
}

#[test]
fn double_backward_doubles_gradients() {
    // Two consecutive backward calls without zeroing double the
    // gradients of the root's operands exactly.
    let mut g = Graph::new();
    let a = Value::new(&mut g, b(2.0));
    let c = Value::new(&mut g, b(3.0));
    let p = a.mul(&mut g, c);
    p.backward(&mut g);
    assert_eq!(f(a.grad(&g)), 3.0);
    assert_eq!(f(c.grad(&g)), 2.0);
    p.backward(&mut g);
    assert_eq!(f(a.grad(&g)), 6.0);
    assert_eq!(f(c.grad(&g)), 4.0);
    // the root itself is reseeded to 1, never accumulated
    assert_eq!(f(p.grad(&g)), 1.0);
}

#[test]
fn accumulation_compounds_through_depth() {
    // Without zeroing, a second backward adds contributions computed from
    // the already accumulated gradients of the interior nodes: one level
    // down they double, and the leaves below them gain twice their first
    // contribution.
    let mut g = Graph::new();
    let a = Value::new(&mut g, b(2.0));
    let bb = Value::new(&mut g, b(3.0));
    let ab = a.mul(&mut g, bb);
    let a3 = a.pow(&mut g, b(3.0));
    let y = ab.add(&mut g, a3);
    y.backward(&mut g);
    assert_eq!(f(a.grad(&g)), 15.0);
    y.backward(&mut g);
    assert_eq!(f(ab.grad(&g)), 2.0);
    assert_eq!(f(a3.grad(&g)), 2.0);
    assert_eq!(f(a.grad(&g)), 45.0);
    assert_eq!(f(bb.grad(&g)), 6.0);
}

#[test]
fn backward_on_a_leaf_root() {
    let mut g = Graph::new();
    let a = Value::new(&mut g, b(7.0));
    a.backward(&mut g);
    assert_eq!(f(a.grad(&g)), 1.0);
    assert_eq!(f(a.data(&g)), 7.0);
}

#[test]
fn backward_leaves_unreachable_nodes_alone() {
    let mut g = Graph::new();
    let a = Value::new(&mut g, b(2.0));
    let c = Value::new(&mut g, b(3.0));
    let p = a.mul(&mut g, c);
    let other = Value::new(&mut g, b(9.0));
    let q = other.mul(&mut g, other);
    p.backward(&mut g);
    assert_eq!(f(other.grad(&g)), 0.0);
    assert_eq!(f(q.grad(&g)), 0.0);
    assert_eq!(f(q.data(&g)), 81.0);
}

#[test]
fn set_data_and_zero_grad() {
    let mut g = Graph::new();
    let a = Value::new(&mut g, b(1.0));
    let c = Value::new(&mut g, b(4.0));
    let p = a.mul(&mut g, c);
    p.backward(&mut g);
    assert_eq!(f(a.grad(&g)), 4.0);
    a.set_data(&mut g, b(10.0));
    assert_eq!(f(a.data(&g)), 10.0);
    // setting the value touches neither gradient nor provenance
    assert_eq!(f(a.grad(&g)), 4.0);
    a.zero_grad(&mut g);
    assert_eq!(f(a.grad(&g)), 0.0);
    assert_eq!(f(a.data(&g)), 10.0);
}

#[test]
fn update_steps_against_the_gradient() {
    let mut g = Graph::new();
    let a = Value::new(&mut g, b(2.0));
    let c = Value::new(&mut g, b(3.0));
    let p = a.mul(&mut g, c);
    p.backward(&mut g);
    // value <- value - rate * gradient = 2 - 0.5 * 3 = 0.5
    a.update(&mut g, b(0.5));
    assert_eq!(f(a.data(&g)), 0.5);
    assert_eq!(f(a.grad(&g)), 3.0);
}

#[test]
fn literal_promotion_makes_transient_leaves() {
    let mut g = Graph::new();
    let a = Value::new(&mut g, b(4.0));
    let s = a.add_scalar(&mut g, b(1.5));
    assert_eq!(f(s.data(&g)), 5.5);
    let m = a.mul_scalar(&mut g, b(-2.0));
    assert_eq!(f(m.data(&g)), -8.0);
    m.backward(&mut g);
    assert_eq!(f(a.grad(&g)), -2.0);
}

#[test]
fn distinct_nodes_with_equal_values_keep_their_own_gradients() {
    let mut g = Graph::new();
    let a = Value::new(&mut g, b(2.0));
    let c = Value::new(&mut g, b(2.0));
    let p = a.pow(&mut g, b(2.0));
    let y = p.add(&mut g, c);
    y.backward(&mut g);
    assert_eq!(f(a.grad(&g)), 4.0);
    assert_eq!(f(c.grad(&g)), 1.0);
}
