//! The computation graph: an arena of scalar nodes addressed by stable
//! indices, grown forward-only, with lazy forward values recorded at
//! construction and an exact reverse-mode gradient sweep.

use vstd::prelude::*;
use crate::arith::{
    add_bits, sub_bits, mul_bits, pow_bits, pos_bits, add_val, sub_val, mul_val, pow_val, is_pos,
    ZERO_BITS, ONE_BITS, NEG_ONE_BITS,
};

verus! {

/// The differentiable primitives. Each variant carries the arena indices
/// of the operands that produced the node, in their meaningful order;
/// `Pow` carries the bit pattern of its constant exponent, which is not a
/// node of the graph.
#[derive(Clone, Copy)]
pub enum Op {
    Add(usize, usize),
    Mul(usize, usize),
    Pow(usize, u64),
    Relu(usize),
}

/// One scalar node: a forward value and an accumulated gradient, both
/// binary64 bit patterns, and the operation that produced the node —
/// `None` for a leaf (input or parameter).
#[derive(Clone, Copy)]
pub struct Node {
    pub data: u64,
    pub grad: u64,
    pub op: Option<Op>,
}

/// The arena. Nodes are shared by index; node identity is the index,
/// never value equality. Operands always carry smaller indices than the
/// node they produce, so the graph is acyclic by construction.
pub struct Graph {
    nodes: Vec<Node>,
}

impl View for Graph {
    type V = Seq<Node>;

    closed spec fn view(&self) -> Seq<Node> {
        self.nodes@
    }
}

/// The node at index `i` names only strictly smaller indices as operands.
pub open spec fn node_ok(nodes: Seq<Node>, i: int) -> bool {
    match nodes[i].op {
        None => true,
        Some(Op::Add(a, b)) => (a as int) < i && (b as int) < i,
        Some(Op::Mul(a, b)) => (a as int) < i && (b as int) < i,
        Some(Op::Pow(a, _)) => (a as int) < i,
        Some(Op::Relu(a)) => (a as int) < i,
    }
}

/// Every node's operands precede it: the arena holds a DAG.
pub open spec fn graph_ok(nodes: Seq<Node>) -> bool {
    forall|i: int| 0 <= i < nodes.len() ==> node_ok(nodes, i)
}

/// A handle to one scalar node: its index in the arena.
#[derive(Clone, Copy, PartialEq, Eq, Structural)]
pub struct Value {
    pub id: usize,
}

impl Graph {
    /// A fresh, empty graph.
    pub fn new() -> (g: Graph)
        ensures
            g@ == Seq::<Node>::empty(),
            graph_ok(g@),
    {
        Graph { nodes: Vec::new() }
    }

    /// How many nodes the arena holds.
    pub fn len(&self) -> (n: usize)
        ensures
            n == self@.len(),
    {
        self.nodes.len()
    }
}

impl Value {
    /// A fresh leaf node holding `data`, with gradient zero and no
    /// provenance.
    pub fn new(g: &mut Graph, data: u64) -> (v: Value)
        requires
            graph_ok(old(g)@),
        ensures
            graph_ok(final(g)@),
            v.id == old(g)@.len(),
            final(g)@ == old(g)@.push((Node { data, grad: ZERO_BITS, op: None })),
    {
        let v = Value { id: g.nodes.len() };
        g.nodes.push(Node { data, grad: ZERO_BITS, op: None });
        proof {
            assert forall|i: int| 0 <= i < g@.len() implies node_ok(g@, i) by {
                if i < old(g)@.len() {
                    assert(node_ok(old(g)@, i));
                }
            }
        }
        v
    }

    /// The node's current forward value.
    pub fn data(self, g: &Graph) -> (r: u64)
        requires
            self.id < g@.len(),
        ensures
            r == g@[self.id as int].data,
    {
        g.nodes[self.id].data
    }

    /// The node's accumulated gradient.
    pub fn grad(self, g: &Graph) -> (r: u64)
        requires
            self.id < g@.len(),
        ensures
            r == g@[self.id as int].grad,
    {
        g.nodes[self.id].grad
    }

    /// Overwrite the node's forward value in place; gradient and
    /// provenance are untouched.
    pub fn set_data(self, g: &mut Graph, val: u64)
        requires
            graph_ok(old(g)@),
            self.id < old(g)@.len(),
        ensures
            graph_ok(final(g)@),
            final(g)@ == old(g)@.update(
                self.id as int,
                (Node {
                    data: val,
                    grad: old(g)@[self.id as int].grad,
                    op: old(g)@[self.id as int].op,
                }),
            ),
    {
        let mut n = g.nodes[self.id];
        n.data = val;
        g.nodes[self.id] = n;
        proof {
            assert forall|i: int| 0 <= i < g@.len() implies node_ok(g@, i) by {
                assert(node_ok(old(g)@, i));
            }
        }
    }

    /// Reset the node's gradient to zero, for a clean backward pass.
    pub fn zero_grad(self, g: &mut Graph)
        requires
            graph_ok(old(g)@),
            self.id < old(g)@.len(),
        ensures
            graph_ok(final(g)@),
            final(g)@ == old(g)@.update(
                self.id as int,
                (Node {
                    data: old(g)@[self.id as int].data,
                    grad: ZERO_BITS,
                    op: old(g)@[self.id as int].op,
                }),
            ),
    {
        let mut n = g.nodes[self.id];
        n.grad = ZERO_BITS;
        g.nodes[self.id] = n;
        proof {
            assert forall|i: int| 0 <= i < g@.len() implies node_ok(g@, i) by {
                assert(node_ok(old(g)@, i));
            }
        }
    }

    /// One step of gradient descent: `value <- value - rate * gradient`,
    /// in place.
    pub fn update(self, g: &mut Graph, learning_rate: u64)
        requires
            graph_ok(old(g)@),
            self.id < old(g)@.len(),
        ensures
            graph_ok(final(g)@),
            final(g)@ == old(g)@.update(
                self.id as int,
                (Node {
                    data: sub_bits(
                        old(g)@[self.id as int].data,
                        mul_bits(learning_rate, old(g)@[self.id as int].grad),
                    ),
                    grad: old(g)@[self.id as int].grad,
                    op: old(g)@[self.id as int].op,
                }),
            ),
    {
        let gr = self.grad(g);
        let d = self.data(g);
        let stepped = sub_val(d, mul_val(learning_rate, gr));
        self.set_data(g, stepped);
    }

    /// A derived node for the sum of the two operands, with the forward
    /// value computed from their current values.
    pub fn add(self, g: &mut Graph, other: Value) -> (v: Value)
        requires
            graph_ok(old(g)@),
            self.id < old(g)@.len(),
            other.id < old(g)@.len(),
        ensures
            graph_ok(final(g)@),
            v.id == old(g)@.len(),
            final(g)@ == old(g)@.push(
                (Node {
                    data: add_bits(old(g)@[self.id as int].data, old(g)@[other.id as int].data),
                    grad: ZERO_BITS,
                    op: Some(Op::Add(self.id, other.id)),
                }),
            ),
    {
        let data = add_val(self.data(g), other.data(g));
        let v = Value { id: g.nodes.len() };
        g.nodes.push(Node { data, grad: ZERO_BITS, op: Some(Op::Add(self.id, other.id)) });
        proof {
            assert forall|i: int| 0 <= i < g@.len() implies node_ok(g@, i) by {
                if i < old(g)@.len() {
                    assert(node_ok(old(g)@, i));
                }
            }
        }
        v
    }

    /// A derived node for the product of the two operands.
    pub fn mul(self, g: &mut Graph, other: Value) -> (v: Value)
        requires
            graph_ok(old(g)@),
            self.id < old(g)@.len(),
            other.id < old(g)@.len(),
        ensures
            graph_ok(final(g)@),
            v.id == old(g)@.len(),
            final(g)@ == old(g)@.push(
                (Node {
                    data: mul_bits(old(g)@[self.id as int].data, old(g)@[other.id as int].data),
                    grad: ZERO_BITS,
                    op: Some(Op::Mul(self.id, other.id)),
                }),
            ),
    {
        let data = mul_val(self.data(g), other.data(g));
        let v = Value { id: g.nodes.len() };
        g.nodes.push(Node { data, grad: ZERO_BITS, op: Some(Op::Mul(self.id, other.id)) });
        proof {
            assert forall|i: int| 0 <= i < g@.len() implies node_ok(g@, i) by {
                if i < old(g)@.len() {
                    assert(node_ok(old(g)@, i));
                }
            }
        }
        v
    }

    /// A derived node raising the operand to a constant exponent, given as
    /// a binary64 bit pattern and baked into the operation tag.
    pub fn pow(self, g: &mut Graph, exponent: u64) -> (v: Value)
        requires
            graph_ok(old(g)@),
            self.id < old(g)@.len(),
        ensures
            graph_ok(final(g)@),
            v.id == old(g)@.len(),
            final(g)@ == old(g)@.push(
                (Node {
                    data: pow_bits(old(g)@[self.id as int].data, exponent),
                    grad: ZERO_BITS,
                    op: Some(Op::Pow(self.id, exponent)),
                }),
            ),
    {
        let data = pow_val(self.data(g), exponent);
        let v = Value { id: g.nodes.len() };
        g.nodes.push(Node { data, grad: ZERO_BITS, op: Some(Op::Pow(self.id, exponent)) });
        proof {
            assert forall|i: int| 0 <= i < g@.len() implies node_ok(g@, i) by {
                if i < old(g)@.len() {
                    assert(node_ok(old(g)@, i));
                }
            }
        }
        v
    }

    /// A derived rectified-linear node: the operand's value if strictly
    /// positive, else +0.0.
    pub fn relu(self, g: &mut Graph) -> (v: Value)
        requires
            graph_ok(old(g)@),
            self.id < old(g)@.len(),
        ensures
            graph_ok(final(g)@),
            v.id == old(g)@.len(),
            final(g)@ == old(g)@.push(
                (Node {
                    data: if pos_bits(old(g)@[self.id as int].data) {
                        old(g)@[self.id as int].data
                    } else {
                        ZERO_BITS
                    },
                    grad: ZERO_BITS,
                    op: Some(Op::Relu(self.id)),
                }),
            ),
    {
        let d = self.data(g);
        let data = if is_pos(d) {
            d
        } else {
            ZERO_BITS
        };
        let v = Value { id: g.nodes.len() };
        g.nodes.push(Node { data, grad: ZERO_BITS, op: Some(Op::Relu(self.id)) });
        proof {
            assert forall|i: int| 0 <= i < g@.len() implies node_ok(g@, i) by {
                if i < old(g)@.len() {
                    assert(node_ok(old(g)@, i));
                }
            }
        }
        v
    }

    /// Subtraction, defined as `self + (other * -1)`: promotes the literal
    /// -1 to a transient leaf, multiplies, and adds, appending three nodes.
    pub fn sub(self, g: &mut Graph, other: Value) -> (v: Value)
        requires
            graph_ok(old(g)@),
            self.id < old(g)@.len(),
            other.id < old(g)@.len(),
        ensures
            graph_ok(final(g)@),
            v.id == old(g)@.len() + 2,
            final(g)@.len() == old(g)@.len() + 3,
            final(g)@ == old(g)@
                .push((Node { data: NEG_ONE_BITS, grad: ZERO_BITS, op: None }))
                .push(
                    (Node {
                        data: mul_bits(old(g)@[other.id as int].data, NEG_ONE_BITS),
                        grad: ZERO_BITS,
                        op: Some(Op::Mul(other.id, old(g)@.len() as usize)),
                    }),
                )
                .push(
                    (Node {
                        data: add_bits(
                            old(g)@[self.id as int].data,
                            mul_bits(old(g)@[other.id as int].data, NEG_ONE_BITS),
                        ),
                        grad: ZERO_BITS,
                        op: Some(Op::Add(self.id, (old(g)@.len() + 1) as usize)),
                    }),
                ),
    {
        let neg_one = Value::new(g, NEG_ONE_BITS);
        let m = other.mul(g, neg_one);
        self.add(g, m)
    }

    /// Sugar: `self + literal`, promoting the literal to a leaf first.
    pub fn add_scalar(self, g: &mut Graph, c: u64) -> (v: Value)
        requires
            graph_ok(old(g)@),
            self.id < old(g)@.len(),
        ensures
            graph_ok(final(g)@),
            v.id == old(g)@.len() + 1,
            final(g)@ == old(g)@
                .push((Node { data: c, grad: ZERO_BITS, op: None }))
                .push(
                    (Node {
                        data: add_bits(old(g)@[self.id as int].data, c),
                        grad: ZERO_BITS,
                        op: Some(Op::Add(self.id, old(g)@.len() as usize)),
                    }),
                ),
    {
        let lit = Value::new(g, c);
        self.add(g, lit)
    }

    /// Sugar: `self * literal`, promoting the literal to a leaf first.
    pub fn mul_scalar(self, g: &mut Graph, c: u64) -> (v: Value)
        requires
            graph_ok(old(g)@),
            self.id < old(g)@.len(),
        ensures
            graph_ok(final(g)@),
            v.id == old(g)@.len() + 1,
            final(g)@ == old(g)@
                .push((Node { data: c, grad: ZERO_BITS, op: None }))
                .push(
                    (Node {
                        data: mul_bits(old(g)@[self.id as int].data, c),
                        grad: ZERO_BITS,
                        op: Some(Op::Mul(self.id, old(g)@.len() as usize)),
                    }),
                ),
    {
        let lit = Value::new(g, c);
        self.mul(g, lit)
    }
}

/// `j` is one of the operand indices of the node at `k`.
pub open spec fn is_operand(nodes: Seq<Node>, k: int, j: int) -> bool {
    match nodes[k].op {
        None => false,
        Some(Op::Add(a, b)) => j == a as int || j == b as int,
        Some(Op::Mul(a, b)) => j == a as int || j == b as int,
        Some(Op::Pow(a, _)) => j == a as int,
        Some(Op::Relu(a)) => j == a as int,
    }
}

/// The node at `j` is reachable from the node at `r` through operand
/// chains (every node reaches itself). The guards on the recursive calls
/// keep the definition total; on a well-formed graph they always hold.
pub open spec fn reaches(nodes: Seq<Node>, r: int, j: int) -> bool
    decreases r,
{
    if r < 0 || r >= nodes.len() {
        false
    } else if r == j {
        true
    } else {
        match nodes[r].op {
            None => false,
            Some(Op::Add(a, b)) => ((a as int) < r && reaches(nodes, a as int, j)) || ((b as int)
                < r && reaches(nodes, b as int, j)),
            Some(Op::Mul(a, b)) => ((a as int) < r && reaches(nodes, a as int, j)) || ((b as int)
                < r && reaches(nodes, b as int, j)),
            Some(Op::Pow(a, _)) => (a as int) < r && reaches(nodes, a as int, j),
            Some(Op::Relu(a)) => (a as int) < r && reaches(nodes, a as int, j),
        }
    }
}

/// The graph after adding `d` into the gradient of the node at `j`.
pub open spec fn with_grad(nodes: Seq<Node>, j: int, d: u64) -> Seq<Node> {
    nodes.update(
        j,
        (Node { data: nodes[j].data, grad: add_bits(nodes[j].grad, d), op: nodes[j].op }),
    )
}

/// One reverse-sweep step: the node at `i` reads its own (already final)
/// gradient and adds each operand's local contribution — the operation's
/// local-gradient rule — into that operand's stored gradient.
pub open spec fn apply_node(nodes: Seq<Node>, i: int) -> Seq<Node> {
    let g = nodes[i].grad;
    match nodes[i].op {
        None => nodes,
        Some(Op::Add(a, b)) => with_grad(with_grad(nodes, a as int, g), b as int, g),
        Some(Op::Mul(a, b)) => with_grad(
            with_grad(nodes, a as int, mul_bits(g, nodes[b as int].data)),
            b as int,
            mul_bits(g, nodes[a as int].data),
        ),
        Some(Op::Pow(a, e)) => with_grad(
            nodes,
            a as int,
            mul_bits(mul_bits(g, e), pow_bits(nodes[a as int].data, sub_bits(e, ONE_BITS))),
        ),
        Some(Op::Relu(a)) => with_grad(
            nodes,
            a as int,
            if pos_bits(nodes[a as int].data) {
                g
            } else {
                ZERO_BITS
            },
        ),
    }
}

/// The reverse sweep from index `i` down to 0: each node reachable from
/// `root` is applied exactly once, dependents before their operands.
pub open spec fn sweep(nodes: Seq<Node>, root: int, i: int) -> Seq<Node>
    decreases i + 1,
{
    if i < 0 {
        nodes
    } else {
        let ns = if reaches(nodes, root, i) {
            apply_node(nodes, i)
        } else {
            nodes
        };
        sweep(ns, root, i - 1)
    }
}

/// The graph with the root's gradient seeded to 1.0 (d root / d root),
/// overwriting whatever was there.
pub open spec fn seed_root(nodes: Seq<Node>, r: int) -> Seq<Node> {
    nodes.update(
        r,
        (Node { data: nodes[r].data, grad: ONE_BITS, op: nodes[r].op }),
    )
}

/// Reachability among existing nodes is unchanged when the graph grows,
/// as long as the old nodes keep their operations.
pub proof fn lemma_reaches_extend(ns1: Seq<Node>, ns2: Seq<Node>, r: int, j: int)
    requires
        ns1.len() <= ns2.len(),
        forall|k: int| 0 <= k < ns1.len() ==> ns2[k].op == ns1[k].op,
        r < ns1.len(),
    ensures
        reaches(ns1, r, j) == reaches(ns2, r, j),
    decreases r,
{
    if r < 0 || r == j {
    } else {
        assert(ns1[r].op == ns2[r].op);
        match ns1[r].op {
            None => {},
            Some(Op::Add(a, b)) => {
                if (a as int) < r {
                    lemma_reaches_extend(ns1, ns2, a as int, j);
                }
                if (b as int) < r {
                    lemma_reaches_extend(ns1, ns2, b as int, j);
                }
            },
            Some(Op::Mul(a, b)) => {
                if (a as int) < r {
                    lemma_reaches_extend(ns1, ns2, a as int, j);
                }
                if (b as int) < r {
                    lemma_reaches_extend(ns1, ns2, b as int, j);
                }
            },
            Some(Op::Pow(a, _)) => {
                if (a as int) < r {
                    lemma_reaches_extend(ns1, ns2, a as int, j);
                }
            },
            Some(Op::Relu(a)) => {
                if (a as int) < r {
                    lemma_reaches_extend(ns1, ns2, a as int, j);
                }
            },
        }
    }
}

/// Reachability reads only the operations, never values or gradients.
proof fn lemma_reaches_same_ops(ns1: Seq<Node>, ns2: Seq<Node>, r: int, j: int)
    requires
        ns1.len() == ns2.len(),
        forall|k: int| 0 <= k < ns1.len() ==> ns1[k].op == ns2[k].op,
    ensures
        reaches(ns1, r, j) == reaches(ns2, r, j),
    decreases r,
{
    if r < 0 || r >= ns1.len() || r == j {
    } else {
        assert(ns1[r].op == ns2[r].op);
        match ns1[r].op {
            None => {},
            Some(Op::Add(a, b)) => {
                if (a as int) < r {
                    lemma_reaches_same_ops(ns1, ns2, a as int, j);
                }
                if (b as int) < r {
                    lemma_reaches_same_ops(ns1, ns2, b as int, j);
                }
            },
            Some(Op::Mul(a, b)) => {
                if (a as int) < r {
                    lemma_reaches_same_ops(ns1, ns2, a as int, j);
                }
                if (b as int) < r {
                    lemma_reaches_same_ops(ns1, ns2, b as int, j);
                }
            },
            Some(Op::Pow(a, _)) => {
                if (a as int) < r {
                    lemma_reaches_same_ops(ns1, ns2, a as int, j);
                }
            },
            Some(Op::Relu(a)) => {
                if (a as int) < r {
                    lemma_reaches_same_ops(ns1, ns2, a as int, j);
                }
            },
        }
    }
}

/// An operand of a reachable node is itself reachable.
proof fn lemma_operand_reach(nodes: Seq<Node>, r: int, k: int, j: int)
    requires
        graph_ok(nodes),
        reaches(nodes, r, k),
        is_operand(nodes, k, j),
    ensures
        reaches(nodes, r, j),
    decreases r,
{
    if r == k {
        assert(node_ok(nodes, r));
        if r != j {
            match nodes[r].op {
                None => {},
                Some(Op::Add(a, b)) => {
                    assert(reaches(nodes, j, j));
                },
                Some(Op::Mul(a, b)) => {
                    assert(reaches(nodes, j, j));
                },
                Some(Op::Pow(a, _)) => {
                    assert(reaches(nodes, j, j));
                },
                Some(Op::Relu(a)) => {
                    assert(reaches(nodes, j, j));
                },
            }
        }
    } else {
        match nodes[r].op {
            None => {},
            Some(Op::Add(a, b)) => {
                if (a as int) < r && reaches(nodes, a as int, k) {
                    lemma_operand_reach(nodes, a as int, k, j);
                } else {
                    lemma_operand_reach(nodes, b as int, k, j);
                }
            },
            Some(Op::Mul(a, b)) => {
                if (a as int) < r && reaches(nodes, a as int, k) {
                    lemma_operand_reach(nodes, a as int, k, j);
                } else {
                    lemma_operand_reach(nodes, b as int, k, j);
                }
            },
            Some(Op::Pow(a, _)) => {
                lemma_operand_reach(nodes, a as int, k, j);
            },
            Some(Op::Relu(a)) => {
                lemma_operand_reach(nodes, a as int, k, j);
            },
        }
    }
}

/// A reachable index lies between 0 and the root.
proof fn lemma_reaches_bounds(nodes: Seq<Node>, r: int, j: int)
    requires
        reaches(nodes, r, j),
    ensures
        0 <= j <= r,
    decreases r,
{
    if r == j {
    } else {
        match nodes[r].op {
            None => {},
            Some(Op::Add(a, b)) => {
                if (a as int) < r && reaches(nodes, a as int, j) {
                    lemma_reaches_bounds(nodes, a as int, j);
                } else {
                    lemma_reaches_bounds(nodes, b as int, j);
                }
            },
            Some(Op::Mul(a, b)) => {
                if (a as int) < r && reaches(nodes, a as int, j) {
                    lemma_reaches_bounds(nodes, a as int, j);
                } else {
                    lemma_reaches_bounds(nodes, b as int, j);
                }
            },
            Some(Op::Pow(a, _)) => {
                lemma_reaches_bounds(nodes, a as int, j);
            },
            Some(Op::Relu(a)) => {
                lemma_reaches_bounds(nodes, a as int, j);
            },
        }
    }
}

/// Reachability is transitive along operand chains.
pub proof fn lemma_reaches_trans(nodes: Seq<Node>, r: int, m: int, q: int)
    requires
        reaches(nodes, r, m),
        reaches(nodes, m, q),
    ensures
        reaches(nodes, r, q),
    decreases r,
{
    if r == m {
    } else {
        match nodes[r].op {
            None => {},
            Some(Op::Add(a, b)) => {
                if (a as int) < r && reaches(nodes, a as int, m) {
                    lemma_reaches_trans(nodes, a as int, m, q);
                } else {
                    lemma_reaches_trans(nodes, b as int, m, q);
                }
            },
            Some(Op::Mul(a, b)) => {
                if (a as int) < r && reaches(nodes, a as int, m) {
                    lemma_reaches_trans(nodes, a as int, m, q);
                } else {
                    lemma_reaches_trans(nodes, b as int, m, q);
                }
            },
            Some(Op::Pow(a, _)) => {
                lemma_reaches_trans(nodes, a as int, m, q);
            },
            Some(Op::Relu(a)) => {
                lemma_reaches_trans(nodes, a as int, m, q);
            },
        }
    }
}

/// A node other than the root is reachable exactly when it is an operand
/// of some reachable node above it.
proof fn lemma_reach_via_consumer(nodes: Seq<Node>, root: int, j: int)
    requires
        graph_ok(nodes),
        0 <= root < nodes.len(),
        0 <= j,
    ensures
        reaches(nodes, root, j) <==> (j == root || exists|k: int|
            j < k <= root && reaches(nodes, root, k) && is_operand(nodes, k, j)),
    decreases root, 1int,
{
    if j != root {
        if exists|k: int| j < k <= root && reaches(nodes, root, k) && is_operand(nodes, k, j) {
            let k = choose|k: int|
                j < k <= root && reaches(nodes, root, k) && is_operand(nodes, k, j);
            lemma_operand_reach(nodes, root, k, j);
        }
        if reaches(nodes, root, j) {
            assert(node_ok(nodes, root));
            match nodes[root].op {
                None => {},
                Some(Op::Add(a, b)) => {
                    if (a as int) < root && reaches(nodes, a as int, j) {
                        lemma_consumer_step(nodes, root, a as int, j);
                    } else {
                        lemma_consumer_step(nodes, root, b as int, j);
                    }
                },
                Some(Op::Mul(a, b)) => {
                    if (a as int) < root && reaches(nodes, a as int, j) {
                        lemma_consumer_step(nodes, root, a as int, j);
                    } else {
                        lemma_consumer_step(nodes, root, b as int, j);
                    }
                },
                Some(Op::Pow(a, _)) => {
                    lemma_consumer_step(nodes, root, a as int, j);
                },
                Some(Op::Relu(a)) => {
                    lemma_consumer_step(nodes, root, a as int, j);
                },
            }
        }
    }
}

/// Add `d` into the stored gradient of the node at `j`.
fn accumulate(g: &mut Graph, j: usize, d: u64)
    requires
        j < old(g)@.len(),
    ensures
        final(g)@ == with_grad(old(g)@, j as int, d),
{
    let n = g.nodes[j];
    let n2 = Node { data: n.data, grad: add_val(n.grad, d), op: n.op };
    g.nodes[j] = n2;
}

impl Value {
    /// Reverse-mode differentiation. Seeds this node's gradient with 1.0,
    /// then walks every node reachable from it exactly once, dependents
    /// before operands, adding each operation's local gradient
    /// contribution into its operands' stored gradients. Gradients are
    /// accumulated on top of whatever was already stored — callers zero
    /// them first when they want a clean sweep — and values, operations
    /// and unreachable nodes are untouched.
    pub fn backward(self, g: &mut Graph)
        requires
            graph_ok(old(g)@),
            self.id < old(g)@.len(),
        ensures
            graph_ok(final(g)@),
            final(g)@ == sweep(seed_root(old(g)@, self.id as int), self.id as int, self.id as int),
            final(g)@.len() == old(g)@.len(),
            forall|k: int| 0 <= k < old(g)@.len() ==> final(g)@[k].op == old(g)@[k].op
                && final(g)@[k].data == old(g)@[k].data,
    {
        let root = self.id;
        // Seed d(root)/d(root) = 1, overwriting what was there.
        let mut seeded = g.nodes[root];
        seeded.grad = ONE_BITS;
        g.nodes[root] = seeded;
        proof {
            assert(g@ =~= seed_root(old(g)@, root as int));
            assert forall|i: int| 0 <= i < g@.len() implies node_ok(g@, i) by {
                assert(node_ok(old(g)@, i));
            }
        }
        let ghost ns0 = g@;
        let total = g.nodes.len();
        proof {
            assert(root < total);
        }
        // Mark, by index identity, every node reachable from the root.
        // Operands always precede their dependents, so one downward pass
        // finds them all.
        let mut reach_v: Vec<bool> = Vec::new();
        let mut t: usize = 0;
        while t < root + 1
            invariant
                root < usize::MAX,
                t <= root + 1,
                reach_v@.len() == t,
                forall|j: int| 0 <= j < t ==> reach_v@[j] == false,
            decreases root + 1 - t,
        {
            reach_v.push(false);
            t = t + 1;
        }
        reach_v[root] = true;
        let mut i: usize = root + 1;
        while 0 < i
            invariant
                graph_ok(ns0),
                root < ns0.len(),
                g@ == ns0,
                i <= root + 1,
                reach_v@.len() == root + 1,
                forall|j: int| i <= j <= root ==> reach_v@[j] == reaches(ns0, root as int, j),
                forall|j: int| 0 <= j < i ==> (reach_v@[j] == (j == root || exists|k: int|
                    i <= k <= root && reaches(ns0, root as int, k) && is_operand(ns0, k, j))),
            decreases i,
        {
            i = i - 1;
            let ghost pre = reach_v@;
            proof {
                lemma_reach_via_consumer(ns0, root as int, i as int);
                assert(pre[i as int] == reaches(ns0, root as int, i as int));
            }
            if reach_v[i] {
                let n = g.nodes[i];
                proof {
                    assert(node_ok(ns0, i as int));
                }
                match n.op {
                    None => {},
                    Some(Op::Add(a, b)) => {
                        reach_v[a] = true;
                        reach_v[b] = true;
                    },
                    Some(Op::Mul(a, b)) => {
                        reach_v[a] = true;
                        reach_v[b] = true;
                    },
                    Some(Op::Pow(a, _)) => {
                        reach_v[a] = true;
                    },
                    Some(Op::Relu(a)) => {
                        reach_v[a] = true;
                    },
                }
            }
            proof {
                // Whatever arm ran: marks are monotone, cover exactly the
                // operands of a reachable node `i`, and touch nothing else.
                assert(reach_v@.len() == pre.len());
                assert forall|j: int| 0 <= j < pre.len() && pre[j] implies reach_v@[j] by {}
                assert forall|j: int|
                    0 <= j < i && reaches(ns0, root as int, i as int) && is_operand(
                        ns0,
                        i as int,
                        j,
                    ) implies reach_v@[j] by {}
                assert forall|j: int|
                    0 <= j < pre.len() && !(reaches(ns0, root as int, i as int) && is_operand(
                        ns0,
                        i as int,
                        j,
                    )) implies reach_v@[j] == pre[j] by {}
                assert forall|j: int| 0 <= j < i implies (reach_v@[j] == (j == root || exists|
                    k: int,
                |
                    i <= k <= root && reaches(ns0, root as int, k) && is_operand(
                        ns0,
                        k,
                        j,
                    ))) by {
                    if reaches(ns0, root as int, i as int) && is_operand(ns0, i as int, j) {
                        assert(reach_v@[j]);
                        assert(i <= i as int <= root && reaches(ns0, root as int, i as int)
                            && is_operand(ns0, i as int, j));
                    } else {
                        assert(reach_v@[j] == pre[j]);
                        if pre[j] {
                            if j != root {
                                let k = choose|k: int|
                                    i + 1 <= k <= root && reaches(ns0, root as int, k)
                                        && is_operand(ns0, k, j);
                                assert(i <= k <= root && reaches(ns0, root as int, k)
                                    && is_operand(ns0, k, j));
                            }
                        } else {
                            if j != root {
                                assert forall|k: int|
                                    i <= k <= root && reaches(ns0, root as int, k) implies
                                    !is_operand(ns0, k, j) by {
                                    if k == i as int {
                                    } else {
                                        assert(!(i + 1 <= k <= root && reaches(ns0, root as int, k)
                                            && is_operand(ns0, k, j)));
                                    }
                                }
                            }
                        }
                    }
                }
            }
        }
        // The reverse sweep: indices in decreasing order are a topological
        // order with every dependent before its operands.
        let mut i: usize = root + 1;
        while 0 < i
            invariant
                graph_ok(ns0),
                root < ns0.len(),
                i <= root + 1,
                g@.len() == ns0.len(),
                forall|k: int| 0 <= k < ns0.len() ==> g@[k].op == ns0[k].op && g@[k].data
                    == ns0[k].data,
                reach_v@.len() == root + 1,
                forall|j: int| 0 <= j <= root ==> reach_v@[j] == reaches(ns0, root as int, j),
                sweep(ns0, root as int, root as int) == sweep(g@, root as int, i as int - 1),
            decreases i,
        {
            i = i - 1;
            let ghost pre = g@;
            proof {
                lemma_reaches_same_ops(pre, ns0, root as int, i as int);
                assert forall|k: int| 0 <= k < ns0.len() implies node_ok(pre, k) by {
                    assert(node_ok(ns0, k));
                }
            }
            if reach_v[i] {
                let n = g.nodes[i];
                proof {
                    assert(node_ok(pre, i as int));
                }
                match n.op {
                    None => {},
                    Some(Op::Add(a, b)) => {
                        accumulate(g, a, n.grad);
                        accumulate(g, b, n.grad);
                    },
                    Some(Op::Mul(a, b)) => {
                        let da = g.nodes[a].data;
                        let db = g.nodes[b].data;
                        let ga = mul_val(n.grad, db);
                        let gb = mul_val(n.grad, da);
                        accumulate(g, a, ga);
                        accumulate(g, b, gb);
                    },
                    Some(Op::Pow(a, e)) => {
                        let p = pow_val(g.nodes[a].data, sub_val(e, ONE_BITS));
                        accumulate(g, a, mul_val(mul_val(n.grad, e), p));
                    },
                    Some(Op::Relu(a)) => {
                        let d = if is_pos(g.nodes[a].data) {
                            n.grad
                        } else {
                            ZERO_BITS
                        };
                        accumulate(g, a, d);
                    },
                }
                proof {
                    assert(g@ =~= apply_node(pre, i as int));
                }
            }
            proof {
                assert(reaches(pre, root as int, i as int) == reach_v@[i as int]);
                assert(sweep(pre, root as int, i as int) == sweep(g@, root as int, i as int - 1));
            }
        }
        proof {
            assert forall|k: int| 0 <= k < g@.len() implies node_ok(g@, k) by {
                assert(node_ok(ns0, k));
            }
            assert forall|k: int| 0 <= k < old(g)@.len() implies g@[k].op == old(g)@[k].op
                && g@[k].data == old(g)@[k].data by {
                assert(ns0[k].op == old(g)@[k].op && ns0[k].data == old(g)@[k].data);
            }
        }
    }
}

/// Helper for `lemma_reach_via_consumer`: `a` is an operand of `root` and
/// reaches `j`, so some reachable consumer of `j` lies in `(j, root]`.
proof fn lemma_consumer_step(nodes: Seq<Node>, root: int, a: int, j: int)
    requires
        graph_ok(nodes),
        0 <= root < nodes.len(),
        0 <= j,
        0 <= a < root,
        is_operand(nodes, root, a),
        reaches(nodes, a, j),
        j != root,
    ensures
        exists|k: int| j < k <= root && reaches(nodes, root, k) && is_operand(nodes, k, j),
    decreases root, 0int,
{
    assert(reaches(nodes, root, root));
    if a == j {
        assert(j < root && reaches(nodes, root, root) && is_operand(nodes, root, j));
    } else {
        lemma_reach_via_consumer(nodes, a, j);
        let k = choose|k: int| j < k <= a && reaches(nodes, a, k) && is_operand(nodes, k, j);
        assert(reaches(nodes, a, a));
        lemma_operand_reach(nodes, root, root, a);
        lemma_reaches_trans(nodes, root, a, k);
        assert(j < k <= root && reaches(nodes, root, k) && is_operand(nodes, k, j));
    }
}

/// The order in which `backward` walks the graph: every index from `i`
/// down to 0 that is reachable from `root`, in decreasing order, so the
/// root comes first and every dependent comes before its operands.
pub open spec fn visit_order(nodes: Seq<Node>, root: int, i: int) -> Seq<int>
    decreases i + 1,
{
    if i < 0 {
        Seq::empty()
    } else if reaches(nodes, root, i) {
        seq![i] + visit_order(nodes, root, i - 1)
    } else {
        visit_order(nodes, root, i - 1)
    }
}

proof fn lemma_visit_order_props(nodes: Seq<Node>, root: int, i: int)
    ensures
        forall|p: int, q: int|
            0 <= p < q < visit_order(nodes, root, i).len() ==> visit_order(nodes, root, i)[p]
                > visit_order(nodes, root, i)[q],
        forall|p: int|
            0 <= p < visit_order(nodes, root, i).len() ==> 0 <= visit_order(nodes, root, i)[p]
                <= i && reaches(nodes, root, visit_order(nodes, root, i)[p]),
        forall|j: int|
            0 <= j <= i && reaches(nodes, root, j) ==> visit_order(nodes, root, i).contains(j),
    decreases i + 1,
{
    if i < 0 {
    } else {
        lemma_visit_order_props(nodes, root, i - 1);
        let o = visit_order(nodes, root, i);
        let rest = visit_order(nodes, root, i - 1);
        if reaches(nodes, root, i) {
            assert(o == seq![i] + rest);
            assert(o[0] == i);
            assert forall|p: int| 0 <= p < o.len() implies 0 <= o[p] <= i && reaches(
                nodes,
                root,
                o[p],
            ) by {
                if p > 0 {
                    assert(o[p] == rest[p - 1]);
                }
            }
            assert forall|p: int, q: int| 0 <= p < q < o.len() implies o[p] > o[q] by {
                if p > 0 {
                    assert(o[p] == rest[p - 1] && o[q] == rest[q - 1]);
                } else {
                    assert(o[q] == rest[q - 1] && rest[q - 1] <= i - 1);
                }
            }
            assert forall|j: int| 0 <= j <= i && reaches(nodes, root, j) implies o.contains(
                j,
            ) by {
                if j == i {
                    assert(o[0] == j);
                } else {
                    let q = choose|q: int| 0 <= q < rest.len() && rest[q] == j;
                    assert(o[q + 1] == j);
                }
            }
        } else {
            assert(o == rest);
        }
    }
}

/// Topological correctness of the reverse sweep: on a well-formed graph,
/// the order `backward` visits holds each node reachable from the root
/// exactly once (it is strictly decreasing, so nothing repeats), holds
/// nothing else, starts at the root, and places every visited node before
/// all of its operands — the reverse of a topological order of the
/// reachable subgraph.
pub proof fn lemma_backward_order_topological(nodes: Seq<Node>, root: int)
    requires
        graph_ok(nodes),
        0 <= root < nodes.len(),
    ensures
        forall|p: int, q: int|
            0 <= p < q < visit_order(nodes, root, root).len() ==> visit_order(
                nodes,
                root,
                root,
            )[p] > visit_order(nodes, root, root)[q],
        forall|j: int|
            0 <= j < nodes.len() ==> (visit_order(nodes, root, root).contains(j) <==> reaches(
                nodes,
                root,
                j,
            )),
        visit_order(nodes, root, root).len() > 0 && visit_order(nodes, root, root)[0] == root,
        forall|p: int, j: int|
            0 <= p < visit_order(nodes, root, root).len() && is_operand(
                nodes,
                visit_order(nodes, root, root)[p],
                j,
            ) ==> exists|q: int|
                p < q < visit_order(nodes, root, root).len() && visit_order(
                    nodes,
                    root,
                    root,
                )[q] == j,
{
    let o = visit_order(nodes, root, root);
    lemma_visit_order_props(nodes, root, root);
    assert forall|j: int| 0 <= j < nodes.len() implies (o.contains(j) <==> reaches(
        nodes,
        root,
        j,
    )) by {
        if o.contains(j) {
            let p = choose|p: int| 0 <= p < o.len() && o[p] == j;
            assert(reaches(nodes, root, o[p]));
        }
        if reaches(nodes, root, j) {
            lemma_reaches_bounds(nodes, root, j);
        }
    }
    assert(reaches(nodes, root, root));
    assert(o[0] == root);
    assert forall|p: int, j: int|
        0 <= p < o.len() && is_operand(nodes, o[p], j) implies exists|q: int|
        p < q < o.len() && o[q] == j by {
        let k = o[p];
        assert(reaches(nodes, root, k));
        lemma_operand_reach(nodes, root, k, j);
        assert(node_ok(nodes, k));
        assert(0 <= j < k);
        assert(o.contains(j));
        let q = choose|q: int| 0 <= q < o.len() && o[q] == j;
        if q < p {
            assert(o[q] > o[p]);
            assert(false);
        }
        if q == p {
            assert(false);
        }
        assert(p < q < o.len() && o[q] == j);
    }
}

/// One reverse sweep applied in lock-step to two graphs with the same
/// values and operations and the same gradients on the reachable part.
proof fn lemma_sweep_agree(ns1: Seq<Node>, ns2: Seq<Node>, root: int, i: int)
    requires
        graph_ok(ns1),
        0 <= root < ns1.len(),
        ns2.len() == ns1.len(),
        i <= root,
        forall|k: int| 0 <= k < ns1.len() ==> ns1[k].data == ns2[k].data && ns1[k].op == ns2[k].op,
        forall|k: int|
            0 <= k < ns1.len() && reaches(ns1, root, k) ==> ns1[k].grad == ns2[k].grad,
    ensures
        sweep(ns1, root, i).len() == ns1.len(),
        sweep(ns2, root, i).len() == ns1.len(),
        forall|k: int|
            0 <= k < ns1.len() ==> sweep(ns1, root, i)[k].data == ns1[k].data && sweep(
                ns1,
                root,
                i,
            )[k].op == ns1[k].op && sweep(ns2, root, i)[k].data == ns2[k].data && sweep(
                ns2,
                root,
                i,
            )[k].op == ns2[k].op,
        forall|k: int|
            0 <= k < ns1.len() && reaches(ns1, root, k) ==> sweep(ns1, root, i)[k].grad == sweep(
                ns2,
                root,
                i,
            )[k].grad,
        forall|k: int|
            0 <= k < ns1.len() && !reaches(ns1, root, k) ==> sweep(ns1, root, i)[k].grad
                == ns1[k].grad && sweep(ns2, root, i)[k].grad == ns2[k].grad,
    decreases i + 1,
{
    if i < 0 {
    } else {
        lemma_reaches_same_ops(ns1, ns2, root, i);
        let gate = reaches(ns1, root, i);
        let m1 = if gate {
            apply_node(ns1, i)
        } else {
            ns1
        };
        let m2 = if gate {
            apply_node(ns2, i)
        } else {
            ns2
        };
        assert(sweep(ns1, root, i) == sweep(m1, root, i - 1));
        assert(sweep(ns2, root, i) == sweep(m2, root, i - 1));
        if gate {
            assert(node_ok(ns1, i));
            assert forall|j: int|
                0 <= j < ns1.len() && is_operand(ns1, i, j) implies reaches(ns1, root, j) by {
                lemma_operand_reach(ns1, root, i, j);
            }
        }
        // data and operations survive the step, so well-formedness and
        // reachability do too.
        assert forall|k: int|
            0 <= k < ns1.len() implies m1[k].data == ns1[k].data && m1[k].op == ns1[k].op
            && m2[k].data == ns2[k].data && m2[k].op == ns2[k].op by {}
        assert forall|k: int| 0 <= k < m1.len() implies node_ok(m1, k) by {
            assert(node_ok(ns1, k));
        }
        assert forall|k: int| 0 <= k < ns1.len() implies reaches(m1, root, k) == reaches(
            ns1,
            root,
            k,
        ) by {
            lemma_reaches_same_ops(m1, ns1, root, k);
        }
        // the step writes equal contributions onto equal reachable grads
        assert forall|k: int|
            0 <= k < ns1.len() && reaches(ns1, root, k) implies m1[k].grad == m2[k].grad by {}
        assert forall|k: int|
            0 <= k < ns1.len() && !reaches(ns1, root, k) implies m1[k].grad == ns1[k].grad
            && m2[k].grad == ns2[k].grad by {}
        lemma_sweep_agree(m1, m2, root, i - 1);
    }
}

/// The sweep writes only below the root: every node not reachable from
/// it keeps its gradient, and every node keeps its value and operation.
pub proof fn lemma_backward_untouched(nodes: Seq<Node>, root: int)
    requires
        graph_ok(nodes),
        0 <= root < nodes.len(),
    ensures
        forall|k: int|
            0 <= k < nodes.len() && !reaches(nodes, root, k) ==> sweep(
                seed_root(nodes, root),
                root,
                root,
            )[k] == nodes[k],
{
    let s = seed_root(nodes, root);
    assert forall|k: int| 0 <= k < s.len() implies node_ok(s, k) by {
        assert(node_ok(nodes, k));
    }
    assert forall|k: int| 0 <= k < nodes.len() implies reaches(s, root, k) == reaches(
        nodes,
        root,
        k,
    ) by {
        lemma_reaches_same_ops(s, nodes, root, k);
    }
    lemma_sweep_agree(s, s, root, root);
    assert(reaches(nodes, root, root));
}

/// Dependents are finished before their operands: the sweep from `i`
/// downward writes only to indices strictly below `i`, so when the
/// sweep reads a node's gradient to push contributions to its operands,
/// that gradient is already final.
pub proof fn lemma_sweep_writes_below(nodes: Seq<Node>, root: int, i: int)
    requires
        graph_ok(nodes),
    ensures
        sweep(nodes, root, i).len() == nodes.len(),
        forall|k: int| i < k < nodes.len() ==> sweep(nodes, root, i)[k].grad == nodes[k].grad,
    decreases i + 1,
{
    if i < 0 {
    } else {
        let ns = if reaches(nodes, root, i) {
            apply_node(nodes, i)
        } else {
            nodes
        };
        if reaches(nodes, root, i) {
            lemma_reaches_bounds(nodes, root, i);
            assert(0 <= root < nodes.len());
            assert(node_ok(nodes, i));
        }
        assert(ns.len() == nodes.len());
        assert forall|k: int| i < k < nodes.len() implies ns[k].grad == nodes[k].grad by {}
        assert forall|k: int| 0 <= k < ns.len() implies node_ok(ns, k) by {
            assert(node_ok(nodes, k));
        }
        lemma_sweep_writes_below(ns, root, i - 1);
    }
}

/// Idempotent zeroing: `backward`'s resulting gradients on the part of
/// the graph reachable from the root are determined by the nodes' values
/// and operations and by the starting gradients of the reachable nodes
/// alone. So zeroing the gradient of every reachable node and running
/// `backward` again reproduces exactly the gradients of a clean first run
/// over freshly constructed nodes holding the same values.
pub proof fn lemma_backward_reproducible(ns1: Seq<Node>, ns2: Seq<Node>, root: int)
    requires
        graph_ok(ns1),
        0 <= root < ns1.len(),
        ns2.len() == ns1.len(),
        forall|k: int| 0 <= k < ns1.len() ==> ns1[k].data == ns2[k].data && ns1[k].op == ns2[k].op,
        forall|k: int|
            0 <= k < ns1.len() && reaches(ns1, root, k) ==> ns1[k].grad == ns2[k].grad,
    ensures
        forall|k: int|
            0 <= k < ns1.len() && reaches(ns1, root, k) ==> sweep(
                seed_root(ns1, root),
                root,
                root,
            )[k].grad == sweep(seed_root(ns2, root), root, root)[k].grad,
{
    let s1 = seed_root(ns1, root);
    let s2 = seed_root(ns2, root);
    assert forall|k: int| 0 <= k < s1.len() implies node_ok(s1, k) by {
        assert(node_ok(ns1, k));
    }
    assert forall|k: int| 0 <= k < ns1.len() implies reaches(s1, root, k) == reaches(
        ns1,
        root,
        k,
    ) by {
        lemma_reaches_same_ops(s1, ns1, root, k);
    }
    lemma_sweep_agree(s1, s2, root, root);
}

} // verus!
