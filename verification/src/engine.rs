//! The computation graph, the operations that extend it, and the backward pass.

use vstd::prelude::*;
use crate::scalar::{minus_one, Scalar};

verus! {

/// The differentiable operations a node can be produced by.
#[derive(Clone, Copy, PartialEq, Eq, Debug, Structural)]
pub enum Operation {
    Add,
    Mul,
    Tanh,
    Exp,
    Pow,
}

/// What a node of the graph is, as a mathematical value.
pub struct NodeModel<S> {
    /// The payload, computed when the node was created.
    pub value: S,
    /// The gradient accumulated so far.
    pub grad: S,
    /// The positions of the operands, in order.
    pub operands: Seq<int>,
    /// The operation that produced the node; `None` for a leaf.
    pub op: Option<Operation>,
}

struct Node<S> {
    value: S,
    grad: S,
    operands: Vec<usize>,
    op: Option<Operation>,
}

/// An append-only arena of nodes. Its view is the sequence of its nodes.
pub struct Graph<S: Scalar> {
    nodes: Vec<Node<S>>,
}

/// A handle to one node of a graph: its position in the arena.
#[derive(Clone, Copy, PartialEq, Eq, Debug, Structural)]
pub struct Value {
    index: usize,
}

impl<S> View for Node<S> {
    type V = NodeModel<S>;

    closed spec fn view(&self) -> NodeModel<S> {
        NodeModel {
            value: self.value,
            grad: self.grad,
            operands: positions(self.operands@),
            op: self.op,
        }
    }
}

impl View for Value {
    type V = int;

    closed spec fn view(&self) -> int {
        self.index as int
    }
}

impl<S: Scalar> View for Graph<S> {
    type V = Seq<NodeModel<S>>;

    closed spec fn view(&self) -> Seq<NodeModel<S>> {
        self.nodes@.map_values(|n: Node<S>| n@)
    }
}

/// Arena indices read as mathematical integers.
pub open spec fn positions(indices: Seq<usize>) -> Seq<int> {
    Seq::new(indices.len(), |s: int| indices[s] as int)
}

/// The number of operands an operation takes.
pub open spec fn arity(op: Option<Operation>) -> nat {
    match op {
        None => 0,
        Some(Operation::Tanh) | Some(Operation::Exp) => 1,
        Some(Operation::Add) | Some(Operation::Mul) | Some(Operation::Pow) => 2,
    }
}

/// The forward formula: the value of a node produced by `op` from operands
/// whose values are `a` and, for a binary operation, `b`.
pub open spec fn forward_value<S: Scalar>(op: Operation, a: S, b: S) -> S {
    match op {
        Operation::Add => a.add_spec(b),
        Operation::Mul => a.mul_spec(b),
        Operation::Tanh => a.tanh_spec(),
        Operation::Exp => a.exp_spec(),
        Operation::Pow => a.powf_spec(b),
    }
}

/// Node `i` is sound within `nodes`: it has as many operands as its operation
/// takes, each operand stands before it, and its value is what the forward
/// formula gives on the operands' values.
pub open spec fn node_ok<S: Scalar>(nodes: Seq<NodeModel<S>>, i: int) -> bool {
    let n = nodes[i];
    &&& n.operands.len() == arity(n.op)
    &&& forall|s: int| 0 <= s < n.operands.len() ==> 0 <= #[trigger] n.operands[s] < i
    &&& match n.op {
        None => true,
        Some(op) => n.value == forward_value(
            op,
            nodes[n.operands[0]].value,
            nodes[n.operands[n.operands.len() - 1]].value,
        ),
    }
}

/// Every node of the sequence is sound. Since operands stand before their
/// consumers, such a sequence is an acyclic graph listed in topological order.
pub open spec fn well_formed<S: Scalar>(nodes: Seq<NodeModel<S>>) -> bool {
    forall|i: int| 0 <= i < nodes.len() ==> #[trigger] node_ok(nodes, i)
}

/// The node `n` with its gradient replaced by `grad`.
pub open spec fn with_grad<S: Scalar>(n: NodeModel<S>, grad: S) -> NodeModel<S> {
    NodeModel { value: n.value, grad, operands: n.operands, op: n.op }
}

/// A leaf holding `value`, with no gradient yet.
pub open spec fn leaf<S: Scalar>(value: S) -> NodeModel<S> {
    NodeModel { value, grad: S::zero_spec(), operands: Seq::empty(), op: None }
}

/// The node that `op` produces from the nodes at `operands`: its value by the
/// forward formula, no gradient yet.
pub open spec fn applied<S: Scalar>(
    nodes: Seq<NodeModel<S>>,
    op: Operation,
    operands: Seq<int>,
) -> NodeModel<S> {
    NodeModel {
        value: forward_value(
            op,
            nodes[operands[0]].value,
            nodes[operands[operands.len() - 1]].value,
        ),
        grad: S::zero_spec(),
        operands,
        op: Some(op),
    }
}

/// The graph extended by the node that `op` produces from `operands`.
pub open spec fn with_node<S: Scalar>(
    nodes: Seq<NodeModel<S>>,
    op: Operation,
    operands: Seq<int>,
) -> Seq<NodeModel<S>> {
    nodes.push(applied(nodes, op, operands))
}

/// The graph extended by `a - b`, built as `a + (-1 * b)`: a leaf for `-1`,
/// the product, and the sum, which comes last.
pub open spec fn with_difference<S: Scalar>(nodes: Seq<NodeModel<S>>, a: int, b: int) -> Seq<
    NodeModel<S>,
> {
    let n = nodes.len() as int;
    let negative = nodes.push(leaf(minus_one::<S>()));
    let negated = with_node(negative, Operation::Mul, seq![n, b]);
    with_node(negated, Operation::Add, seq![a, n + 1])
}

/// The graph extended by `a / b`, built as `a * b^(-1)`: a leaf for `-1`, the
/// power, and the product, which comes last.
pub open spec fn with_quotient<S: Scalar>(nodes: Seq<NodeModel<S>>, a: int, b: int) -> Seq<
    NodeModel<S>,
> {
    let n = nodes.len() as int;
    let exponent = nodes.push(leaf(minus_one::<S>()));
    let inverse = with_node(exponent, Operation::Pow, seq![b, n]);
    with_node(inverse, Operation::Mul, seq![a, n + 1])
}

/// The positions that a sequence of handles names.
pub open spec fn handles(values: Seq<Value>) -> Seq<int> {
    Seq::new(values.len(), |s: int| values[s]@)
}

/// Whether every one of the positions `x` lies among the first `len`.
pub open spec fn all_fit(x: Seq<int>, len: int) -> bool {
    forall|s: int| 0 <= s < x.len() ==> 0 <= #[trigger] x[s] < len
}

/// Whether slot `s` of an operation receives a gradient. The exponent of a
/// power is a constant for differentiation and receives none.
pub open spec fn differentiable(op: Option<Operation>, s: int) -> bool {
    0 <= s < arity(op) && !(op == Some(Operation::Pow) && s == 1)
}

/// The local derivative rule: what node `j` adds to the gradient of its operand
/// in slot `s` when its own gradient is `upstream`.
pub open spec fn local_gradient<S: Scalar>(
    nodes: Seq<NodeModel<S>>,
    j: int,
    s: int,
    upstream: S,
) -> S {
    let n = nodes[j];
    match n.op {
        Some(Operation::Add) => upstream,
        Some(Operation::Mul) => nodes[n.operands[1 - s]].value.mul_spec(upstream),
        Some(Operation::Tanh) => S::one_spec().sub_spec(n.value.mul_spec(n.value)).mul_spec(
            upstream,
        ),
        Some(Operation::Exp) => n.value.mul_spec(upstream),
        Some(Operation::Pow) => {
            let a = nodes[n.operands[0]].value;
            let k = nodes[n.operands[1]].value;
            k.mul_spec(a.powf_spec(k.sub_spec(S::one_spec()))).mul_spec(upstream)
        },
        None => upstream,
    }
}

/// Whether node `i` is the operand in slot `s` of node `j`, in a slot that
/// receives a gradient.
pub open spec fn feeds<S: Scalar>(nodes: Seq<NodeModel<S>>, j: int, s: int, i: int) -> bool {
    differentiable(nodes[j].op, s) && nodes[j].operands[s] == i
}

/// The gradient of node `i`, which was `grad`, once node `j` has applied its
/// local rule with its own gradient `upstream`: one accumulation for each slot
/// of `j` that `i` fills, the first slot first.
pub open spec fn absorbed<S: Scalar>(
    nodes: Seq<NodeModel<S>>,
    j: int,
    i: int,
    upstream: S,
    grad: S,
) -> S {
    let first = if feeds(nodes, j, 0, i) {
        grad.add_spec(local_gradient(nodes, j, 0, upstream))
    } else {
        grad
    };
    if feeds(nodes, j, 1, i) {
        first.add_spec(local_gradient(nodes, j, 1, upstream))
    } else {
        first
    }
}

/// The graph after node `j` alone has applied its local rule.
pub open spec fn rule_applied<S: Scalar>(nodes: Seq<NodeModel<S>>, j: int) -> Seq<NodeModel<S>> {
    Seq::new(
        nodes.len(),
        |i: int| with_grad(nodes[i], absorbed(nodes, j, i, nodes[j].grad, nodes[i].grad)),
    )
}

/// Whether node `i` is among the operands of node `j`.
pub open spec fn consumes<S: Scalar>(nodes: Seq<NodeModel<S>>, j: int, i: int) -> bool {
    nodes[j].operands.contains(i)
}

/// Whether node `i` is `root` or one of its ancestors: an operand of `root`,
/// an operand of such an operand, and so on.
pub open spec fn reached<S: Scalar>(nodes: Seq<NodeModel<S>>, root: int, i: int) -> bool
    decreases root - i,
{
    i == root || (i < root && exists|j: int|
        i < j <= root && reached(nodes, root, j) && #[trigger] consumes(nodes, j, i))
}

/// The gradient of node `i` while gradients are propagated from `root`, at
/// the moment when exactly the reached nodes at positions `k..=root` have
/// applied their local rule, the later ones first. The root holds `seed`
/// throughout; every other node starts from the gradient it had before.
pub open spec fn gradient_after<S: Scalar>(
    nodes: Seq<NodeModel<S>>,
    root: int,
    seed: S,
    i: int,
    k: int,
) -> S
    decreases root - i, root + 1 - k,
{
    if k <= i || k > root {
        if i == root {
            seed
        } else {
            nodes[i].grad
        }
    } else {
        let before = gradient_after(nodes, root, seed, i, k + 1);
        if reached(nodes, root, k) {
            absorbed(nodes, k, i, gradient_after(nodes, root, seed, k, k + 1), before)
        } else {
            before
        }
    }
}

/// The gradient of node `i` when the propagation from `root` is over: every
/// reached consumer of `i` has contributed, each exactly once and each with
/// its own final gradient.
pub open spec fn final_gradient<S: Scalar>(
    nodes: Seq<NodeModel<S>>,
    root: int,
    seed: S,
    i: int,
) -> S {
    gradient_after(nodes, root, seed, i, i + 1)
}

/// The graph after gradients have been propagated from `root`, which holds
/// `seed`, to everything that `root` depends on: the same nodes, each with
/// its final gradient.
pub open spec fn propagated_from<S: Scalar>(
    nodes: Seq<NodeModel<S>>,
    root: int,
    seed: S,
) -> Seq<NodeModel<S>> {
    Seq::new(nodes.len(), |i: int| with_grad(nodes[i], final_gradient(nodes, root, seed, i)))
}

/// The graph after a backward pass from `root`: the propagation from `root`
/// with the seed one.
pub open spec fn backpropagated<S: Scalar>(nodes: Seq<NodeModel<S>>, root: int) -> Seq<
    NodeModel<S>,
> {
    propagated_from(nodes, root, S::one_spec())
}

/// Two graphs that differ in gradients only.
pub open spec fn same_structure<S: Scalar>(a: Seq<NodeModel<S>>, b: Seq<NodeModel<S>>) -> bool {
    &&& a.len() == b.len()
    &&& forall|i: int|
        0 <= i < a.len() ==> (#[trigger] a[i]).value == b[i].value && a[i].operands
            == b[i].operands && a[i].op == b[i].op
}

/// Gradients play no part in well-formedness.
pub proof fn lemma_structure_keeps_well_formed<S: Scalar>(
    a: Seq<NodeModel<S>>,
    b: Seq<NodeModel<S>>,
)
    requires
        well_formed(a),
        same_structure(a, b),
    ensures
        well_formed(b),
{
    assert forall|i: int| 0 <= i < b.len() implies #[trigger] node_ok(b, i) by {
        assert(node_ok(a, i));
        assert(a[i].operands == b[i].operands);
    }
}

/// Whether node `i` is the root or an operand of a reached node at one of the
/// positions `k..=root`: what the backward pass knows of `i` when those nodes
/// have been handled.
spec fn awaited<S: Scalar>(nodes: Seq<NodeModel<S>>, root: int, i: int, k: int) -> bool {
    i == root || exists|j: int|
        k <= j <= root && i < j && reached(nodes, root, j) && #[trigger] consumes(nodes, j, i)
}

proof fn lemma_awaited_step<S: Scalar>(nodes: Seq<NodeModel<S>>, root: int, i: int, k: int)
    requires
        i < k <= root,
    ensures
        awaited(nodes, root, i, k) == (awaited(nodes, root, i, k + 1) || (reached(nodes, root, k)
            && nodes[k].operands.contains(i))),
{
    if awaited(nodes, root, i, k) {
        let j = choose|j: int|
            k <= j <= root && i < j && reached(nodes, root, j) && #[trigger] consumes(nodes, j, i);
        if j != k {
            assert(awaited(nodes, root, i, k + 1));
        }
    }
    if awaited(nodes, root, i, k + 1) {
        let j = choose|j: int|
            k + 1 <= j <= root && i < j && reached(nodes, root, j) && #[trigger] consumes(
                nodes,
                j,
                i,
            );
        assert(awaited(nodes, root, i, k));
    }
    if reached(nodes, root, k) && nodes[k].operands.contains(i) {
        assert(consumes(nodes, k, i));
        assert(awaited(nodes, root, i, k));
    }
}

proof fn lemma_awaited_is_reached<S: Scalar>(nodes: Seq<NodeModel<S>>, root: int, i: int)
    requires
        i <= root,
    ensures
        awaited(nodes, root, i, i + 1) == reached(nodes, root, i),
{
    if awaited(nodes, root, i, i + 1) && i != root {
        let j = choose|j: int|
            i + 1 <= j <= root && i < j && reached(nodes, root, j) && #[trigger] consumes(
                nodes,
                j,
                i,
            );
        assert(reached(nodes, root, i));
    }
    if reached(nodes, root, i) && i != root {
        let j = choose|j: int|
            i < j <= root && reached(nodes, root, j) && #[trigger] consumes(nodes, j, i);
        assert(awaited(nodes, root, i, i + 1));
    }
}

/// A node's local rule changes no gradient at or after its own position, and
/// reads nothing but values and structure.
proof fn lemma_absorbed<S: Scalar>(
    a: Seq<NodeModel<S>>,
    b: Seq<NodeModel<S>>,
    j: int,
    i: int,
    upstream: S,
    grad: S,
)
    requires
        well_formed(a),
        same_structure(a, b),
        0 <= j < a.len(),
        0 <= i < a.len(),
    ensures
        absorbed(b, j, i, upstream, grad) == absorbed(a, j, i, upstream, grad),
        i >= j ==> absorbed(a, j, i, upstream, grad) == grad,
{
    assert(node_ok(a, j));
    assert(a[j].operands == b[j].operands);
    if a[j].operands.len() > 0 {
        let x = a[j].operands[0];
        assert(a[x].value == b[x].value);
        let y = a[j].operands[a[j].operands.len() - 1];
        assert(a[y].value == b[y].value);
    }
}

/// Appending a sound node keeps a graph well formed.
pub proof fn lemma_push_keeps_well_formed<S: Scalar>(nodes: Seq<NodeModel<S>>, n: NodeModel<S>)
    requires
        well_formed(nodes),
        node_ok(nodes.push(n), nodes.len() as int),
    ensures
        well_formed(nodes.push(n)),
{
    let longer = nodes.push(n);
    assert forall|i: int| 0 <= i < longer.len() implies #[trigger] node_ok(longer, i) by {
        if i < nodes.len() {
            assert(node_ok(nodes, i));
            assert(longer[i] == nodes[i]);
        }
    }
}

/// Whether a node is reached depends on operands alone.
pub proof fn lemma_reached_by_structure<S: Scalar>(
    a: Seq<NodeModel<S>>,
    b: Seq<NodeModel<S>>,
    root: int,
    i: int,
)
    requires
        same_structure(a, b),
        0 <= i <= root < a.len(),
    ensures
        reached(a, root, i) == reached(b, root, i),
    decreases root - i,
{
    if i < root {
        if reached(a, root, i) {
            let j = choose|j: int|
                i < j <= root && reached(a, root, j) && #[trigger] consumes(a, j, i);
            lemma_reached_by_structure(a, b, root, j);
            assert(a[j].operands == b[j].operands);
            assert(consumes(b, j, i));
        }
        if reached(b, root, i) {
            let j = choose|j: int|
                i < j <= root && reached(b, root, j) && #[trigger] consumes(b, j, i);
            lemma_reached_by_structure(a, b, root, j);
            assert(a[j].operands == b[j].operands);
            assert(consumes(a, j, i));
        }
    }
}

/// The gradient that the root held before plays no part in a propagation:
/// the seed stands in its place.
pub proof fn lemma_seed_replaces_root_gradient<S: Scalar>(
    a: Seq<NodeModel<S>>,
    b: Seq<NodeModel<S>>,
    root: int,
    seed: S,
    i: int,
    k: int,
)
    requires
        well_formed(a),
        same_structure(a, b),
        0 <= root < a.len(),
        0 <= i < a.len(),
        forall|t: int| 0 <= t < a.len() && t != root ==> (#[trigger] a[t]).grad == b[t].grad,
    ensures
        gradient_after(a, root, seed, i, k) == gradient_after(b, root, seed, i, k),
    decreases root - i, root + 1 - k,
{
    if i < k <= root {
        lemma_seed_replaces_root_gradient(a, b, root, seed, i, k + 1);
        lemma_seed_replaces_root_gradient(a, b, root, seed, k, k + 1);
        lemma_reached_by_structure(a, b, root, k);
        lemma_absorbed(
            a,
            b,
            k,
            i,
            gradient_after(a, root, seed, k, k + 1),
            gradient_after(a, root, seed, i, k + 1),
        );
    }
}

/// A node that the root does not depend on keeps its gradient through every
/// stage of a propagation.
pub proof fn lemma_unreached_keeps_gradient<S: Scalar>(
    nodes: Seq<NodeModel<S>>,
    root: int,
    seed: S,
    i: int,
    k: int,
)
    requires
        well_formed(nodes),
        0 <= root < nodes.len(),
        0 <= i < nodes.len(),
        !reached(nodes, root, i),
    ensures
        gradient_after(nodes, root, seed, i, k) == nodes[i].grad,
    decreases root + 1 - k,
{
    if i < k <= root {
        lemma_unreached_keeps_gradient(nodes, root, seed, i, k + 1);
        if reached(nodes, root, k) {
            assert(node_ok(nodes, k));
            assert(!consumes(nodes, k, i));
            assert(!feeds(nodes, k, 0, i));
            assert(!feeds(nodes, k, 1, i));
        }
    }
}

/// From a leaf nothing is reached but the leaf itself.
pub proof fn lemma_leaf_reaches_itself<S: Scalar>(nodes: Seq<NodeModel<S>>, root: int, i: int)
    requires
        well_formed(nodes),
        0 <= root < nodes.len(),
        nodes[root].op is None,
        0 <= i < nodes.len(),
    ensures
        reached(nodes, root, i) == (i == root),
    decreases root - i,
{
    if reached(nodes, root, i) && i != root {
        let j = choose|j: int|
            i < j <= root && reached(nodes, root, j) && #[trigger] consumes(nodes, j, i);
        lemma_leaf_reaches_itself(nodes, root, j);
        assert(node_ok(nodes, root));
    }
}

/// A propagation from a leaf changes nothing but the gradient of that leaf,
/// which becomes the seed.
pub proof fn lemma_propagated_from_leaf<S: Scalar>(nodes: Seq<NodeModel<S>>, root: int, seed: S)
    requires
        well_formed(nodes),
        0 <= root < nodes.len(),
        nodes[root].op is None,
    ensures
        propagated_from(nodes, root, seed) == nodes.update(root, with_grad(nodes[root], seed)),
{
    let after = propagated_from(nodes, root, seed);
    let expected = nodes.update(root, with_grad(nodes[root], seed));
    assert forall|i: int| 0 <= i < nodes.len() implies after[i] == expected[i] by {
        if i != root {
            lemma_leaf_reaches_itself(nodes, root, i);
            lemma_unreached_keeps_gradient(nodes, root, seed, i, i + 1);
        }
    }
    assert(after =~= expected);
}

/// A backward pass from a leaf sets the gradient of that leaf to one and does
/// nothing else.
pub proof fn lemma_backward_from_leaf<S: Scalar>(nodes: Seq<NodeModel<S>>, root: int)
    requires
        well_formed(nodes),
        0 <= root < nodes.len(),
        nodes[root].op is None,
    ensures
        backpropagated(nodes, root) == nodes.update(
            root,
            with_grad(nodes[root], S::one_spec()),
        ),
{
    lemma_propagated_from_leaf(nodes, root, S::one_spec());
}

/// The stages of a propagation for a node with a single reached consumer:
/// its gradient stays what it was until that consumer has applied its rule,
/// and is one contribution larger from then on.
proof fn lemma_single_consumer_stage<S: Scalar>(
    nodes: Seq<NodeModel<S>>,
    root: int,
    seed: S,
    i: int,
    j: int,
    s: int,
    k: int,
)
    requires
        well_formed(nodes),
        0 <= i < j <= root < nodes.len(),
        reached(nodes, root, j),
        feeds(nodes, j, s, i),
        forall|c: int, t: int|
            i < c <= root && reached(nodes, root, c) && #[trigger] feeds(nodes, c, t, i) ==> c == j
                && t == s,
        i < k <= root + 1,
    ensures
        gradient_after(nodes, root, seed, i, k) == if k > j {
            nodes[i].grad
        } else {
            nodes[i].grad.add_spec(
                local_gradient(nodes, j, s, final_gradient(nodes, root, seed, j)),
            )
        },
    decreases root + 1 - k,
{
    if k <= root {
        lemma_single_consumer_stage(nodes, root, seed, i, j, s, k + 1);
        if reached(nodes, root, k) {
            assert(node_ok(nodes, k));
            if k != j {
                assert(!feeds(nodes, k, 0, i));
                assert(!feeds(nodes, k, 1, i));
            } else if s == 0 {
                assert(!feeds(nodes, k, 1, i));
            } else {
                assert(!feeds(nodes, k, 0, i));
            }
        }
    }
}

/// The chain rule, one step of it: a node that fills a single slot of a
/// single reached consumer ends a propagation with the gradient it had
/// before plus that consumer's local derivative, taken at the consumer's own
/// final gradient.
pub proof fn lemma_single_consumer<S: Scalar>(
    nodes: Seq<NodeModel<S>>,
    root: int,
    seed: S,
    i: int,
    j: int,
    s: int,
)
    requires
        well_formed(nodes),
        0 <= i < j <= root < nodes.len(),
        reached(nodes, root, j),
        feeds(nodes, j, s, i),
        forall|c: int, t: int|
            i < c <= root && reached(nodes, root, c) && #[trigger] feeds(nodes, c, t, i) ==> c == j
                && t == s,
    ensures
        final_gradient(nodes, root, seed, i) == nodes[i].grad.add_spec(
            local_gradient(nodes, j, s, final_gradient(nodes, root, seed, j)),
        ),
{
    lemma_single_consumer_stage(nodes, root, seed, i, j, s, i + 1);
}

/// When every operand of `root` that stands after `a` is a leaf, nothing but
/// leaves is reached between `a` and `root`.
proof fn lemma_only_leaves_between<S: Scalar>(nodes: Seq<NodeModel<S>>, root: int, a: int, c: int)
    requires
        well_formed(nodes),
        0 <= a < c < root < nodes.len(),
        forall|t: int|
            0 <= t < nodes[root].operands.len() && #[trigger] nodes[root].operands[t] > a
                ==> nodes[nodes[root].operands[t]].op is None,
        reached(nodes, root, c),
    ensures
        nodes[c].op is None,
    decreases root - c,
{
    let j = choose|j: int|
        c < j <= root && reached(nodes, root, j) && #[trigger] consumes(nodes, j, c);
    if j == root {
        let t = choose|t: int|
            0 <= t < nodes[root].operands.len() && nodes[root].operands[t] == c;
        assert(nodes[root].operands[t] > a);
    } else {
        lemma_only_leaves_between(nodes, root, a, j);
        assert(node_ok(nodes, j));
    }
}

/// The chain rule at the root: an operand of `root` that fills one slot of
/// it, while every operand of `root` that stands after it is a leaf, ends a
/// propagation with the gradient it had before plus the local derivative of
/// `root`, taken at the seed. This is the case of a node passed to any single
/// operation, alone, beside an earlier node or beside a raw number.
pub proof fn lemma_direct_operand<S: Scalar>(
    nodes: Seq<NodeModel<S>>,
    root: int,
    seed: S,
    a: int,
    s: int,
)
    requires
        well_formed(nodes),
        0 <= a < root < nodes.len(),
        feeds(nodes, root, s, a),
        forall|t: int|
            0 <= t < nodes[root].operands.len() && t != s ==> #[trigger] nodes[root].operands[t]
                != a,
        forall|t: int|
            0 <= t < nodes[root].operands.len() && #[trigger] nodes[root].operands[t] > a
                ==> nodes[nodes[root].operands[t]].op is None,
    ensures
        final_gradient(nodes, root, seed, a) == nodes[a].grad.add_spec(
            local_gradient(nodes, root, s, seed),
        ),
{
    assert forall|c: int, t: int|
        a < c <= root && reached(nodes, root, c) && #[trigger] feeds(nodes, c, t, a) implies c
        == root && t == s by {
        if c < root {
            lemma_only_leaves_between(nodes, root, a, c);
            assert(node_ok(nodes, c));
        } else {
            assert(node_ok(nodes, root));
            if t != s {
                assert(nodes[root].operands[t] != a);
            }
        }
    }
    lemma_single_consumer(nodes, root, seed, a, root, s);
}

/// A node added to itself receives the gradient of the sum twice: once for
/// each slot it fills. Here the sum is the root and directly follows the node,
/// so the gradient is exactly what the node held before, plus the seed, plus
/// the seed.
pub proof fn lemma_sum_with_itself<S: Scalar>(nodes: Seq<NodeModel<S>>, a: int, seed: S)
    requires
        well_formed(nodes),
        0 <= a,
        a + 1 < nodes.len(),
        nodes[a + 1].op == Some(Operation::Add),
        nodes[a + 1].operands == seq![a, a],
    ensures
        final_gradient(nodes, a + 1, seed, a) == nodes[a].grad.add_spec(seed).add_spec(seed),
{
    let root = a + 1;
    assert(gradient_after(nodes, root, seed, a, root + 1) == nodes[a].grad);
    assert(gradient_after(nodes, root, seed, root, root + 1) == seed);
    assert(reached(nodes, root, root));
    assert(feeds(nodes, root, 0, a));
    assert(feeds(nodes, root, 1, a));
}

/// A node multiplied by itself receives, for each of the two slots it fills,
/// its own value times the gradient of the product. Here the product is the
/// root and directly follows the node.
pub proof fn lemma_product_with_itself<S: Scalar>(nodes: Seq<NodeModel<S>>, a: int, seed: S)
    requires
        well_formed(nodes),
        0 <= a,
        a + 1 < nodes.len(),
        nodes[a + 1].op == Some(Operation::Mul),
        nodes[a + 1].operands == seq![a, a],
    ensures
        final_gradient(nodes, a + 1, seed, a) == nodes[a].grad.add_spec(
            nodes[a].value.mul_spec(seed),
        ).add_spec(nodes[a].value.mul_spec(seed)),
{
    let root = a + 1;
    assert(gradient_after(nodes, root, seed, a, root + 1) == nodes[a].grad);
    assert(gradient_after(nodes, root, seed, root, root + 1) == seed);
    assert(reached(nodes, root, root));
    assert(feeds(nodes, root, 0, a));
    assert(feeds(nodes, root, 1, a));
}

/// `n` marks, none of them set.
fn unmarked(n: usize) -> (marks: Vec<bool>)
    ensures
        marks@.len() == n,
        forall|i: int| 0 <= i < n ==> !marks@[i],
{
    let mut marks: Vec<bool> = Vec::new();
    while marks.len() < n
        invariant
            marks@.len() <= n,
            forall|i: int| 0 <= i < marks@.len() ==> !marks@[i],
        decreases n - marks@.len(),
    {
        marks.push(false);
    }
    marks
}

impl<S: Scalar> Graph<S> {
    /// The invariant of the arena.
    pub open spec fn wf(&self) -> bool {
        well_formed(self@)
    }

    /// Whether `v` names a node of this graph.
    pub open spec fn has(&self, v: Value) -> bool {
        0 <= v@ < self@.len()
    }

    /// An empty graph.
    pub fn new() -> (g: Self)
        ensures
            g@ == Seq::<NodeModel<S>>::empty(),
            g.wf(),
    {
        let g = Graph { nodes: Vec::new() };
        assert(g@ =~= Seq::<NodeModel<S>>::empty());
        g
    }

    /// The number of nodes.
    pub fn len(&self) -> (n: usize)
        ensures
            n == self@.len(),
    {
        self.nodes.len()
    }

    /// Whether `v` names a node of this graph.
    pub fn contains(&self, v: Value) -> (b: bool)
        ensures
            b == self.has(v),
    {
        v.index < self.nodes.len()
    }

    fn accumulate(&mut self, i: usize, amount: &S)
        requires
            i < old(self)@.len(),
        ensures
            final(self)@ == old(self)@.update(
                i as int,
                with_grad(old(self)@[i as int], old(self)@[i as int].grad.add_spec(*amount)),
            ),
    {
        let sum = self.nodes[i].grad.add(amount);
        self.nodes[i].grad = sum;
        assert(self@ =~= old(self)@.update(
            i as int,
            with_grad(old(self)@[i as int], old(self)@[i as int].grad.add_spec(*amount)),
        ));
    }

    /// Whether every handle of `x` names a node of this graph.
    pub fn contains_all(&self, x: &Vec<Value>) -> (b: bool)
        ensures
            b == all_fit(handles(x@), self@.len() as int),
    {
        let mut s: usize = 0;
        while s < x.len()
            invariant
                s <= x@.len(),
                forall|t: int| 0 <= t < s ==> 0 <= #[trigger] handles(x@)[t] < self@.len(),
            decreases x@.len() - s,
        {
            if !self.contains(x[s]) {
                assert(!(0 <= handles(x@)[s as int] < self@.len()));
                return false;
            }
            s += 1;
        }
        true
    }

    fn unary(&mut self, op: Operation, a: usize) -> (v: Value)
        requires
            old(self).wf(),
            a < old(self)@.len(),
            arity(Some(op)) == 1,
        ensures
            final(self).wf(),
            v@ == old(self)@.len(),
            final(self)@ == with_node(old(self)@, op, seq![a as int]),
    {
        let value = match op {
            Operation::Exp => self.nodes[a].value.exp(),
            _ => self.nodes[a].value.tanh(),
        };
        let mut operands: Vec<usize> = Vec::new();
        operands.push(a);
        assert(positions(operands@) =~= seq![a as int]);
        let v = self.push(value, operands, Some(op));
        proof {
            lemma_push_keeps_well_formed(old(self)@, self@[v@]);
        }
        v
    }

    fn binary(&mut self, op: Operation, a: usize, b: usize) -> (v: Value)
        requires
            old(self).wf(),
            a < old(self)@.len(),
            b < old(self)@.len(),
            arity(Some(op)) == 2,
        ensures
            final(self).wf(),
            v@ == old(self)@.len(),
            final(self)@ == with_node(old(self)@, op, seq![a as int, b as int]),
    {
        let value = match op {
            Operation::Add => self.nodes[a].value.add(&self.nodes[b].value),
            Operation::Mul => self.nodes[a].value.mul(&self.nodes[b].value),
            _ => self.nodes[a].value.powf(&self.nodes[b].value),
        };
        let mut operands: Vec<usize> = Vec::new();
        operands.push(a);
        operands.push(b);
        assert(positions(operands@) =~= seq![a as int, b as int]);
        let v = self.push(value, operands, Some(op));
        proof {
            lemma_push_keeps_well_formed(old(self)@, self@[v@]);
        }
        v
    }

    fn push(&mut self, value: S, operands: Vec<usize>, op: Option<Operation>) -> (v: Value)
        ensures
            v@ == old(self)@.len(),
            final(self)@ == old(self)@.push(
                NodeModel {
                    value,
                    grad: S::zero_spec(),
                    operands: positions(operands@),
                    op,
                },
            ),
    {
        let index = self.nodes.len();
        self.nodes.push(Node { value, grad: S::zero(), operands, op });
        assert(self@ =~= old(self)@.push(
            NodeModel {
                value,
                grad: S::zero_spec(),
                operands: positions(operands@),
                op,
            },
        ));
        Value { index }
    }
}

impl Value {
    /// A new leaf holding `value`.
    pub fn new<S: Scalar>(g: &mut Graph<S>, value: S) -> (v: Value)
        requires
            old(g).wf(),
        ensures
            final(g).wf(),
            v@ == old(g)@.len(),
            final(g)@ == old(g)@.push(leaf(value)),
    {
        let operands: Vec<usize> = Vec::new();
        assert(positions(operands@) =~= Seq::<int>::empty());
        let v = g.push(value, operands, None);
        assert(node_ok(g@, v@));
        assert forall|i: int| 0 <= i < g@.len() implies #[trigger] node_ok(g@, i) by {
            if i < v@ {
                assert(node_ok(old(g)@, i));
            }
        }
        v
    }

    /// The hyperbolic tangent of this node, as a new node.
    pub fn tanh<S: Scalar>(self, g: &mut Graph<S>) -> (v: Value)
        requires
            old(g).wf(),
            old(g).has(self),
        ensures
            final(g).wf(),
            v@ == old(g)@.len(),
            final(g)@ == with_node(old(g)@, Operation::Tanh, seq![self@]),
            final(g)@[v@].value == old(g)@[self@].value.tanh_spec(),
    {
        g.unary(Operation::Tanh, self.index)
    }

    /// The natural exponential of this node, as a new node.
    pub fn exp<S: Scalar>(self, g: &mut Graph<S>) -> (v: Value)
        requires
            old(g).wf(),
            old(g).has(self),
        ensures
            final(g).wf(),
            v@ == old(g)@.len(),
            final(g)@ == with_node(old(g)@, Operation::Exp, seq![self@]),
            final(g)@[v@].value == old(g)@[self@].value.exp_spec(),
    {
        g.unary(Operation::Exp, self.index)
    }

    /// This node raised to the constant power `x`. The exponent becomes a leaf
    /// of its own, which receives no gradient; the power comes last.
    pub fn powf<S: Scalar>(self, g: &mut Graph<S>, x: S) -> (v: Value)
        requires
            old(g).wf(),
            old(g).has(self),
        ensures
            final(g).wf(),
            v@ == old(g)@.len() + 1,
            final(g)@ == with_node(
                old(g)@.push(leaf(x)),
                Operation::Pow,
                seq![self@, old(g)@.len() as int],
            ),
            final(g)@[v@].value == old(g)@[self@].value.powf_spec(x),
    {
        let k = Value::new(g, x);
        g.binary(Operation::Pow, self.index, k.index)
    }

    /// `self + rhs`, as a new node.
    pub fn add<S: Scalar>(self, g: &mut Graph<S>, rhs: Value) -> (v: Value)
        requires
            old(g).wf(),
            old(g).has(self),
            old(g).has(rhs),
        ensures
            final(g).wf(),
            v@ == old(g)@.len(),
            final(g)@ == with_node(old(g)@, Operation::Add, seq![self@, rhs@]),
            final(g)@[v@].value == old(g)@[self@].value.add_spec(old(g)@[rhs@].value),
    {
        g.binary(Operation::Add, self.index, rhs.index)
    }

    /// `self * rhs`, as a new node.
    pub fn mul<S: Scalar>(self, g: &mut Graph<S>, rhs: Value) -> (v: Value)
        requires
            old(g).wf(),
            old(g).has(self),
            old(g).has(rhs),
        ensures
            final(g).wf(),
            v@ == old(g)@.len(),
            final(g)@ == with_node(old(g)@, Operation::Mul, seq![self@, rhs@]),
            final(g)@[v@].value == old(g)@[self@].value.mul_spec(old(g)@[rhs@].value),
    {
        g.binary(Operation::Mul, self.index, rhs.index)
    }

    /// `self - rhs`, built as `self + (-1 * rhs)` so that the backward pass
    /// treats it as the sum of `self` and the negation of `rhs`.
    pub fn sub<S: Scalar>(self, g: &mut Graph<S>, rhs: Value) -> (v: Value)
        requires
            old(g).wf(),
            old(g).has(self),
            old(g).has(rhs),
        ensures
            final(g).wf(),
            v@ == old(g)@.len() + 2,
            final(g)@ == with_difference(old(g)@, self@, rhs@),
            final(g)@[v@].value == old(g)@[self@].value.add_spec(
                minus_one::<S>().mul_spec(old(g)@[rhs@].value),
            ),
    {
        let negative = Value::new(g, S::zero().sub(&S::one()));
        let negated = g.binary(Operation::Mul, negative.index, rhs.index);
        g.binary(Operation::Add, self.index, negated.index)
    }

    /// `self / rhs`, built as `self * rhs^(-1)` so that the backward pass
    /// applies the power rule to the divisor and the product rule to the rest.
    /// A zero divisor is not rejected: the result is whatever the scalar type
    /// makes of it.
    pub fn div<S: Scalar>(self, g: &mut Graph<S>, rhs: Value) -> (v: Value)
        requires
            old(g).wf(),
            old(g).has(self),
            old(g).has(rhs),
        ensures
            final(g).wf(),
            v@ == old(g)@.len() + 2,
            final(g)@ == with_quotient(old(g)@, self@, rhs@),
            final(g)@[v@].value == old(g)@[self@].value.mul_spec(
                old(g)@[rhs@].value.powf_spec(minus_one::<S>()),
            ),
    {
        let exponent = Value::new(g, S::zero().sub(&S::one()));
        let inverse = g.binary(Operation::Pow, rhs.index, exponent.index);
        g.binary(Operation::Mul, self.index, inverse.index)
    }

    /// `self + rhs` for a raw number: `rhs` becomes a leaf, the sum comes last.
    pub fn add_scalar<S: Scalar>(self, g: &mut Graph<S>, rhs: S) -> (v: Value)
        requires
            old(g).wf(),
            old(g).has(self),
        ensures
            final(g).wf(),
            v@ == old(g)@.len() + 1,
            final(g)@ == with_node(
                old(g)@.push(leaf(rhs)),
                Operation::Add,
                seq![self@, old(g)@.len() as int],
            ),
    {
        let r = Value::new(g, rhs);
        self.add(g, r)
    }

    /// `lhs + rhs` for a raw number on the left, commuted: `lhs` becomes a
    /// leaf and is added to `rhs`, so the node stays the first operand. The
    /// sum comes last.
    pub fn scalar_add<S: Scalar>(g: &mut Graph<S>, lhs: S, rhs: Value) -> (v: Value)
        requires
            old(g).wf(),
            old(g).has(rhs),
        ensures
            final(g).wf(),
            v@ == old(g)@.len() + 1,
            final(g)@ == with_node(
                old(g)@.push(leaf(lhs)),
                Operation::Add,
                seq![rhs@, old(g)@.len() as int],
            ),
    {
        rhs.add_scalar(g, lhs)
    }

    /// `self - rhs` for a raw number: `rhs` becomes a leaf, then as `sub`.
    pub fn sub_scalar<S: Scalar>(self, g: &mut Graph<S>, rhs: S) -> (v: Value)
        requires
            old(g).wf(),
            old(g).has(self),
        ensures
            final(g).wf(),
            v@ == old(g)@.len() + 3,
            final(g)@ == with_difference(old(g)@.push(leaf(rhs)), self@, old(g)@.len() as int),
    {
        let r = Value::new(g, rhs);
        self.sub(g, r)
    }

    /// `lhs - rhs` for a raw number on the left: `lhs` becomes a leaf, then as
    /// `sub`.
    pub fn scalar_sub<S: Scalar>(g: &mut Graph<S>, lhs: S, rhs: Value) -> (v: Value)
        requires
            old(g).wf(),
            old(g).has(rhs),
        ensures
            final(g).wf(),
            v@ == old(g)@.len() + 3,
            final(g)@ == with_difference(old(g)@.push(leaf(lhs)), old(g)@.len() as int, rhs@),
    {
        let l = Value::new(g, lhs);
        l.sub(g, rhs)
    }

    /// `self * rhs` for a raw number: `rhs` becomes a leaf, the product comes
    /// last.
    pub fn mul_scalar<S: Scalar>(self, g: &mut Graph<S>, rhs: S) -> (v: Value)
        requires
            old(g).wf(),
            old(g).has(self),
        ensures
            final(g).wf(),
            v@ == old(g)@.len() + 1,
            final(g)@ == with_node(
                old(g)@.push(leaf(rhs)),
                Operation::Mul,
                seq![self@, old(g)@.len() as int],
            ),
    {
        let r = Value::new(g, rhs);
        self.mul(g, r)
    }

    /// `lhs * rhs` for a raw number on the left, commuted: `lhs` becomes a
    /// leaf and `rhs` is multiplied by it, so the node stays the first
    /// operand. The product comes last.
    pub fn scalar_mul<S: Scalar>(g: &mut Graph<S>, lhs: S, rhs: Value) -> (v: Value)
        requires
            old(g).wf(),
            old(g).has(rhs),
        ensures
            final(g).wf(),
            v@ == old(g)@.len() + 1,
            final(g)@ == with_node(
                old(g)@.push(leaf(lhs)),
                Operation::Mul,
                seq![rhs@, old(g)@.len() as int],
            ),
    {
        rhs.mul_scalar(g, lhs)
    }

    /// `self / rhs` for a raw number: `rhs` becomes a leaf, then as `div`.
    pub fn div_scalar<S: Scalar>(self, g: &mut Graph<S>, rhs: S) -> (v: Value)
        requires
            old(g).wf(),
            old(g).has(self),
        ensures
            final(g).wf(),
            v@ == old(g)@.len() + 3,
            final(g)@ == with_quotient(old(g)@.push(leaf(rhs)), self@, old(g)@.len() as int),
    {
        let r = Value::new(g, rhs);
        self.div(g, r)
    }

    /// `lhs / rhs` for a raw number on the left: `lhs` becomes a leaf, then as
    /// `div`.
    pub fn scalar_div<S: Scalar>(g: &mut Graph<S>, lhs: S, rhs: Value) -> (v: Value)
        requires
            old(g).wf(),
            old(g).has(rhs),
        ensures
            final(g).wf(),
            v@ == old(g)@.len() + 3,
            final(g)@ == with_quotient(old(g)@.push(leaf(lhs)), old(g)@.len() as int, rhs@),
    {
        let l = Value::new(g, lhs);
        l.div(g, rhs)
    }

    /// The value of this node.
    pub fn get_data<S: Scalar>(self, g: &Graph<S>) -> (x: S)
        requires
            g.has(self),
        ensures
            x == g@[self@].value,
    {
        g.nodes[self.index].value.dup()
    }

    /// The gradient that this node holds.
    pub fn get_grad<S: Scalar>(self, g: &Graph<S>) -> (x: S)
        requires
            g.has(self),
        ensures
            x == g@[self@].grad,
    {
        g.nodes[self.index].grad.dup()
    }

    /// Replaces the gradient of this node by `grad`.
    pub fn set_grad<S: Scalar>(self, g: &mut Graph<S>, grad: S)
        requires
            old(g).wf(),
            old(g).has(self),
        ensures
            final(g).wf(),
            final(g)@ == old(g)@.update(self@, with_grad(old(g)@[self@], grad)),
    {
        g.nodes[self.index].grad = grad;
        proof {
            assert(g@ =~= old(g)@.update(self@, with_grad(old(g)@[self@], grad)));
            assert(same_structure(old(g)@, g@));
            lemma_structure_keeps_well_formed(old(g)@, g@);
        }
    }

    /// Adds `grad` to the gradient of this node.
    pub fn add_grad<S: Scalar>(self, g: &mut Graph<S>, grad: S)
        requires
            old(g).wf(),
            old(g).has(self),
        ensures
            final(g).wf(),
            final(g)@ == old(g)@.update(
                self@,
                with_grad(old(g)@[self@], old(g)@[self@].grad.add_spec(grad)),
            ),
    {
        g.accumulate(self.index, &grad);
        proof {
            assert(same_structure(old(g)@, g@));
            lemma_structure_keeps_well_formed(old(g)@, g@);
        }
    }

    /// The operation that produced this node; `None` for a leaf.
    pub fn get_operation<S: Scalar>(self, g: &Graph<S>) -> (op: Option<Operation>)
        requires
            g.has(self),
        ensures
            op == g@[self@].op,
    {
        g.nodes[self.index].op
    }

    /// The operands of this node, in order.
    pub fn get_children<S: Scalar>(self, g: &Graph<S>) -> (children: Vec<Value>)
        requires
            g.has(self),
        ensures
            handles(children@) == g@[self@].operands,
    {
        let mut children: Vec<Value> = Vec::new();
        let count = g.nodes[self.index].operands.len();
        let mut s: usize = 0;
        while s < count
            invariant
                s <= count,
                self.index < g.nodes@.len(),
                count == g.nodes@[self.index as int].operands@.len(),
                children@.len() == s,
                forall|t: int|
                    0 <= t < s ==> (#[trigger] children@[t])@ == g.nodes@[self.index as int].operands@[t],
            decreases count - s,
        {
            children.push(Value { index: g.nodes[self.index].operands[s] });
            s += 1;
        }
        assert(handles(children@) =~= g@[self@].operands);
        children
    }

    /// The position of this node in its graph.
    pub fn index(self) -> (i: usize)
        ensures
            i == self@,
    {
        self.index
    }

    /// Applies the local derivative rule of this node once: each operand that
    /// receives a gradient has this node's contribution added to its own.
    /// Nothing else changes, and nothing is passed further down.
    pub fn apply_local_rule<S: Scalar>(self, g: &mut Graph<S>)
        requires
            old(g).wf(),
            old(g).has(self),
        ensures
            final(g).wf(),
            final(g)@ == rule_applied(old(g)@, self@),
    {
        let j = self.index;
        proof {
            assert(node_ok(g@, j as int));
        }
        let up = g.nodes[j].grad.dup();
        match g.nodes[j].op {
            None => {},
            Some(Operation::Add) => {
                let a = g.nodes[j].operands[0];
                let b = g.nodes[j].operands[1];
                assert(a as int == g@[j as int].operands[0]);
                assert(b as int == g@[j as int].operands[1]);
                g.accumulate(a, &up);
                g.accumulate(b, &up);
            },
            Some(Operation::Mul) => {
                let a = g.nodes[j].operands[0];
                let b = g.nodes[j].operands[1];
                assert(a as int == g@[j as int].operands[0]);
                assert(b as int == g@[j as int].operands[1]);
                let to_a = g.nodes[b].value.mul(&up);
                let to_b = g.nodes[a].value.mul(&up);
                g.accumulate(a, &to_a);
                g.accumulate(b, &to_b);
            },
            Some(Operation::Tanh) => {
                let a = g.nodes[j].operands[0];
                assert(a as int == g@[j as int].operands[0]);
                let square = g.nodes[j].value.mul(&g.nodes[j].value);
                let to_a = S::one().sub(&square).mul(&up);
                g.accumulate(a, &to_a);
            },
            Some(Operation::Exp) => {
                let a = g.nodes[j].operands[0];
                assert(a as int == g@[j as int].operands[0]);
                let to_a = g.nodes[j].value.mul(&up);
                g.accumulate(a, &to_a);
            },
            Some(Operation::Pow) => {
                let a = g.nodes[j].operands[0];
                let k = g.nodes[j].operands[1];
                assert(a as int == g@[j as int].operands[0]);
                assert(k as int == g@[j as int].operands[1]);
                let lowered = g.nodes[k].value.sub(&S::one());
                let to_a = g.nodes[k].value.mul(&g.nodes[a].value.powf(&lowered)).mul(&up);
                g.accumulate(a, &to_a);
            },
        }
        proof {
            assert(g@ =~= rule_applied(old(g)@, j as int));
            assert(same_structure(old(g)@, g@));
            lemma_structure_keeps_well_formed(old(g)@, g@);
        }
    }

    /// Propagates the gradient that this node holds to everything the node
    /// depends on. Every such node receives, from each of its consumers among
    /// those nodes, that consumer's contribution, computed from the consumer's
    /// final gradient: a node passes its gradient on only when all of its
    /// consumers have contributed, and does so once. The gradient of this
    /// node itself stays as it is; no other gradient changes, and no value or
    /// operand changes at all. Gradients are added to what the nodes held
    /// before.
    pub fn update_gradients<S: Scalar>(self, g: &mut Graph<S>)
        requires
            old(g).wf(),
            old(g).has(self),
        ensures
            final(g).wf(),
            final(g)@ == propagated_from(old(g)@, self@, old(g)@[self@].grad),
            same_structure(old(g)@, final(g)@),
            final(g)@[self@].grad == old(g)@[self@].grad,
            forall|i: int|
                0 <= i < old(g)@.len() && !reached(old(g)@, self@, i) ==> (#[trigger] final(g)@[i]).grad
                    == old(g)@[i].grad,
    {
        let root = self.index;
        let ghost before = g@;
        let ghost seed = before[root as int].grad;
        assert(root < g.nodes@.len());
        let mut pending = unmarked(root);
        pending.push(true);
        let mut k: usize = pending.len();
        while k > 0
            invariant
                k <= root + 1,
                root < before.len(),
                well_formed(before),
                same_structure(before, g@),
                before.len() == g.nodes@.len(),
                pending@.len() == root + 1,
                forall|i: int|
                    0 <= i < before.len() ==> (#[trigger] g@[i]).grad == gradient_after(
                        before,
                        root as int,
                        seed,
                        i,
                        if k > i {
                            k as int
                        } else {
                            i + 1
                        },
                    ),
                forall|i: int|
                    0 <= i < k ==> #[trigger] pending@[i] == awaited(before, root as int, i, k as int),
            decreases k,
        {
            k -= 1;
            proof {
                lemma_awaited_is_reached(before, root as int, k as int);
                lemma_structure_keeps_well_formed(before, g@);
                assert(node_ok(before, k as int));
            }
            if pending[k] {
                let ghost mid = g@;
                Value { index: k }.apply_local_rule(g);
                proof {
                    assert forall|i: int| 0 <= i < before.len() implies (#[trigger] g@[i]).grad
                        == gradient_after(
                        before,
                        root as int,
                        seed,
                        i,
                        if k > i {
                            k as int
                        } else {
                            i + 1
                        },
                    ) by {
                        lemma_absorbed(before, mid, k as int, i, mid[k as int].grad, mid[i].grad);
                    }
                }
                assert(g@.len() == g.nodes@.len());
                assert(g@[k as int].operands == before[k as int].operands);
                let count = g.nodes[k].operands.len();
                let mut s: usize = 0;
                while s < count
                    invariant
                        s <= count,
                        k <= root,
                        k < g.nodes@.len(),
                        k < before.len(),
                        count == g.nodes@[k as int].operands@.len(),
                        positions(g.nodes@[k as int].operands@) == before[k as int].operands,
                        node_ok(before, k as int),
                        pending@.len() == root + 1,
                        forall|i: int|
                            0 <= i < k ==> #[trigger] pending@[i] == (awaited(
                                before,
                                root as int,
                                i,
                                k + 1,
                            ) || exists|t: int| 0 <= t < s && before[k as int].operands[t] == i),
                    decreases count - s,
                {
                    let o = g.nodes[k].operands[s];
                    assert(o as int == before[k as int].operands[s as int]);
                    pending.set(o, true);
                    s += 1;
                }
                proof {
                    assert forall|i: int| 0 <= i < k implies #[trigger] pending@[i] == awaited(
                        before,
                        root as int,
                        i,
                        k as int,
                    ) by {
                        lemma_awaited_step(before, root as int, i, k as int);
                        if before[k as int].operands.contains(i) {
                            let t = choose|t: int|
                                0 <= t < before[k as int].operands.len()
                                    && before[k as int].operands[t] == i;
                            assert(0 <= t < s && before[k as int].operands[t] == i);
                        }
                    }
                }
            } else {
                proof {
                    assert forall|i: int| 0 <= i < k implies #[trigger] pending@[i] == awaited(
                        before,
                        root as int,
                        i,
                        k as int,
                    ) by {
                        lemma_awaited_step(before, root as int, i, k as int);
                    }
                }
            }
        }
        proof {
            assert(g@ =~= propagated_from(before, root as int, seed));
            lemma_structure_keeps_well_formed(before, g@);
            assert forall|i: int|
                0 <= i < before.len() && !reached(before, root as int, i) implies (#[trigger] g@[i]).grad
                == before[i].grad by {
                lemma_unreached_keeps_gradient(before, root as int, seed, i, i + 1);
            }
        }
    }

    /// The backward pass: the gradient of this node is set to one and then
    /// propagated to everything the node depends on. Gradients are added to
    /// what the nodes held before, so a second pass over the same nodes
    /// accumulates.
    pub fn backward<S: Scalar>(self, g: &mut Graph<S>)
        requires
            old(g).wf(),
            old(g).has(self),
        ensures
            final(g).wf(),
            final(g)@ == backpropagated(old(g)@, self@),
            same_structure(old(g)@, final(g)@),
            final(g)@[self@].grad == S::one_spec(),
            forall|i: int|
                0 <= i < old(g)@.len() && !reached(old(g)@, self@, i) ==> (#[trigger] final(g)@[i]).grad
                    == old(g)@[i].grad,
    {
        // First gradient always one: the derivative of a value by itself.
        self.set_grad(g, S::one());
        let ghost seeded = g@;
        self.update_gradients(g);
        proof {
            let before = old(g)@;
            let root = self@;
            assert(same_structure(seeded, before));
            lemma_structure_keeps_well_formed(seeded, before);
            assert forall|i: int| 0 <= i < before.len() implies g@[i] == backpropagated(
                before,
                root,
            )[i] by {
                lemma_seed_replaces_root_gradient(seeded, before, root, S::one_spec(), i, i + 1);
            }
            assert(g@ =~= backpropagated(before, root));
            assert forall|i: int|
                0 <= i < before.len() && !reached(before, root, i) implies (#[trigger] g@[i]).grad
                == before[i].grad by {
                lemma_reached_by_structure(seeded, before, root, if i <= root { i } else { root });
            }
        }
    }
}

} // verus!
