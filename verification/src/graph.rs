//! The expression-graph model: immutable trees of sources and operators,
//! and the mathematical meaning of evaluating one node at one sample index
//! against a fixed assignment of per-source draw sequences.

use vstd::prelude::*;

verus! {

/// A value-to-value step that a transform node applies to its operand.
#[derive(Clone, Copy, PartialEq, Eq, Structural, Debug)]
pub enum TransformKind {
    /// `v` becomes `-v` (wrapping at the extremes of `i64`).
    Negate,
    /// `v` becomes `v + c` (wrapping).
    Shift(i64),
    /// `v` becomes `v * c` (wrapping).
    Scale(i64),
}

/// A predicate that a filter node carries. The evaluator passes the operand
/// value through unchanged; rejection and resampling are a concern of the
/// layers above this engine, so the predicate is held but never consulted.
#[derive(Clone, Copy, PartialEq, Eq, Structural, Debug)]
pub enum PredicateKind {
    IsPositive,
    AtLeast(i64),
}

/// The two unary node flavours.
#[derive(Clone, Copy, PartialEq, Eq, Structural, Debug)]
pub enum UnaryKind {
    /// Transform the operand's value.
    Transform(TransformKind),
    /// Pass the operand's value through unchanged.
    Filter(PredicateKind),
}

/// The binary operators, all wrapping on `i64`.
#[derive(Clone, Copy, PartialEq, Eq, Structural, Debug)]
pub enum BinaryKind {
    Add,
    Subtract,
    Multiply,
}

/// A condition of a `Conditional` node: a graph over boolean draws, with its
/// own source identity. This engine provides no evaluation rule for nodes
/// over booleans, so the condition is held purely structurally.
#[derive(Clone, Copy, PartialEq, Eq, Structural, Debug)]
pub struct BoolNode {
    pub id: u128,
}

/// One node of an expression graph. Nodes are immutable; sharing a
/// sub-expression between several parents is expressed by giving both
/// occurrences the same source identities, which is what the sample cache
/// keys on.
#[derive(Debug)]
#[allow(inconsistent_fields)]
pub enum Node {
    /// A leaf: one independent random draw, with a stable identity that is
    /// the cache key for its own drawn sequences.
    Source { id: u128 },
    /// A one-operand step.
    Unary { op: UnaryKind, operand: Box<Node> },
    /// A two-operand step. Both operands are always evaluated, so that both
    /// stay aligned with the same draws.
    Binary { op: BinaryKind, left: Box<Node>, right: Box<Node> },
    /// A branch on a boolean sub-graph. The engine has no evaluation rule
    /// for it and reports it as unsupported when reached.
    Conditional { condition: BoolNode, if_true: Box<Node>, if_false: Box<Node> },
}

/// The externally visible uncertain value: a graph root paired with its own
/// identity, the cache key for the fully evaluated root-level sequence. The
/// root identity is distinct from every source identity inside the tree,
/// except when the handle wraps a bare source, where the two coincide by
/// construction.
#[derive(Debug)]
pub struct Handle {
    pub id: u128,
    pub node: Node,
}

/// What one transform step means.
pub open spec fn transform_val(k: TransformKind, v: i64) -> i64 {
    match k {
        TransformKind::Negate => (0i64).wrapping_sub(v),
        TransformKind::Shift(c) => v.wrapping_add(c),
        TransformKind::Scale(c) => v.wrapping_mul(c),
    }
}

/// What one unary node means, given its operand's value.
pub open spec fn unary_val(k: UnaryKind, v: i64) -> i64 {
    match k {
        UnaryKind::Transform(t) => transform_val(t, v),
        UnaryKind::Filter(_) => v,
    }
}

/// What one binary node means, given its operands' values.
pub open spec fn binary_val(k: BinaryKind, a: i64, b: i64) -> i64 {
    match k {
        BinaryKind::Add => a.wrapping_add(b),
        BinaryKind::Subtract => a.wrapping_sub(b),
        BinaryKind::Multiply => a.wrapping_mul(b),
    }
}

/// Apply one unary step to an operand's value.
pub fn apply_unary(k: UnaryKind, v: i64) -> (r: i64)
    ensures
        r == unary_val(k, v),
{
    match k {
        UnaryKind::Transform(t) => match t {
            TransformKind::Negate => (0i64).wrapping_sub(v),
            TransformKind::Shift(c) => v.wrapping_add(c),
            TransformKind::Scale(c) => v.wrapping_mul(c),
        },
        UnaryKind::Filter(_) => v,
    }
}

/// Apply one binary operator to two operands' values.
pub fn apply_binary(k: BinaryKind, a: i64, b: i64) -> (r: i64)
    ensures
        r == binary_val(k, a, b),
{
    match k {
        BinaryKind::Add => a.wrapping_add(b),
        BinaryKind::Subtract => a.wrapping_sub(b),
        BinaryKind::Multiply => a.wrapping_mul(b),
    }
}

impl Node {
    /// The identities of every source reachable from this node. Sources of
    /// boolean conditions are not included: conditions are never evaluated,
    /// so their draws are never forced.
    pub open spec fn source_ids(self) -> Set<u128>
        decreases self,
    {
        match self {
            Node::Source { id } => set![id],
            Node::Unary { operand, .. } => operand.source_ids(),
            Node::Binary { left, right, .. } => left.source_ids().union(right.source_ids()),
            Node::Conditional { if_true, if_false, .. } => if_true.source_ids().union(
                if_false.source_ids(),
            ),
        }
    }

    /// Whether a conditional node occurs anywhere in this tree. Evaluation
    /// succeeds exactly on trees without one.
    pub open spec fn has_conditional(self) -> bool
        decreases self,
    {
        match self {
            Node::Source { .. } => false,
            Node::Unary { operand, .. } => operand.has_conditional(),
            Node::Binary { left, right, .. } => left.has_conditional() || right.has_conditional(),
            Node::Conditional { .. } => true,
        }
    }
}

/// The value of `node` at sample index `idx`, when every source identity the
/// node reaches is assigned a draw sequence by `draws`. Every occurrence of
/// one identity reads the same `draws[id][idx]`: this single definition is
/// what makes repeated references to a source correlated. Meaningful only
/// for trees without a conditional whose sources `draws` covers at `idx`.
pub open spec fn node_val(node: Node, draws: Map<u128, Seq<i64>>, idx: int) -> i64
    decreases node,
{
    match node {
        Node::Source { id } => draws[id][idx],
        Node::Unary { op, operand } => unary_val(op, node_val(*operand, draws, idx)),
        Node::Binary { op, left, right } => binary_val(
            op,
            node_val(*left, draws, idx),
            node_val(*right, draws, idx),
        ),
        Node::Conditional { .. } => arbitrary(),
    }
}

/// The value of a node is settled by the draws of the sources it reaches:
/// two assignments that agree on every reachable source identity give the
/// node the same value at every index.
pub proof fn lemma_node_val_agrees(node: Node, d1: Map<u128, Seq<i64>>, d2: Map<u128, Seq<i64>>, idx: int)
    requires
        forall|id: u128| #[trigger]
            node.source_ids().contains(id) ==> d1.contains_key(id) && d2.contains_key(id)
                && d1[id] == d2[id],
        !node.has_conditional(),
    ensures
        node_val(node, d1, idx) == node_val(node, d2, idx),
    decreases node,
{
    match node {
        Node::Source { id } => {
            assert(node.source_ids().contains(id));
        }
        Node::Unary { op, operand } => {
            assert(node.source_ids() == operand.source_ids());
            lemma_node_val_agrees(*operand, d1, d2, idx);
        }
        Node::Binary { op, left, right } => {
            assert(node.source_ids() == left.source_ids().union(right.source_ids()));
            assert forall|id: u128| left.source_ids().contains(id) implies node.source_ids().contains(
                id,
            ) by {}
            assert forall|id: u128| right.source_ids().contains(id) implies node.source_ids().contains(
                id,
            ) by {}
            lemma_node_val_agrees(*left, d1, d2, idx);
            lemma_node_val_agrees(*right, d1, d2, idx);
        }
        Node::Conditional { .. } => {}
    }
}

impl Handle {
    /// A handle's identity names the fully evaluated root-level sequence,
    /// so it must not collide with the identity of a source inside the
    /// tree — except as the identity of the tree itself, when the handle
    /// wraps a bare source.
    pub open spec fn wf(self) -> bool {
        self.node.source_ids().contains(self.id) ==> self.node == (Node::Source { id: self.id })
    }

    /// A handle that wraps a bare source: the handle's identity and the
    /// source's identity coincide, so the root-level cache entry and the
    /// source's own cache entry are one and the same.
    pub fn for_source(id: u128) -> (h: Handle)
        ensures
            h.id == id,
            h.node == (Node::Source { id }),
            h.wf(),
    {
        Handle { id, node: Node::Source { id } }
    }

    /// A handle for an arbitrary graph root, under a freshly drawn
    /// identity. The identity is random, so nothing proves it distinct
    /// from the sources inside the tree: value-level conclusions about the
    /// produced samples rest on the validity predicate above, which this
    /// constructor cannot promise. Where that matters, build the handle
    /// with an identity chosen away from the source identities.
    pub fn for_node(node: Node) -> (h: Handle)
        ensures
            h.node == node,
    {
        Handle { id: crate::ident::fresh_id(), node }
    }
}

} // verus!
