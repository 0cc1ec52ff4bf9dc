//! The correlation laws of the engine, stated and proved over the graph's
//! mathematical evaluation. Together with the contract of
//! `engine::sample` — whose produced values are exactly `node_val` over
//! the cached draws — they carry over to every produced sample.

use crate::graph::{binary_val, node_val, unary_val, BinaryKind, Node, UnaryKind};
use vstd::prelude::*;

verus! {

/// Self-correlation: the difference of two references to one source is
/// exactly zero at every sample index, whatever the draws are. Both
/// occurrences read the same cached draw, so the subtraction cancels —
/// they are never two independent draws.
pub proof fn lemma_self_correlation(n: Node, id: u128, draws: Map<u128, Seq<i64>>, idx: int)
    requires
        ({
            &&& n matches Node::Binary { op, left, right }
            &&& op == BinaryKind::Subtract
            &&& *left == (Node::Source { id })
            &&& *right == (Node::Source { id })
        }),
    ensures
        node_val(n, draws, idx) == 0,
{
}

/// Self-correlation, for a whole produced sequence: any sequence whose
/// entries are the per-index evaluations of a self-subtraction graph — as
/// the engine's produced sequences are, by its contract — is all zeros,
/// whatever its length and whatever the draws were.
pub proof fn lemma_self_correlation_sequence(
    n: Node,
    id: u128,
    draws: Map<u128, Seq<i64>>,
    out: Seq<i64>,
)
    requires
        ({
            &&& n matches Node::Binary { op, left, right }
            &&& op == BinaryKind::Subtract
            &&& *left == (Node::Source { id })
            &&& *right == (Node::Source { id })
        }),
        forall|i: int| 0 <= i < out.len() ==> out[i] == node_val(n, draws, i),
    ensures
        forall|i: int| 0 <= i < out.len() ==> out[i] == 0,
{
    assert forall|i: int| 0 <= i < out.len() implies out[i] == 0 by {
        lemma_self_correlation(n, id, draws, i);
    }
}

/// Shared-subexpression correlation: when both operands of a binary node
/// are one-step functions of the same source, evaluating either operand at
/// index `idx` reads the identical draw `draws[id][idx]` — the value
/// handed to `f` is the value handed to `g`.
pub proof fn lemma_shared_subexpression(
    n: Node,
    f: UnaryKind,
    g: UnaryKind,
    op: BinaryKind,
    id: u128,
    draws: Map<u128, Seq<i64>>,
    idx: int,
)
    requires
        ({
            &&& n matches Node::Binary { op: o, left, right }
            &&& o == op
            &&& *left matches Node::Unary { op: fo, operand: fsrc }
            &&& fo == f
            &&& *fsrc == (Node::Source { id })
            &&& *right matches Node::Unary { op: go, operand: gsrc }
            &&& go == g
            &&& *gsrc == (Node::Source { id })
        }),
    ensures
        node_val(n, draws, idx) == binary_val(
            op,
            unary_val(f, draws[id][idx]),
            unary_val(g, draws[id][idx]),
        ),
{
    match n {
        Node::Binary { op: o, left, right } => {
            match *left {
                Node::Unary { op: fo, operand: fsrc } => {
                    assert(node_val(*fsrc, draws, idx) == draws[id][idx]);
                    assert(node_val(*left, draws, idx) == unary_val(f, draws[id][idx]));
                },
                _ => {},
            }
            match *right {
                Node::Unary { op: go, operand: gsrc } => {
                    assert(node_val(*gsrc, draws, idx) == draws[id][idx]);
                    assert(node_val(*right, draws, idx) == unary_val(g, draws[id][idx]));
                },
                _ => {},
            }
        },
        _ => {},
    }
}

} // verus!


