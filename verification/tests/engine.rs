use consistent_sampling::cache::SampleCache;
use consistent_sampling::engine::{collect_sources, sample, SampleError};
use consistent_sampling::graph::{
    BinaryKind, BoolNode, Handle, Node, PredicateKind, TransformKind, UnaryKind,
};
use consistent_sampling::sampler::ScriptedSampler;

fn source(id: u128) -> Node {
    Node::Source { id }
}

fn unary(op: UnaryKind, operand: Node) -> Node {
    Node::Unary { op, operand: Box::new(operand) }
}

fn binary(op: BinaryKind, left: Node, right: Node) -> Node {
    Node::Binary { op, left: Box::new(left), right: Box::new(right) }
}

fn conditional(condition_id: u128, if_true: Node, if_false: Node) -> Node {
    Node::Conditional {
        condition: BoolNode { id: condition_id },
        if_true: Box::new(if_true),
        if_false: Box::new(if_false),
    }
}

fn scripted(id: u128, values: Vec<i64>) -> ScriptedSampler {
    let mut s = ScriptedSampler::new();
    s.add_script(id, values);
    s
}

#[test]
fn end_to_end_doubling() {
    let mut cache = SampleCache::new();
    let mut sampler = scripted(1, vec![1, 2, 3, 4, 5]);
    let handle = Handle {
        id: 100,
        node: unary(UnaryKind::Transform(TransformKind::Scale(2)), source(1)),
    };
    let first = sample(&mut cache, &mut sampler, &handle, 5).unwrap();
    assert_eq!(first, vec![2, 4, 6, 8, 10]);
    let second = sample(&mut cache, &mut sampler, &handle, 5).unwrap();
    assert_eq!(second, first);
    // across both calls the source was drawn only five times
    assert_eq!(sampler.draws_for(1), 5);
}

#[test]
fn determinism_after_cache() {
    let mut cache = SampleCache::new();
    let mut sampler = scripted(2, vec![10, -7, 0, 3]);
    let handle = Handle {
        id: 200,
        node: binary(BinaryKind::Add, source(2), source(2)),
    };
    let first = sample(&mut cache, &mut sampler, &handle, 4).unwrap();
    let second = sample(&mut cache, &mut sampler, &handle, 4).unwrap();
    assert_eq!(first, second);
    assert_eq!(first, vec![20, -14, 0, 6]);
}

#[test]
fn self_correlation_yields_zeros() {
    let mut cache = SampleCache::new();
    let mut sampler = scripted(7, vec![3, -4, 100]);
    let handle = Handle {
        id: 300,
        node: binary(BinaryKind::Subtract, source(7), source(7)),
    };
    let out = sample(&mut cache, &mut sampler, &handle, 3).unwrap();
    assert_eq!(out, vec![0, 0, 0]);
    // the shared source collapsed to one cache entry: three draws, not six
    assert_eq!(sampler.draws_for(7), 3);
}

#[test]
fn shared_subexpression_reads_one_draw() {
    let mut cache = SampleCache::new();
    let mut sampler = scripted(5, vec![4, -2]);
    // 3*x - x: only consistent per-index draws give 2*x
    let handle = Handle {
        id: 400,
        node: binary(
            BinaryKind::Subtract,
            unary(UnaryKind::Transform(TransformKind::Scale(3)), source(5)),
            source(5),
        ),
    };
    let out = sample(&mut cache, &mut sampler, &handle, 2).unwrap();
    assert_eq!(out, vec![8, -4]);
    assert_eq!(sampler.draws_for(5), 2);
}

#[test]
fn count_zero_returns_empty_without_draws() {
    let mut cache = SampleCache::new();
    let mut sampler = scripted(9, vec![1, 2, 3]);
    let handle = Handle {
        id: 500,
        node: unary(UnaryKind::Transform(TransformKind::Negate), source(9)),
    };
    let out = sample(&mut cache, &mut sampler, &handle, 0).unwrap();
    assert!(out.is_empty());
    assert_eq!(sampler.draws_for(9), 0);
}

#[test]
fn count_zero_succeeds_even_with_conditional() {
    let mut cache = SampleCache::new();
    let mut sampler = ScriptedSampler::new();
    let handle = Handle {
        id: 501,
        node: conditional(90, source(91), source(92)),
    };
    let out = sample(&mut cache, &mut sampler, &handle, 0).unwrap();
    assert!(out.is_empty());
}

#[test]
fn conditional_is_unsupported() {
    let mut cache = SampleCache::new();
    let mut sampler = scripted(11, vec![1, 2]);
    let handle = Handle {
        id: 600,
        node: conditional(95, source(11), source(12)),
    };
    let out = sample(&mut cache, &mut sampler, &handle, 2);
    assert_eq!(out, Err(SampleError::UnsupportedConditional));
}

#[test]
fn idempotent_population() {
    let mut cache = SampleCache::new();
    let mut sampler = scripted(13, vec![6, 7, 8]);
    let handle = Handle {
        id: 700,
        node: unary(UnaryKind::Transform(TransformKind::Shift(1)), source(13)),
    };
    let out = sample(&mut cache, &mut sampler, &handle, 3).unwrap();
    assert_eq!(out, vec![7, 8, 9]);
    // a direct probe under the handle's own key sees the returned sequence
    let probed = cache.get(700, 3).expect("root entry must be present");
    assert_eq!(probed, &out);
}

#[test]
fn sources_shared_across_handles_draw_once() {
    let mut cache = SampleCache::new();
    let mut sampler = scripted(21, vec![5, 6, 7]);
    let doubled = Handle {
        id: 800,
        node: unary(UnaryKind::Transform(TransformKind::Scale(2)), source(21)),
    };
    let shifted = Handle {
        id: 801,
        node: unary(UnaryKind::Transform(TransformKind::Shift(100)), source(21)),
    };
    let a = sample(&mut cache, &mut sampler, &doubled, 3).unwrap();
    let b = sample(&mut cache, &mut sampler, &shifted, 3).unwrap();
    assert_eq!(a, vec![10, 12, 14]);
    assert_eq!(b, vec![105, 106, 107]);
    // the common source's draws are shared between the two handles
    assert_eq!(sampler.draws_for(21), 3);
}

#[test]
fn filter_passes_values_through() {
    let mut cache = SampleCache::new();
    let mut sampler = scripted(31, vec![-5, 0, 9]);
    let handle = Handle {
        id: 900,
        node: unary(UnaryKind::Filter(PredicateKind::IsPositive), source(31)),
    };
    let out = sample(&mut cache, &mut sampler, &handle, 3).unwrap();
    assert_eq!(out, vec![-5, 0, 9]);
}

#[test]
fn operators_compute_exact_values() {
    let mut cache = SampleCache::new();
    let mut sampler = scripted(41, vec![6, -3]);
    let handle = Handle {
        id: 1000,
        node: binary(
            BinaryKind::Multiply,
            unary(UnaryKind::Transform(TransformKind::Negate), source(41)),
            unary(UnaryKind::Transform(TransformKind::Shift(2)), source(41)),
        ),
    };
    // -x * (x + 2)
    let out = sample(&mut cache, &mut sampler, &handle, 2).unwrap();
    assert_eq!(out, vec![-48, -3]);
}

#[test]
fn arithmetic_wraps_at_the_extremes() {
    let mut cache = SampleCache::new();
    let mut sampler = scripted(51, vec![i64::MAX]);
    let handle = Handle {
        id: 1100,
        node: unary(UnaryKind::Transform(TransformKind::Shift(1)), source(51)),
    };
    let out = sample(&mut cache, &mut sampler, &handle, 1).unwrap();
    assert_eq!(out, vec![i64::MIN]);
}

#[test]
fn bare_source_handle_coincides_with_its_entry() {
    let mut cache = SampleCache::new();
    let mut sampler = scripted(61, vec![41, 42]);
    let handle = Handle::for_source(61);
    assert_eq!(handle.id, 61);
    let out = sample(&mut cache, &mut sampler, &handle, 2).unwrap();
    assert_eq!(out, vec![41, 42]);
    // the root-level entry and the source entry are one and the same
    let probed = cache.get(61, 2).expect("source entry must be present");
    assert_eq!(probed, &out);
    let again = sample(&mut cache, &mut sampler, &handle, 2).unwrap();
    assert_eq!(again, out);
    assert_eq!(sampler.draws_for(61), 2);
}

#[test]
fn hit_returns_stored_sequence_untouched() {
    let mut cache = SampleCache::new();
    let mut sampler = scripted(71, vec![1, 2, 3]);
    // the root key is already filled: sample must return it and draw nothing
    let stored = cache.get_or_compute(1200, 3, vec![30, 20, 10]);
    assert_eq!(stored, vec![30, 20, 10]);
    let handle = Handle {
        id: 1200,
        node: unary(UnaryKind::Transform(TransformKind::Scale(5)), source(71)),
    };
    let out = sample(&mut cache, &mut sampler, &handle, 3).unwrap();
    assert_eq!(out, vec![30, 20, 10]);
    assert_eq!(sampler.draws_for(71), 0);
}

#[test]
fn separate_counts_are_separate_entries() {
    let mut cache = SampleCache::new();
    let mut sampler = scripted(81, vec![1, 2, 3, 4, 5]);
    let handle = Handle::for_source(81);
    let two = sample(&mut cache, &mut sampler, &handle, 2).unwrap();
    assert_eq!(two, vec![1, 2]);
    // a different count is an independent cache slot, filled by new draws
    let three = sample(&mut cache, &mut sampler, &handle, 3).unwrap();
    assert_eq!(three, vec![3, 4, 5]);
    assert_eq!(sampler.draws_for(81), 5);
}

#[test]
fn collect_sources_deduplicates() {
    let node = binary(
        BinaryKind::Add,
        binary(BinaryKind::Subtract, source(1), source(2)),
        binary(BinaryKind::Multiply, source(2), source(1)),
    );
    let mut ids = collect_sources(&node);
    ids.sort_unstable();
    assert_eq!(ids, vec![1, 2]);
}

#[test]
fn fresh_handles_keep_their_node() {
    let handle = Handle::for_node(source(99));
    match handle.node {
        Node::Source { id } => assert_eq!(id, 99),
        _ => panic!("the node must be kept as given"),
    }
    let other = Handle::for_node(source(99));
    // two freshly drawn root identities virtually never collide
    assert_ne!(handle.id, other.id);
}

#[test]
fn draws_past_a_script_yield_zero() {
    let mut cache = SampleCache::new();
    let mut sampler = scripted(85, vec![9]);
    let handle = Handle::for_source(85);
    let out = sample(&mut cache, &mut sampler, &handle, 3).unwrap();
    assert_eq!(out, vec![9, 0, 0]);
}

#[test]
fn unscripted_sources_draw_zero() {
    let mut cache = SampleCache::new();
    let mut sampler = ScriptedSampler::new();
    let handle = Handle::for_source(77);
    let out = sample(&mut cache, &mut sampler, &handle, 3).unwrap();
    assert_eq!(out, vec![0, 0, 0]);
    // an identity without a script reports no tally
    assert_eq!(sampler.draws_for(77), 0);
}
