//! The consistent evaluator: given a graph handle and a count, make sure
//! every reachable source has a cached sequence of that length, then
//! evaluate the graph once per sample index against those cached draws, so
//! that every occurrence of one source sees the same draw at the same
//! index.

use crate::cache::{copy_values, SampleCache};
use crate::graph::{apply_binary, apply_unary, lemma_node_val_agrees, node_val, Handle, Node};
use crate::sampler::{
    drawn_for, lemma_drawn_for_push, lemma_prefix_push, lemma_prefix_refl, lemma_prefix_trans,
    times_drawn, Sampler,
};
use vstd::prelude::*;

verus! {

/// The one failure this engine signals: a conditional node was reached, and
/// the engine has no evaluation rule for graphs over booleans.
#[derive(Clone, Copy, PartialEq, Eq, Structural, Debug)]
pub enum SampleError {
    UnsupportedConditional,
}

/// Identity `id` has a stored sequence of length `count` in the cache view
/// `c`.
pub open spec fn covered(c: Map<(u128, nat), Seq<i64>>, id: u128, count: nat) -> bool {
    c.contains_key((id, count)) && c[(id, count)].len() == count
}

/// Every identity of `ids` has a stored sequence of length `count` in the
/// cache view `c`.
pub open spec fn covers(c: Map<(u128, nat), Seq<i64>>, ids: Set<u128>, count: nat) -> bool {
    forall|id: u128| #[trigger] ids.contains(id) ==> covered(c, id, count)
}

/// The per-source draw sequences of length `count` that the cache view `c`
/// assigns: the map each evaluation pass replays the graph against.
pub open spec fn sources_at(c: Map<(u128, nat), Seq<i64>>, count: nat) -> Map<u128, Seq<i64>> {
    Map::new(|id: u128| c.contains_key((id, count)), |id: u128| c[(id, count)])
}

/// Whether `id` occurs in `ids`.
fn contains_id(ids: &Vec<u128>, id: u128) -> (r: bool)
    ensures
        r == ids@.contains(id),
{
    let mut i: usize = 0;
    while i < ids.len()
        invariant
            i <= ids@.len(),
            forall|j: int| 0 <= j < i ==> ids@[j] != id,
        decreases ids@.len() - i,
    {
        if ids[i] == id {
            return true;
        }
        i = i + 1;
    }
    false
}

/// Discover the identity of every source reachable from `node`, each one
/// once, however often the source occurs: a source referenced under several
/// parents must collapse to a single entry, or its draws would be forced
/// more than once and the correlation guarantee would be lost.
pub fn collect_sources(node: &Node) -> (ids: Vec<u128>)
    ensures
        forall|id: u128| #[trigger] ids@.contains(id) <==> node.source_ids().contains(id),
        forall|a: int, b: int| 0 <= a < b < ids@.len() ==> ids@[a] != ids@[b],
{
    let mut ids: Vec<u128> = Vec::new();
    collect_sources_into(node, &mut ids);
    ids
}

fn collect_sources_into(node: &Node, ids: &mut Vec<u128>)
    requires
        forall|a: int, b: int| 0 <= a < b < old(ids)@.len() ==> old(ids)@[a] != old(ids)@[b],
    ensures
        forall|id: u128| #[trigger]
            final(ids)@.contains(id) <==> old(ids)@.contains(id) || node.source_ids().contains(id),
        forall|a: int, b: int|
            0 <= a < b < final(ids)@.len() ==> final(ids)@[a] != final(ids)@[b],
    decreases node,
{
    match node {
        Node::Source { id } => {
            proof {
                assert(node.source_ids() == set![*id]);
            }
            if !contains_id(ids, *id) {
                let ghost pre = ids@;
                ids.push(*id);
                proof {
                    assert forall|e: u128| #[trigger]
                        ids@.contains(e) implies pre.contains(e) || node.source_ids().contains(
                        e,
                    ) by {
                        let j = choose|j: int| 0 <= j < ids@.len() && ids@[j] == e;
                        if j < pre.len() {
                            assert(pre[j] == e);
                        } else {
                            assert(ids@[j] == *id);
                        }
                    }
                    assert forall|e: u128|
                        pre.contains(e) || node.source_ids().contains(e) implies #[trigger] ids@.contains(
                        e,
                    ) by {
                        if pre.contains(e) {
                            let j = choose|j: int| 0 <= j < pre.len() && pre[j] == e;
                            assert(ids@[j] == e);
                        } else {
                            assert(ids@[pre.len() as int] == *id);
                        }
                    }
                    assert forall|a: int, b: int|
                        0 <= a < b < ids@.len() implies ids@[a] != ids@[b] by {
                        if b == ids@.len() - 1 {
                            assert(ids@[a] == pre[a]);
                            assert(pre.contains(pre[a]));
                        }
                    }
                }
            }
        },
        Node::Unary { operand, .. } => {
            proof {
                assert(node.source_ids() == operand.source_ids());
            }
            collect_sources_into(operand, ids);
        },
        Node::Binary { left, right, .. } => {
            proof {
                assert(node.source_ids() == left.source_ids().union(right.source_ids()));
            }
            collect_sources_into(left, ids);
            collect_sources_into(right, ids);
        },
        Node::Conditional { if_true, if_false, .. } => {
            proof {
                assert(node.source_ids() == if_true.source_ids().union(if_false.source_ids()));
            }
            collect_sources_into(if_true, ids);
            collect_sources_into(if_false, ids);
        },
    }
}

/// Draw `count` values for source `id`, one call per value: what comes
/// back is exactly the values those draws returned, in order.
fn draw_source_values<S: Sampler>(sampler: &mut S, id: u128, count: usize) -> (vals: Vec<i64>)
    ensures
        vals@.len() == count as nat,
        old(sampler).wf() ==> final(sampler).wf() && final(sampler).config() == old(
            sampler,
        ).config(),
        old(sampler).log().is_prefix_of(final(sampler).log()),
        drawn_for(final(sampler).log(), id) == drawn_for(old(sampler).log(), id) + vals@,
        forall|x: u128|
            x != id ==> drawn_for(final(sampler).log(), x) == drawn_for(old(sampler).log(), x),
        forall|x: u128|
            times_drawn(final(sampler).log(), x) == times_drawn(old(sampler).log(), x) + if x == id {
                count as nat
            } else {
                0nat
            },
        count == 0 ==> final(sampler).log() == old(sampler).log(),
{
    let mut vals: Vec<i64> = Vec::new();
    let mut i: usize = 0;
    proof {
        lemma_prefix_refl(sampler.log());
        assert(drawn_for(sampler.log(), id) + vals@ =~= drawn_for(sampler.log(), id));
    }
    while i < count
        invariant
            i <= count,
            vals@.len() == i as nat,
            i == 0 ==> sampler.log() == old(sampler).log(),
            old(sampler).wf() ==> sampler.wf() && sampler.config() == old(sampler).config(),
            old(sampler).log().is_prefix_of(sampler.log()),
            drawn_for(sampler.log(), id) == drawn_for(old(sampler).log(), id) + vals@,
            forall|x: u128|
                x != id ==> drawn_for(sampler.log(), x) == drawn_for(old(sampler).log(), x),
        decreases count - i,
    {
        let ghost pre = sampler.log();
        let ghost vals_pre = vals@;
        let v = sampler.draw(id);
        proof {
            assert forall|x: u128|
                x != id implies drawn_for(sampler.log(), x) == drawn_for(
                old(sampler).log(),
                x,
            ) by {
                lemma_drawn_for_push(pre, (id, v), x);
            }
            lemma_drawn_for_push(pre, (id, v), id);
            assert((drawn_for(old(sampler).log(), id) + vals_pre).push(v) =~= drawn_for(
                old(sampler).log(),
                id,
            ) + vals_pre.push(v));
            lemma_prefix_push(pre, (id, v));
            lemma_prefix_trans(old(sampler).log(), pre, sampler.log());
        }
        vals.push(v);
        i = i + 1;
    }
    vals
}

/// Make sure `(id, count)` is populated: on a miss, draw `count` values for
/// `id` and store them; on a hit, touch nothing — the at-most-once compute
/// guarantee per key.
fn ensure_source<S: Sampler>(cache: &mut SampleCache, sampler: &mut S, id: u128, count: usize)
    requires
        old(cache).wf(),
    ensures
        final(cache).wf(),
        old(sampler).wf() ==> final(sampler).wf() && final(sampler).config() == old(
            sampler,
        ).config(),
        final(cache)@.contains_key((id, count as nat)),
        final(cache)@[(id, count as nat)].len() == count as nat,
        forall|k: (u128, nat)| #[trigger]
            old(cache)@.contains_key(k) ==> final(cache)@.contains_key(k) && final(cache)@[k]
                == old(cache)@[k],
        forall|k: (u128, nat)| #[trigger]
            final(cache)@.contains_key(k) ==> old(cache)@.contains_key(k) || k == (
            id,
            count as nat,
        ),
        old(sampler).log().is_prefix_of(final(sampler).log()),
        old(cache)@.contains_key((id, count as nat)) ==> final(cache)@ == old(cache)@
            && final(sampler).log() == old(sampler).log(),
        !old(cache)@.contains_key((id, count as nat)) ==> forall|x: u128|
            times_drawn(final(sampler).log(), x) == times_drawn(old(sampler).log(), x) + if x
                == id {
                count as nat
            } else {
                0nat
            },
        !old(cache)@.contains_key((id, count as nat)) ==> drawn_for(final(sampler).log(), id)
            == drawn_for(old(sampler).log(), id) + final(cache)@[(id, count as nat)],
        forall|x: u128|
            x != id ==> drawn_for(final(sampler).log(), x) == drawn_for(old(sampler).log(), x),
        count == 0 ==> final(sampler).log() == old(sampler).log(),
{
    let present = cache.get(id, count).is_some();
    if present {
        proof {
            lemma_prefix_refl(sampler.log());
        }
        return;
    }
    let vals = draw_source_values(sampler, id, count);
    let _ = cache.get_or_compute(id, count, vals);
}

/// Evaluate `node` at sample index `idx`, reading, for every source
/// occurrence, the cached value at `idx` — never invoking any draw. Fails
/// exactly when the tree holds a conditional node.
fn eval_at(node: &Node, cache: &SampleCache, count: usize, idx: usize) -> (r: Result<
    i64,
    SampleError,
>)
    requires
        cache.wf(),
        idx < count,
        covers(cache@, node.source_ids(), count as nat),
    ensures
        r is Ok <==> !node.has_conditional(),
        r matches Ok(v) ==> v == node_val(*node, sources_at(cache@, count as nat), idx as int),
    decreases node,
{
    match node {
        Node::Source { id } => {
            proof {
                assert(node.source_ids().contains(*id));
            }
            match cache.get(*id, count) {
                Some(v) => Ok(v[idx]),
                None => {
                    proof {
                        assert(false);
                    }
                    Err(SampleError::UnsupportedConditional)
                },
            }
        },
        Node::Unary { op, operand } => {
            proof {
                assert(node.source_ids() == operand.source_ids());
            }
            match eval_at(operand, cache, count, idx) {
                Ok(a) => Ok(apply_unary(*op, a)),
                Err(e) => Err(e),
            }
        },
        Node::Binary { op, left, right } => {
            proof {
                assert(node.source_ids() == left.source_ids().union(right.source_ids()));
                assert forall|id: u128| left.source_ids().contains(id) implies node.source_ids().contains(
                    id,
                ) by {}
                assert forall|id: u128| right.source_ids().contains(id) implies node.source_ids().contains(
                    id,
                ) by {}
            }
            match eval_at(left, cache, count, idx) {
                Ok(a) => match eval_at(right, cache, count, idx) {
                    Ok(b) => Ok(apply_binary(*op, a, b)),
                    Err(e) => Err(e),
                },
                Err(e) => Err(e),
            }
        },
        Node::Conditional { .. } => Err(SampleError::UnsupportedConditional),
    }
}

/// Produce `count` correlated samples of `handle`'s graph.
///
/// A hit on `(handle.id, count)` returns the stored sequence untouched and
/// draws nothing, so a second call for the same handle and count returns
/// the same sequence, value for value. On a miss, every reachable source is
/// populated at length `count` first — drawing only for sources whose key
/// was absent — then the graph is evaluated once per sample index against
/// those cached draws, and the result is stored under the handle's own
/// identity.
#[verifier::loop_isolation(false)]
pub fn sample<S: Sampler>(
    cache: &mut SampleCache,
    sampler: &mut S,
    handle: &Handle,
    count: usize,
) -> (r: Result<Vec<i64>, SampleError>)
    requires
        old(cache).wf(),
    ensures
        final(cache).wf(),
        old(sampler).wf() ==> final(sampler).wf() && final(sampler).config() == old(
            sampler,
        ).config(),
        forall|k: (u128, nat)| #[trigger]
            old(cache)@.contains_key(k) ==> final(cache)@.contains_key(k) && final(cache)@[k]
                == old(cache)@[k],
        forall|k: (u128, nat)| #[trigger]
            final(cache)@.contains_key(k) ==> old(cache)@.contains_key(k) || (k.1 == count as nat
                && (k.0 == handle.id || handle.node.source_ids().contains(k.0))),
        r is Ok <==> (old(cache)@.contains_key((handle.id, count as nat)) || count == 0
            || !handle.node.has_conditional()),
        old(cache)@.contains_key((handle.id, count as nat)) ==> final(cache)@ == old(cache)@
            && final(sampler).log() == old(sampler).log() && (r matches Ok(v) && v@ == old(
            cache,
        )@[(handle.id, count as nat)]),
        r matches Ok(v) ==> v@.len() == count as nat && final(cache)@.contains_key(
            (handle.id, count as nat),
        ) && final(cache)@[(handle.id, count as nat)] == v@,
        !old(cache)@.contains_key((handle.id, count as nat)) && r is Ok ==> covers(
            final(cache)@,
            handle.node.source_ids(),
            count as nat,
        ),
        r matches Ok(v) ==> (!old(cache)@.contains_key((handle.id, count as nat)) && handle.wf()
            ==> forall|i: int|
            0 <= i < count ==> v@[i] == node_val(
                handle.node,
                sources_at(final(cache)@, count as nat),
                i,
            )),
        old(sampler).log().is_prefix_of(final(sampler).log()),
        forall|x: u128|
            times_drawn(final(sampler).log(), x) == times_drawn(old(sampler).log(), x) + if !old(
                cache,
            )@.contains_key((handle.id, count as nat)) && handle.node.source_ids().contains(x)
                && !old(cache)@.contains_key((x, count as nat)) {
                count as nat
            } else {
                0nat
            },
        forall|x: u128|
            (!old(cache)@.contains_key((handle.id, count as nat))
                && handle.node.source_ids().contains(x) && !old(cache)@.contains_key(
                (x, count as nat),
            )) ==> drawn_for(final(sampler).log(), x) == drawn_for(old(sampler).log(), x)
                + final(cache)@[(x, count as nat)],
        forall|x: u128|
            !(!old(cache)@.contains_key((handle.id, count as nat))
                && handle.node.source_ids().contains(x) && !old(cache)@.contains_key(
                (x, count as nat),
            )) ==> drawn_for(final(sampler).log(), x) == drawn_for(old(sampler).log(), x),
        count == 0 ==> final(sampler).log() == old(sampler).log(),
{
    let probe = cache.get(handle.id, count);
    if let Some(v) = probe {
        let out = copy_values(v);
        proof {
            lemma_prefix_refl(sampler.log());
        }
        return Ok(out);
    }
    let ids = collect_sources(&handle.node);
    let mut k: usize = 0;
    proof {
        lemma_prefix_refl(sampler.log());
    }
    while k < ids.len()
        invariant
            old(cache).wf(),
            cache.wf(),
            k <= ids@.len(),
            forall|id: u128| #[trigger] ids@.contains(id) <==> handle.node.source_ids().contains(id),
            forall|a: int, b: int| 0 <= a < b < ids@.len() ==> ids@[a] != ids@[b],
            !old(cache)@.contains_key((handle.id, count as nat)),
            forall|j: int| 0 <= j < k ==> #[trigger] covered(cache@, ids@[j], count as nat),
            forall|k2: (u128, nat)| #[trigger]
                old(cache)@.contains_key(k2) ==> cache@.contains_key(k2) && cache@[k2] == old(
                    cache,
                )@[k2],
            forall|k2: (u128, nat)| #[trigger]
                cache@.contains_key(k2) ==> old(cache)@.contains_key(k2) || exists|j: int|
                    0 <= j < k && k2 == (ids@[j], count as nat),
            old(sampler).wf() ==> sampler.wf() && sampler.config() == old(sampler).config(),
            old(sampler).log().is_prefix_of(sampler.log()),
            forall|x: u128|
                ((exists|j: int| 0 <= j < k && ids@[j] == x) && !old(cache)@.contains_key(
                    (x, count as nat),
                )) ==> drawn_for(sampler.log(), x) == drawn_for(old(sampler).log(), x) + cache@[
                    (x, count as nat)
                ],
            forall|x: u128|
                !((exists|j: int| 0 <= j < k && ids@[j] == x) && !old(cache)@.contains_key(
                    (x, count as nat),
                )) ==> drawn_for(sampler.log(), x) == drawn_for(old(sampler).log(), x),
            count == 0 ==> sampler.log() == old(sampler).log(),
        decreases ids@.len() - k,
    {
        let id = ids[k];
        let ghost pre_cache = cache@;
        let ghost pre_log = sampler.log();
        ensure_source(cache, sampler, id, count);
        proof {
            lemma_prefix_trans(old(sampler).log(), pre_log, sampler.log());
            // whether this key was present at this turn is settled at entry:
            // the loop only ever adds keys of other, distinct identities
            assert(pre_cache.contains_key((id, count as nat)) <==> old(cache)@.contains_key(
                (id, count as nat),
            )) by {
                if pre_cache.contains_key((id, count as nat)) && !old(cache)@.contains_key(
                    (id, count as nat),
                ) {
                    let j = choose|j: int| 0 <= j < k && (id, count as nat) == (
                        ids@[j],
                        count as nat,
                    );
                    assert(ids@[j] == ids@[k as int]);
                    assert(false);
                }
            }
            assert forall|j: int|
                0 <= j < k + 1 implies #[trigger] covered(cache@, ids@[j], count as nat) by {
                if j < k {
                    assert(covered(pre_cache, ids@[j], count as nat));
                    assert(pre_cache.contains_key((ids@[j], count as nat)));
                    assert(cache@.contains_key((ids@[j], count as nat)) && cache@[(ids@[j],
                    count as nat)] == pre_cache[(ids@[j], count as nat)]);
                } else {
                    assert(ids@[j] == id);
                }
            }
            assert forall|k2: (u128, nat)| #[trigger]
                cache@.contains_key(k2) implies old(cache)@.contains_key(k2) || exists|j: int|
                    0 <= j < k + 1 && k2 == (ids@[j], count as nat) by {
                if pre_cache.contains_key(k2) {
                    if !old(cache)@.contains_key(k2) {
                        let j = choose|j: int| 0 <= j < k && k2 == (ids@[j], count as nat);
                        assert(0 <= j < k + 1 && k2 == (ids@[j], count as nat));
                    }
                } else {
                    assert(k2 == (ids@[k as int], count as nat));
                    assert(0 <= k < k + 1 && k2 == (ids@[k as int], count as nat));
                }
            }
            assert forall|x: u128|
                ((exists|j: int| 0 <= j < k + 1 && ids@[j] == x) && !old(cache)@.contains_key(
                    (x, count as nat),
                )) implies drawn_for(sampler.log(), x) == drawn_for(old(sampler).log(), x)
                + cache@[(x, count as nat)] by {
                if x == id {
                    if exists|j: int| 0 <= j < k && ids@[j] == x {
                        let j = choose|j: int| 0 <= j < k && ids@[j] == x;
                        assert(ids@[j] == ids@[k as int]);
                        assert(false);
                    }
                    assert(drawn_for(pre_log, x) == drawn_for(old(sampler).log(), x));
                } else {
                    let j = choose|j: int| 0 <= j < k + 1 && ids@[j] == x;
                    assert(j < k);
                    assert(exists|j2: int| 0 <= j2 < k && ids@[j2] == x);
                    assert(covered(pre_cache, ids@[j], count as nat));
                    assert(pre_cache.contains_key((x, count as nat)));
                    assert(cache@.contains_key((x, count as nat)) && cache@[(x, count as nat)]
                        == pre_cache[(x, count as nat)]);
                }
            }
            assert forall|x: u128|
                !((exists|j: int| 0 <= j < k + 1 && ids@[j] == x) && !old(cache)@.contains_key(
                    (x, count as nat),
                )) implies drawn_for(sampler.log(), x) == drawn_for(old(sampler).log(), x) by {
                if x == id {
                    assert(ids@[k as int] == x);
                    assert(exists|j: int| 0 <= j < k + 1 && ids@[j] == x);
                    assert(old(cache)@.contains_key((x, count as nat)));
                    assert(pre_cache.contains_key((x, count as nat)));
                    assert(sampler.log() == pre_log);
                } else {
                    assert((exists|j: int| 0 <= j < k + 1 && ids@[j] == x) <==> (exists|j: int|
                        0 <= j < k && ids@[j] == x)) by {
                        if exists|j: int| 0 <= j < k + 1 && ids@[j] == x {
                            let j = choose|j: int| 0 <= j < k + 1 && ids@[j] == x;
                            if j == k {
                                assert(false);
                            } else {
                                assert(0 <= j < k && ids@[j] == x);
                            }
                        }
                    }
                }
            }
        }
        k = k + 1;
    }
    proof {
        assert forall|id: u128| #[trigger]
            handle.node.source_ids().contains(id) implies covered(cache@, id, count as nat) by {
            assert(ids@.contains(id));
            let j = choose|j: int| 0 <= j < ids@.len() && ids@[j] == id;
            assert(covered(cache@, ids@[j], count as nat));
        }
        assert(covers(cache@, handle.node.source_ids(), count as nat));
        // restate the drawn values over the reachable identities themselves
        assert forall|x: u128|
            (handle.node.source_ids().contains(x) && !old(cache)@.contains_key(
                (x, count as nat),
            )) implies drawn_for(sampler.log(), x) == drawn_for(old(sampler).log(), x) + cache@[
            (x, count as nat)
        ] by {
            assert(ids@.contains(x));
            let j = choose|j: int| 0 <= j < ids@.len() && ids@[j] == x;
            assert(exists|j2: int| 0 <= j2 < ids@.len() && ids@[j2] == x);
        }
        assert forall|x: u128|
            !(handle.node.source_ids().contains(x) && !old(cache)@.contains_key(
                (x, count as nat),
            )) implies drawn_for(sampler.log(), x) == drawn_for(old(sampler).log(), x) by {
            if exists|j: int| 0 <= j < ids@.len() && ids@[j] == x {
                if !handle.node.source_ids().contains(x) {
                    let j = choose|j: int| 0 <= j < ids@.len() && ids@[j] == x;
                    assert(ids@.contains(x));
                    assert(false);
                }
            }
        }
    }
    let ghost cache_mid = cache@;
    let ghost log_mid = sampler.log();
    proof {
        assert(forall|k2: (u128, nat)| #[trigger]
            old(cache)@.contains_key(k2) ==> cache_mid.contains_key(k2) && cache_mid[k2] == old(
                cache,
            )@[k2]);
        assert forall|k2: (u128, nat)| #[trigger]
            cache_mid.contains_key(k2) implies old(cache)@.contains_key(k2) || (k2.1
            == count as nat && (k2.0 == handle.id || handle.node.source_ids().contains(
            k2.0,
        ))) by {
            if !old(cache)@.contains_key(k2) {
                let j = choose|j: int| 0 <= j < ids@.len() && k2 == (ids@[j], count as nat);
                assert(ids@.contains(ids@[j]));
            }
        }
        assert(forall|x: u128|
            (handle.node.source_ids().contains(x) && !old(cache)@.contains_key(
                (x, count as nat),
            )) ==> drawn_for(log_mid, x) == drawn_for(old(sampler).log(), x) + cache_mid[
                (x, count as nat)
            ]);
        assert(forall|x: u128|
            !(handle.node.source_ids().contains(x) && !old(cache)@.contains_key(
                (x, count as nat),
            )) ==> drawn_for(log_mid, x) == drawn_for(old(sampler).log(), x));
        assert(old(sampler).log().is_prefix_of(log_mid));
        assert(count == 0 ==> log_mid == old(sampler).log());
    }
    let mut results: Vec<i64> = Vec::new();
    let mut idx: usize = 0;
    while idx < count
        invariant
            cache.wf(),
            cache@ == cache_mid,
            sampler.log() == log_mid,
            old(sampler).wf() ==> sampler.wf() && sampler.config() == old(sampler).config(),
            covers(cache@, handle.node.source_ids(), count as nat),
            idx <= count,
            results@.len() == idx as nat,
            forall|i: int|
                0 <= i < idx ==> results@[i] == node_val(
                    handle.node,
                    sources_at(cache@, count as nat),
                    i,
                ),
            idx > 0 ==> !handle.node.has_conditional(),
        decreases count - idx,
    {
        match eval_at(&handle.node, cache, count, idx) {
            Ok(v) => {
                results.push(v);
                idx = idx + 1;
            },
            Err(e) => {
                return Err(e);
            },
        }
    }
    let ghost key = (handle.id, count as nat);
    let out = cache.get_or_compute(handle.id, count, results);
    proof {
        // every reachable source's entry survives the root store
        assert forall|id: u128| #[trigger]
            handle.node.source_ids().contains(id) implies covered(cache@, id, count as nat)
            && cache@[(id, count as nat)] == cache_mid[(id, count as nat)] by {
            assert(covered(cache_mid, id, count as nat));
            assert(cache_mid.contains_key((id, count as nat)));
        }
        assert(covers(cache@, handle.node.source_ids(), count as nat));
        assert forall|k2: (u128, nat)| #[trigger]
            old(cache)@.contains_key(k2) implies cache@.contains_key(k2) && cache@[k2] == old(
            cache,
        )@[k2] by {
            assert(cache_mid.contains_key(k2));
            assert(k2 != key);
        }
        assert forall|k2: (u128, nat)| #[trigger]
            cache@.contains_key(k2) implies old(cache)@.contains_key(k2) || (k2.1 == count as nat
            && (k2.0 == handle.id || handle.node.source_ids().contains(k2.0))) by {
            if k2 != key {
                assert(cache_mid.contains_key(k2));
            }
        }
        if !cache_mid.contains_key(key) {
            // the handle's identity is no source identity here, so adding
            // its entry leaves every source's draws as they were
            assert(!handle.node.source_ids().contains(handle.id)) by {
                if handle.node.source_ids().contains(handle.id) {
                    assert(cache_mid.contains_key(key));
                }
            }
            if count > 0 {
                assert forall|i: int|
                    0 <= i < count implies out@[i] == node_val(
                    handle.node,
                    sources_at(cache@, count as nat),
                    i,
                ) by {
                    assert forall|id: u128|
                        handle.node.source_ids().contains(id) implies sources_at(
                        cache_mid,
                        count as nat,
                    ).contains_key(id) && sources_at(cache@, count as nat).contains_key(id)
                        && sources_at(cache_mid, count as nat)[id] == sources_at(
                        cache@,
                        count as nat,
                    )[id] by {
                        assert(cache_mid.contains_key((id, count as nat)));
                        assert(cache@.contains_key((id, count as nat)));
                    }
                    lemma_node_val_agrees(
                        handle.node,
                        sources_at(cache_mid, count as nat),
                        sources_at(cache@, count as nat),
                        i,
                    );
                }
            }
        } else {
            // the root key was already filled by source population, which
            // happens exactly when the handle wraps that bare source
            if handle.wf() {
                if !old(cache)@.contains_key(key) {
                    assert(handle.node.source_ids().contains(handle.id)) by {
                        let j = choose|j: int| 0 <= j < ids@.len() && key == (
                            ids@[j],
                            count as nat,
                        );
                        assert(ids@.contains(handle.id));
                    }
                    assert(handle.node == (Node::Source { id: handle.id }));
                    assert forall|i: int|
                        0 <= i < count implies out@[i] == node_val(
                        handle.node,
                        sources_at(cache@, count as nat),
                        i,
                    ) by {
                        assert(sources_at(cache@, count as nat).contains_key(handle.id));
                        assert(sources_at(cache@, count as nat)[handle.id] == cache@[key]);
                    }
                }
            }
        }
    }
    Ok(out)
}

} // verus!
