//! The "produce one value" capability that sources consume, and a
//! deterministic scripted implementation of it.

use vstd::prelude::*;

verus! {

/// The values that the draw history `log` holds for identity `id`, oldest
/// first: one per draw made for that identity.
pub open spec fn drawn_for(log: Seq<(u128, i64)>, id: u128) -> Seq<i64>
    decreases log.len(),
{
    if log.len() == 0 {
        Seq::empty()
    } else if log.last().0 == id {
        drawn_for(log.drop_last(), id).push(log.last().1)
    } else {
        drawn_for(log.drop_last(), id)
    }
}

/// How many draws the history `log` holds for identity `id`.
pub open spec fn times_drawn(log: Seq<(u128, i64)>, id: u128) -> nat {
    drawn_for(log, id).len()
}

/// Appending one draw extends the drawn values of its identity by that
/// draw's value and leaves every other identity's values as they were.
pub proof fn lemma_drawn_for_push(log: Seq<(u128, i64)>, entry: (u128, i64), id: u128)
    ensures
        entry.0 == id ==> drawn_for(log.push(entry), id) == drawn_for(log, id).push(entry.1),
        entry.0 != id ==> drawn_for(log.push(entry), id) == drawn_for(log, id),
{
    assert(log.push(entry).drop_last() =~= log);
    assert(log.push(entry).last() == entry);
}

/// A history with no draws for `id` holds no entry of `id` at all.
pub proof fn lemma_no_draws(h: Seq<(u128, i64)>, id: u128)
    requires
        times_drawn(h, id) == 0,
    ensures
        forall|i: int| 0 <= i < h.len() ==> (#[trigger] h[i]).0 != id,
    decreases h.len(),
{
    if h.len() > 0 {
        assert(h.last().0 != id);
        lemma_no_draws(h.drop_last(), id);
        assert forall|i: int| 0 <= i < h.len() implies (#[trigger] h[i]).0 != id by {
            if i < h.len() - 1 {
                assert(h.drop_last()[i] == h[i]);
            }
        }
    }
}

/// When every entry a history holds for `id` carries the value zero, every
/// drawn value of `id` is zero.
pub(crate) proof fn lemma_drawn_zero(h: Seq<(u128, i64)>, id: u128)
    requires
        forall|i: int| 0 <= i < h.len() && (#[trigger] h[i]).0 == id ==> h[i].1 == 0i64,
    ensures
        forall|i: int|
            0 <= i < drawn_for(h, id).len() ==> (#[trigger] drawn_for(h, id)[i]) == 0i64,
    decreases h.len(),
{
    if h.len() > 0 {
        assert forall|i: int|
            0 <= i < h.drop_last().len() && (#[trigger] h.drop_last()[i]).0 == id implies h.drop_last()[i].1
            == 0i64 by {
            assert(h.drop_last()[i] == h[i]);
        }
        lemma_drawn_zero(h.drop_last(), id);
        assert forall|i: int|
            0 <= i < drawn_for(h, id).len() implies (#[trigger] drawn_for(h, id)[i]) == 0i64 by {
            if h.last().0 == id {
                assert(drawn_for(h, id) == drawn_for(h.drop_last(), id).push(h.last().1));
                if i < drawn_for(h.drop_last(), id).len() {
                    assert(drawn_for(h.drop_last(), id)[i] == 0i64);
                } else {
                    assert(h[h.len() - 1].0 == id);
                    assert(h[h.len() - 1].1 == 0i64);
                }
            } else {
                assert(drawn_for(h, id) == drawn_for(h.drop_last(), id));
                assert(drawn_for(h.drop_last(), id)[i] == 0i64);
            }
        }
    }
}

/// A draw history is a prefix of itself.
pub proof fn lemma_prefix_refl(a: Seq<(u128, i64)>)
    ensures
        a.is_prefix_of(a),
{
    assert(a.subrange(0, a.len() as int) =~= a);
}

/// A draw history stays a prefix when one more draw is appended.
pub proof fn lemma_prefix_push(a: Seq<(u128, i64)>, entry: (u128, i64))
    ensures
        a.is_prefix_of(a.push(entry)),
{
    assert(a.push(entry).subrange(0, a.len() as int) =~= a);
}

/// Being an earlier state of a draw history carries across a middle state.
pub proof fn lemma_prefix_trans(a: Seq<(u128, i64)>, b: Seq<(u128, i64)>, c: Seq<(u128, i64)>)
    requires
        a.is_prefix_of(b),
        b.is_prefix_of(c),
    ensures
        a.is_prefix_of(c),
{
    assert forall|i: int| 0 <= i < a.len() implies c.subrange(0, a.len() as int)[i] == a[i] by {
        assert(a[i] == b.subrange(0, a.len() as int)[i]);
        assert(b[i] == c.subrange(0, b.len() as int)[i]);
    }
    assert(c.subrange(0, a.len() as int) =~= a);
}

/// A tally, held within what a 64-bit counter can report.
pub open spec fn capped(n: nat) -> nat {
    if n > u64::MAX as nat {
        u64::MAX as nat
    } else {
        n
    }
}

/// The value a script `s` yields at draw position `i`: the entry there, or
/// zero past the script's end.
pub open spec fn script_value(s: Seq<i64>, i: int) -> i64 {
    if 0 <= i < s.len() {
        s[i]
    } else {
        0
    }
}

/// The draw capability: one value per call, for the source identity asked
/// for. A draw may be stochastic, so the trait assumes nothing of the value
/// beyond its being recorded: the ghost draw history `log` carries the
/// identity and the value of every call, and the engine's population
/// contracts are stated over it.
pub trait Sampler: Sized {
    /// The history of draws made so far: the identity asked for and the
    /// value produced, one entry per call, oldest first.
    spec fn log(&self) -> Seq<(u128, i64)>;

    /// Validity of this sampler's state, whatever an implementation puts
    /// into it; a draw keeps it, so it survives any chain of calls.
    spec fn wf(&self) -> bool;

    /// The unchanging configuration of this sampler, whatever an
    /// implementation puts into it — a deterministic one's scripts, say.
    /// A draw on a valid sampler never changes it, so it too survives any
    /// chain of calls.
    spec fn config(&self) -> Map<u128, Seq<i64>>;

    /// Produce one value for source `id`.
    fn draw(&mut self, id: u128) -> (v: i64)
        ensures
            final(self).log() == old(self).log().push((id, v)),
            old(self).wf() ==> final(self).wf(),
            old(self).wf() ==> final(self).config() == old(self).config(),
    ;
}

pub(crate) open spec fn row_exists(rows: Seq<(u128, Vec<i64>, u64)>, id: u128) -> bool {
    exists|k: int| 0 <= k < rows.len() && (#[trigger] rows[k]).0 == id
}

pub(crate) open spec fn row_at(rows: Seq<(u128, Vec<i64>, u64)>, id: u128) -> int {
    choose|k: int| 0 <= k < rows.len() && (#[trigger] rows[k]).0 == id
}

pub(crate) open spec fn rows_distinct(rows: Seq<(u128, Vec<i64>, u64)>) -> bool {
    forall|a: int, b: int| 0 <= a < b < rows.len() ==> rows[a].0 != rows[b].0
}

/// A script row agrees with the draw history `h`: its counter is the tally
/// of its identity, and every draw made for it so far returned the script
/// entry at that position (zero past the end).
pub(crate) open spec fn row_ok(row: (u128, Vec<i64>, u64), h: Seq<(u128, i64)>) -> bool {
    &&& row.2 as nat == capped(times_drawn(h, row.0))
    &&& forall|i: int|
        0 <= i < times_drawn(h, row.0) ==> (#[trigger] drawn_for(h, row.0)[i]) == script_value(
            row.1@,
            i,
        )
}

/// With one row per identity, any index holding `id` is the looked-up one.
pub(crate) proof fn lemma_row_lookup(rows: Seq<(u128, Vec<i64>, u64)>, id: u128, k: int)
    requires
        rows_distinct(rows),
        0 <= k < rows.len(),
        rows[k].0 == id,
    ensures
        row_exists(rows, id),
        row_at(rows, id) == k,
{
    assert(row_exists(rows, id));
    let j = row_at(rows, id);
    assert(0 <= j < rows.len() && rows[j].0 == id);
    if j < k {
        assert(rows[j].0 != rows[k].0);
    } else if k < j {
        assert(rows[k].0 != rows[j].0);
    }
}

/// A deterministic sampler: each source identity is given a fixed script of
/// values, handed out in order, one per draw. Draws past the end of a
/// script, or for an identity without one, yield zero.
pub struct ScriptedSampler {
    rows: Vec<(u128, Vec<i64>, u64)>,
    history: Ghost<Seq<(u128, i64)>>,
}

impl ScriptedSampler {
    /// Whether a script has been attached for `id`.
    pub open spec fn has_script(self, id: u128) -> bool {
        self.config().contains_key(id)
    }

    /// The script attached for `id`.
    pub open spec fn script_of(self, id: u128) -> Seq<i64> {
        self.config()[id]
    }

    /// A sampler with no scripts and an empty draw history.
    pub fn new() -> (s: ScriptedSampler)
        ensures
            s.wf(),
            s.log() == Seq::<(u128, i64)>::empty(),
            s.config() == Map::<u128, Seq<i64>>::empty(),
    {
        let s = ScriptedSampler { rows: Vec::new(), history: Ghost(Seq::empty()) };
        proof {
            assert(s.config() =~= Map::<u128, Seq<i64>>::empty());
        }
        s
    }

    /// Attach the script of values that draws for `id` will hand out, for
    /// an identity that has no script and has not been drawn yet.
    pub fn add_script(&mut self, id: u128, values: Vec<i64>)
        requires
            old(self).wf(),
            !old(self).has_script(id),
            times_drawn(old(self).log(), id) == 0,
        ensures
            final(self).wf(),
            final(self).log() == old(self).log(),
            final(self).config() == old(self).config().insert(id, values@),
    {
        proof {
            lemma_no_draws(self.history@, id);
        }
        let ghost pre = self.rows@;
        let ghost vals = values@;
        self.rows.push((id, values, 0));
        proof {
            assert(self.rows@.len() == pre.len() + 1);
            assert(self.rows@.last().0 == id && self.rows@.last().1@ == vals
                && self.rows@.last().2 == 0);
            assert forall|a: int, b: int|
                0 <= a < b < self.rows@.len() implies self.rows@[a].0 != self.rows@[b].0 by {
                if b == self.rows@.len() - 1 {
                    assert(self.rows@[a] == pre[a]);
                    if pre[a].0 == id {
                        assert(row_exists(pre, id));
                    }
                }
            }
            lemma_row_lookup(self.rows@, id, pre.len() as int);
            assert forall|k: int|
                0 <= k < self.rows@.len() implies row_ok(#[trigger] self.rows@[k], self.history@) by {
                if k < pre.len() {
                    assert(self.rows@[k] == pre[k]);
                }
            }
            assert forall|i: int|
                0 <= i < self.history@.len() && !row_exists(
                    self.rows@,
                    (#[trigger] self.history@[i]).0,
                ) implies self.history@[i].1 == 0i64 by {
                let x = self.history@[i].0;
                assert(x != id);
                if row_exists(pre, x) {
                    let j = row_at(pre, x);
                    assert(self.rows@[j].0 == x);
                }
            }
            assert forall|x: u128|
                self.config().contains_key(x) == old(self).config().insert(
                    id,
                    vals,
                ).contains_key(x) by {
                if x != id {
                    if row_exists(self.rows@, x) {
                        let j = row_at(self.rows@, x);
                        assert(self.rows@[j].0 == x);
                        assert(j < pre.len());
                        assert(pre[j].0 == x);
                    } else if row_exists(pre, x) {
                        let j = row_at(pre, x);
                        assert(self.rows@[j].0 == x);
                    }
                }
            }
            assert forall|x: u128| #[trigger]
                self.config().contains_key(x) implies self.config()[x] == old(
                self,
            ).config().insert(id, vals)[x] by {
                if x != id {
                    let j = row_at(self.rows@, x);
                    assert(self.rows@[j].0 == x);
                    assert(j < pre.len());
                    assert(pre[j].0 == x);
                    lemma_row_lookup(pre, x, j);
                    assert(pre[j] == self.rows@[j]);
                }
            }
            assert(self.config() =~= old(self).config().insert(id, vals));
        }
    }

    fn find_row(&self, id: u128) -> (r: Option<usize>)
        ensures
            r matches Some(k) ==> k < self.rows@.len() && self.rows@[k as int].0 == id,
            r is None ==> forall|k: int| 0 <= k < self.rows@.len() ==> self.rows@[k].0 != id,
    {
        let mut k: usize = 0;
        while k < self.rows.len()
            invariant
                k <= self.rows@.len(),
                forall|j: int| 0 <= j < k ==> self.rows@[j].0 != id,
            decreases self.rows@.len() - k,
        {
            if self.rows[k].0 == id {
                return Some(k);
            }
            k = k + 1;
        }
        None
    }

    /// The number of draws made so far for `id`, as its script's counter
    /// reports it (saturating at the counter's top); zero for an identity
    /// without a script.
    pub fn draws_for(&self, id: u128) -> (r: u64)
        ensures
            self.wf() && self.has_script(id) ==> r as nat == capped(times_drawn(self.log(), id)),
            self.wf() && !self.has_script(id) ==> r == 0,
    {
        match self.find_row(id) {
            Some(k) => {
                proof {
                    if self.wf() {
                        lemma_row_lookup(self.rows@, id, k as int);
                    }
                }
                self.rows[k].2
            },
            None => {
                proof {
                    if row_exists(self.rows@, id) {
                        let j = row_at(self.rows@, id);
                        assert(self.rows@[j].0 == id);
                    }
                }
                0
            },
        }
    }
}

impl Sampler for ScriptedSampler {
    closed spec fn log(&self) -> Seq<(u128, i64)> {
        self.history@
    }

    /// Scripts are one per identity; every draw made so far for a scripted
    /// identity returned the script entry at its position (zero past the
    /// end); every draw for an unscripted identity returned zero; and each
    /// script's counter is the tally of draws for its identity.
    closed spec fn wf(&self) -> bool {
        &&& rows_distinct(self.rows@)
        &&& forall|k: int|
            0 <= k < self.rows@.len() ==> row_ok(#[trigger] self.rows@[k], self.history@)
        &&& forall|i: int|
            0 <= i < self.history@.len() && !row_exists(
                self.rows@,
                (#[trigger] self.history@[i]).0,
            ) ==> self.history@[i].1 == 0i64
    }

    /// The scripts, as the map from each scripted identity to its values.
    closed spec fn config(&self) -> Map<u128, Seq<i64>> {
        Map::new(
            |id: u128| row_exists(self.rows@, id),
            |id: u128| self.rows@[row_at(self.rows@, id)].1@,
        )
    }

    fn draw(&mut self, id: u128) -> (v: i64)
        ensures
            old(self).wf() ==> v == (if old(self).has_script(id) {
                script_value(old(self).script_of(id), times_drawn(old(self).log(), id) as int)
            } else {
                0i64
            }),
    {
        let ghost h0 = self.history@;
        let ghost rows0 = self.rows@;
        match self.find_row(id) {
            Some(k) => {
                let used = self.rows[k].2;
                let len64 = self.rows[k].1.len() as u64;
                let v = if used < len64 {
                    self.rows[k].1[used as usize]
                } else {
                    0i64
                };
                let new_used = if used < u64::MAX {
                    used + 1
                } else {
                    used
                };
                self.rows[k].2 = new_used;
                self.history = Ghost(h0.push((id, v)));
                proof {
                    assert forall|x: u128| true implies #[trigger] drawn_for(self.history@, x)
                        == (if x == id {
                        drawn_for(h0, x).push(v)
                    } else {
                        drawn_for(h0, x)
                    }) by {
                        lemma_drawn_for_push(h0, (id, v), x);
                    }
                    if rows_distinct(rows0) {
                        lemma_row_lookup(rows0, id, k as int);
                    }
                    if old(self).wf() {
                        assert(row_ok(rows0[k as int], h0));
                        assert(v == script_value(rows0[k as int].1@, times_drawn(h0, id) as int));
                        assert(old(self).config().contains_key(id));
                        assert(old(self).script_of(id) == rows0[k as int].1@);
                        assert forall|a: int, b: int|
                            0 <= a < b < self.rows@.len() implies self.rows@[a].0
                            != self.rows@[b].0 by {
                            assert(self.rows@[a].0 == rows0[a].0);
                            assert(self.rows@[b].0 == rows0[b].0);
                        }
                        assert forall|j: int|
                            0 <= j < self.rows@.len() implies row_ok(
                            #[trigger] self.rows@[j],
                            self.history@,
                        ) by {
                            if j != k {
                                assert(self.rows@[j] == rows0[j]);
                                assert(rows0[j].0 != id);
                                assert(row_ok(rows0[j], h0));
                            } else {
                                assert(self.rows@[j].0 == id && self.rows@[j].1 == rows0[j].1
                                    && self.rows@[j].2 == new_used);
                                assert(drawn_for(self.history@, id) == drawn_for(h0, id).push(v));
                            }
                        }
                        assert forall|x: u128|
                            self.config().contains_key(x) == old(self).config().contains_key(
                                x,
                            ) by {
                            if row_exists(self.rows@, x) {
                                let j = row_at(self.rows@, x);
                                assert(rows0[j].0 == x);
                            }
                            if row_exists(rows0, x) {
                                let j = row_at(rows0, x);
                                assert(self.rows@[j].0 == x);
                            }
                        }
                        assert forall|i: int|
                            0 <= i < self.history@.len() && !row_exists(
                                self.rows@,
                                (#[trigger] self.history@[i]).0,
                            ) implies self.history@[i].1 == 0i64 by {
                            if i < h0.len() {
                                assert(self.history@[i] == h0[i]);
                                if row_exists(rows0, h0[i].0) {
                                    let j = row_at(rows0, h0[i].0);
                                    assert(self.rows@[j].0 == h0[i].0);
                                }
                            } else {
                                assert(self.history@[i] == (id, v));
                                assert(self.rows@[k as int].0 == id);
                            }
                        }
                        assert forall|x: u128| #[trigger]
                            self.config().contains_key(x) implies self.config()[x] == old(
                            self,
                        ).config()[x] by {
                            let j = row_at(self.rows@, x);
                            assert(self.rows@[j].0 == x);
                            assert(rows0[j].0 == x);
                            lemma_row_lookup(rows0, x, j);
                            assert(self.rows@[j].1 == rows0[j].1);
                        }
                        assert(self.config() =~= old(self).config());
                    }
                }
                v
            },
            None => {
                self.history = Ghost(h0.push((id, 0i64)));
                proof {
                    assert forall|x: u128| true implies #[trigger] drawn_for(self.history@, x)
                        == (if x == id {
                        drawn_for(h0, x).push(0i64)
                    } else {
                        drawn_for(h0, x)
                    }) by {
                        lemma_drawn_for_push(h0, (id, 0i64), x);
                    }
                    if row_exists(rows0, id) {
                        let j = row_at(rows0, id);
                        assert(rows0[j].0 == id);
                    }
                    if old(self).wf() {
                        assert forall|j: int|
                            0 <= j < self.rows@.len() implies row_ok(
                            #[trigger] self.rows@[j],
                            self.history@,
                        ) by {
                            assert(rows0[j].0 != id);
                            assert(row_ok(rows0[j], h0));
                        }
                        assert forall|i: int|
                            0 <= i < self.history@.len() && !row_exists(
                                self.rows@,
                                (#[trigger] self.history@[i]).0,
                            ) implies self.history@[i].1 == 0i64 by {
                            if i < h0.len() {
                                assert(self.history@[i] == h0[i]);
                            } else {
                                assert(self.history@[i] == (id, 0i64));
                            }
                        }
                    }
                }
                0i64
            },
        }
    }
}

/// What a valid scripted sampler's draw history shows: every draw made for
/// a scripted identity returned the script entry at its position (zero
/// past the end), and every draw for an unscripted identity returned zero.
pub proof fn lemma_scripted_faithful(s: ScriptedSampler, id: u128)
    requires
        s.wf(),
    ensures
        s.has_script(id) ==> forall|i: int|
            0 <= i < times_drawn(s.log(), id) ==> (#[trigger] drawn_for(s.log(), id)[i])
                == script_value(s.script_of(id), i),
        !s.has_script(id) ==> forall|i: int|
            0 <= i < times_drawn(s.log(), id) ==> (#[trigger] drawn_for(s.log(), id)[i]) == 0i64,
{
    if s.has_script(id) {
        let k = row_at(s.rows@, id);
        assert(s.rows@[k].0 == id);
        assert(row_ok(s.rows@[k], s.history@));
    } else {
        assert forall|i: int|
            0 <= i < s.history@.len() && (#[trigger] s.history@[i]).0 == id implies s.history@[i].1
            == 0i64 by {
            if s.history@[i].0 == id {
                assert(!row_exists(s.rows@, s.history@[i].0));
            }
        }
        lemma_drawn_zero(s.history@, id);
    }
}

} // verus!
