//! Timestamped input of encoded triples and the closure read at a time.
//!
//! An input session records every insertion (`+1`) and retraction (`-1`)
//! with the logical time at which it was issued. A triple is present at time
//! `t` when the sum of its deltas issued before `t` is positive; the closure
//! at `t` is the RhoDF closure of the triples present then.
use vstd::prelude::*;
use crate::triple::EncodedTriple;
use crate::rules::{SchemaIds, materialization, full_materialization, contains_triple};
use crate::cli::IncrementalMode;

verus! {

/// One update: a triple, the time it was issued at, and its delta.
pub type Update = (EncodedTriple, usize, i64);

/// The net delta of `t` over the updates of `u` issued before `time`.
pub open spec fn net_count(u: Seq<Update>, t: EncodedTriple, time: int) -> int
    decreases u.len(),
{
    if u.len() == 0 {
        0
    } else {
        net_count(u.drop_last(), t, time) + (if u.last().0 == t && u.last().1 < time {
            u.last().2 as int
        } else {
            0
        })
    }
}

/// The triples whose net delta before `time` is positive.
pub open spec fn present_at(u: Seq<Update>, time: int) -> Set<EncodedTriple> {
    Set::new(|t: EncodedTriple| net_count(u, t, time) > 0)
}

/// The effective count of a raw count: its sign.
pub open spec fn sign(c: int) -> int {
    if c > 0 {
        1
    } else if c < 0 {
        -1
    } else {
        0
    }
}

/// The updates that issuing every triple of `batch` with delta `diff` at
/// `time` appends.
pub open spec fn batch_updates(batch: Seq<EncodedTriple>, time: usize, diff: i64) -> Seq<Update> {
    batch.map_values(|t: EncodedTriple| (t, time, diff))
}

/// The input side of the engine: the history of updates and the current
/// input time.
pub struct InputSession {
    updates: Vec<Update>,
    time: usize,
    since: usize,
}

impl InputSession {
    /// The updates issued so far, in order.
    pub closed spec fn history(&self) -> Seq<Update> {
        self.updates@
    }

    /// The time at which the next update is issued.
    pub closed spec fn epoch(&self) -> usize {
        self.time
    }

    /// The time before which the closure is no longer read.
    pub closed spec fn compacted_to(&self) -> usize {
        self.since
    }

    /// Every delta is `+1` or `-1` and was issued before the current time or
    /// at it, and the history is not compacted beyond the current time.
    pub closed spec fn wf(&self) -> bool {
        &&& self.since <= self.time
        &&& forall|i: int|
            0 <= i < self.updates@.len() ==> (#[trigger] self.updates@[i]).1 <= self.time && (
            self.updates@[i].2 == 1 || self.updates@[i].2 == -1)
    }

    /// An empty session at time 0.
    pub fn new() -> (r: InputSession)
        ensures
            r.wf(),
            r.history() == Seq::<Update>::empty(),
            r.epoch() == 0,
            r.compacted_to() == 0,
    {
        InputSession { updates: Vec::new(), time: 0, since: 0 }
    }

    /// The time before which the closure is no longer read.
    pub fn trace_frontier(&self) -> (r: usize)
        ensures
            r == self.compacted_to(),
    {
        self.since
    }

    /// The current input time.
    pub fn time(&self) -> (r: usize)
        ensures
            r == self.epoch(),
    {
        self.time
    }

    /// Issues `+1` for `t` at the current time.
    pub fn insert(&mut self, t: EncodedTriple)
        requires
            old(self).wf(),
        ensures
            final(self).wf(),
            final(self).epoch() == old(self).epoch(),
            final(self).compacted_to() == old(self).compacted_to(),
            final(self).history() == old(self).history().push((t, old(self).epoch(), 1i64)),
    {
        self.updates.push((t, self.time, 1));
    }

    /// Issues `-1` for `t` at the current time.
    pub fn remove(&mut self, t: EncodedTriple)
        requires
            old(self).wf(),
        ensures
            final(self).wf(),
            final(self).epoch() == old(self).epoch(),
            final(self).compacted_to() == old(self).compacted_to(),
            final(self).history() == old(self).history().push((t, old(self).epoch(), -1i64)),
    {
        self.updates.push((t, self.time, -1));
    }

    /// Moves the input time forward to `time`.
    pub fn advance_to(&mut self, time: usize)
        requires
            old(self).wf(),
            old(self).epoch() <= time,
        ensures
            final(self).wf(),
            final(self).epoch() == time,
            final(self).compacted_to() == old(self).compacted_to(),
            final(self).history() == old(self).history(),
    {
        self.time = time;
    }

    /// Issues every triple of `batch` with delta `diff` at the current time.
    fn issue_all(&mut self, batch: &Vec<EncodedTriple>, diff: i64)
        requires
            old(self).wf(),
            diff == 1 || diff == -1,
        ensures
            final(self).wf(),
            final(self).epoch() == old(self).epoch(),
            final(self).compacted_to() == old(self).compacted_to(),
            final(self).history() == old(self).history() + batch_updates(
                batch@,
                old(self).epoch(),
                diff,
            ),
    {
        let mut i: usize = 0;
        while i < batch.len()
            invariant
                self.wf(),
                diff == 1 || diff == -1,
                i <= batch.len(),
                self.epoch() == old(self).epoch(),
                self.compacted_to() == old(self).compacted_to(),
                self.history() == old(self).history() + batch_updates(
                    batch@.subrange(0, i as int),
                    old(self).epoch(),
                    diff,
                ),
            decreases batch.len() - i,
        {
            let t = batch[i];
            if diff == 1 {
                self.insert(t);
            } else {
                self.remove(t);
            }
            assert(batch_updates(batch@.subrange(0, i + 1), old(self).epoch(), diff) =~= batch_updates(
                batch@.subrange(0, i as int),
                old(self).epoch(),
                diff,
            ).push((t, old(self).epoch(), diff)));
            i = i + 1;
        }
        assert(batch@.subrange(0, batch.len() as int) =~= batch@);
    }
}

impl InputSession {
    /// Compacts the history before `frontier`: the updates issued before it
    /// are replaced by as many `+1` or `-1` per triple as its net count
    /// before `frontier`, so that the closure at any time from `frontier`
    /// on reads as before. The closure before `frontier` is no longer read.
    pub fn advance_trace(&mut self, frontier: usize)
        requires
            old(self).wf(),
            old(self).compacted_to() <= frontier <= old(self).epoch(),
        ensures
            final(self).wf(),
            final(self).epoch() == old(self).epoch(),
            final(self).compacted_to() == frontier,
            forall|t: EncodedTriple, time: int|
                frontier <= time ==> #[trigger] net_count(final(self).history(), t, time)
                    == net_count(old(self).history(), t, time),
    {
        let mut low: Vec<Update> = Vec::new();
        let mut high: Vec<Update> = Vec::new();
        let mut i: usize = 0;
        while i < self.updates.len()
            invariant
                self.wf(),
                self.compacted_to() <= frontier <= self.epoch(),
                i <= self.updates@.len(),
                forall|k: int|
                    0 <= k < low@.len() ==> (#[trigger] low@[k]).1 < frontier && (low@[k].2 == 1
                        || low@[k].2 == -1),
                forall|k: int|
                    0 <= k < high@.len() ==> (#[trigger] high@[k]).1 <= self.time && (high@[k].2
                        == 1 || high@[k].2 == -1),
                forall|t: EncodedTriple, time: int|
                    frontier <= time ==> #[trigger] net_count(self.updates@.subrange(0, i as int), t, time)
                        == net_count(low@, t, frontier as int) + net_count(high@, t, time),
            decreases self.updates@.len() - i,
        {
            let u = self.updates[i];
            let ghost pre = self.updates@.subrange(0, i as int);
            let ghost old_low = low@;
            let ghost old_high = high@;
            if u.1 < frontier {
                low.push(u);
            } else {
                high.push(u);
            }
            proof {
                assert(self.updates@.subrange(0, i + 1) =~= pre.push(u));
                assert forall|t: EncodedTriple, time: int|
                    frontier <= time implies #[trigger] net_count(self.updates@.subrange(0, i + 1), t, time)
                        == net_count(low@, t, frontier as int) + net_count(high@, t, time) by {
                    lemma_net_count_push(pre, u, t, time);
                    if u.1 < frontier {
                        lemma_net_count_push(old_low, u, t, frontier as int);
                    } else {
                        lemma_net_count_push(old_high, u, t, time);
                    }
                }
            }
            i = i + 1;
        }
        assert(self.updates@.subrange(0, self.updates@.len() as int) =~= self.updates@);
        let mut cons: Vec<Update> = Vec::new();
        let mut seen: Vec<EncodedTriple> = Vec::new();
        let mut i: usize = 0;
        while i < low.len()
            invariant
                i <= low@.len(),
                frontier <= self.time,
                forall|k: int|
                    0 <= k < low@.len() ==> (#[trigger] low@[k]).1 < frontier && (low@[k].2 == 1
                        || low@[k].2 == -1),
                forall|k: int|
                    0 <= k < cons@.len() ==> (#[trigger] cons@[k]).1 < frontier && (cons@[k].2
                        == 1 || cons@[k].2 == -1),
                forall|k: int| 0 <= k < i ==> seen@.contains(#[trigger] low@[k].0),
                forall|x: EncodedTriple|
                    #[trigger] net_count(cons@, x, frontier as int) == if seen@.contains(x) {
                        net_count(low@, x, frontier as int)
                    } else {
                        0
                    },
            decreases low@.len() - i,
        {
            let t = low[i].0;
            if !contains_triple(&seen, t) {
                let c = net_count_of(&low, t, frontier);
                proof {
                    lemma_net_count_bound(low@, t, frontier as int);
                }
                let m: usize = if c > 0 {
                    c as usize
                } else {
                    (-c) as usize
                };
                let d: i64 = if c > 0 {
                    1
                } else {
                    -1
                };
                let ghost base = cons@;
                let mut j: usize = 0;
                while j < m
                    invariant
                        j <= m,
                        m as int == (if c > 0 { c as int } else { -c as int }),
                        d == (if c > 0 { 1i64 } else { -1i64 }),
                        c as int == net_count(low@, t, frontier as int),
                        i < low@.len(),
                        low@[i as int].1 < frontier,
                        !seen@.contains(t),
                        forall|k: int|
                            0 <= k < cons@.len() ==> (#[trigger] cons@[k]).1 < frontier && (cons@[k].2
                                == 1 || cons@[k].2 == -1),
                        forall|x: EncodedTriple|
                            #[trigger] net_count(cons@, x, frontier as int) == net_count(base, x, frontier as int)
                                + (if x == t { j as int * d as int } else { 0 }),
                    decreases m - j,
                {
                    let ghost before = cons@;
                    cons.push((t, frontier - 1, d));
                    proof {
                        assert forall|x: EncodedTriple|
                            #[trigger] net_count(cons@, x, frontier as int) == net_count(base, x, frontier as int)
                                + (if x == t { (j + 1) as int * d as int } else { 0 }) by {
                            lemma_net_count_push(before, (t, (frontier - 1) as usize, d), x, frontier as int);
                        }
                    }
                    j = j + 1;
                }
                let ghost old_seen = seen@;
                seen.push(t);
                proof {
                    assert(seen@.contains(t)) by {
                        assert(seen@[old_seen.len() as int] == t);
                    }
                    assert forall|x: EncodedTriple| old_seen.contains(x) implies #[trigger] seen@.contains(x) by {
                        let k = old_seen.index_of(x);
                        assert(seen@[k] == x);
                    }
                    assert forall|x: EncodedTriple| #[trigger] seen@.contains(x) implies old_seen.contains(x) || x == t by {
                        let k = seen@.index_of(x);
                        if k < old_seen.len() {
                            assert(old_seen[k] == x);
                        }
                    }
                    assert forall|x: EncodedTriple|
                        #[trigger] net_count(cons@, x, frontier as int) == if seen@.contains(x) {
                            net_count(low@, x, frontier as int)
                        } else {
                            0
                        } by {
                        if x == t {
                            assert((if c > 0 { c as int } else { -c as int }) * d as int == c as int) by (nonlinear_arith)
                                requires d == (if c > 0 { 1i64 } else { -1i64 });
                        } else {
                            assert(seen@.contains(x) == old_seen.contains(x));
                        }
                    }
                }
            }
            i = i + 1;
        }
        proof {
            assert forall|x: EncodedTriple| #[trigger] net_count(cons@, x, frontier as int) == net_count(low@, x, frontier as int) by {
                if !seen@.contains(x) {
                    assert forall|k: int| 0 <= k < low@.len() implies (#[trigger] low@[k]).0 != x by {
                        assert(seen@.contains(low@[k].0));
                    }
                    lemma_net_count_absent(low@, x, frontier as int);
                }
            }
        }
        let ghost old_history = self.updates@;
        let ghost cons_part = cons@;
        assert(old_history.subrange(0, old_history.len() as int) == old_history);
        extend_updates(&mut cons, &high);
        self.updates = cons;
        self.since = frontier;
        proof {
            assert forall|t: EncodedTriple, time: int|
                frontier <= time implies #[trigger] net_count(self.updates@, t, time) == net_count(old_history, t, time) by {
                assert(self.updates@ == cons_part + high@);
                lemma_net_count_concat(cons_part, high@, t, time);
                lemma_net_count_settled(cons_part, t, frontier as int, time);
                assert(net_count(cons_part, t, frontier as int) == net_count(low@, t, frontier as int));
                assert(net_count(old_history.subrange(0, old_history.len() as int), t, time)
                    == net_count(low@, t, frontier as int) + net_count(high@, t, time));
            }
        }
    }
}

fn extend_updates(dst: &mut Vec<Update>, src: &Vec<Update>)
    ensures
        final(dst)@ == old(dst)@ + src@,
{
    let mut i: usize = 0;
    while i < src.len()
        invariant
            i <= src.len(),
            dst@ == old(dst)@ + src@.subrange(0, i as int),
        decreases src.len() - i,
    {
        dst.push(src[i]);
        assert(src@.subrange(0, i + 1) =~= src@.subrange(0, i as int).push(src@[i as int]));
        i = i + 1;
    }
    assert(src@.subrange(0, src.len() as int) =~= src@);
}

proof fn lemma_net_count_concat(a: Seq<Update>, b: Seq<Update>, t: EncodedTriple, time: int)
    ensures
        net_count(a + b, t, time) == net_count(a, t, time) + net_count(b, t, time),
    decreases b.len(),
{
    if b.len() == 0 {
        assert(a + b =~= a);
    } else {
        assert((a + b).drop_last() =~= a + b.drop_last());
        assert((a + b).last() == b.last());
        lemma_net_count_concat(a, b.drop_last(), t, time);
    }
}

/// The effective count of a raw count: `1` for a positive count, `-1` for a
/// negative one, `0` for zero. Unlike a plain distinct it keeps retractions.
pub fn signed_distinct(count: i128) -> (r: i8)
    ensures
        r as int == sign(count as int),
{
    if count > 0 {
        1
    } else if count < 0 {
        -1
    } else {
        0
    }
}

/// Inserts the t-box and then the a-box at the session's time 0, and
/// advances the input to time 1.
pub fn insert_starting_data(
    a_box: Vec<EncodedTriple>,
    data_input: &mut InputSession,
    t_box: Vec<EncodedTriple>,
)
    requires
        old(data_input).wf(),
        old(data_input).epoch() == 0,
    ensures
        final(data_input).wf(),
        final(data_input).epoch() == 1,
        final(data_input).compacted_to() == old(data_input).compacted_to(),
        final(data_input).history() == old(data_input).history() + batch_updates(t_box@, 0, 1i64)
            + batch_updates(a_box@, 0, 1i64),
{
    data_input.issue_all(&t_box, 1);
    data_input.issue_all(&a_box, 1);
    data_input.advance_to(1);
}

/// Inserts every triple of `batch` at the current time, then advances the
/// input to `time_to_advance_to`.
pub fn add_data(batch: Vec<EncodedTriple>, data_input: &mut InputSession, time_to_advance_to: usize)
    requires
        old(data_input).wf(),
        old(data_input).epoch() < time_to_advance_to,
    ensures
        final(data_input).wf(),
        final(data_input).epoch() == time_to_advance_to,
        final(data_input).compacted_to() == old(data_input).compacted_to(),
        final(data_input).history() == old(data_input).history() + batch_updates(
            batch@,
            old(data_input).epoch(),
            1i64,
        ),
{
    data_input.issue_all(&batch, 1);
    data_input.advance_to(time_to_advance_to);
}

/// Retracts every triple of `batch` at the current time, then advances the
/// input to `time_to_advance_to`.
pub fn remove_data(
    batch: Vec<EncodedTriple>,
    data_input: &mut InputSession,
    time_to_advance_to: usize,
)
    requires
        old(data_input).wf(),
        old(data_input).epoch() < time_to_advance_to,
    ensures
        final(data_input).wf(),
        final(data_input).epoch() == time_to_advance_to,
        final(data_input).compacted_to() == old(data_input).compacted_to(),
        final(data_input).history() == old(data_input).history() + batch_updates(
            batch@,
            old(data_input).epoch(),
            -1i64,
        ),
{
    data_input.issue_all(&batch, -1);
    data_input.advance_to(time_to_advance_to);
}

/// Inserts every triple of `adds` and retracts every triple of `retracts`
/// at the current time, then advances the input to `target_time`.
pub fn apply_delta(
    adds: Vec<EncodedTriple>,
    retracts: Vec<EncodedTriple>,
    data_input: &mut InputSession,
    target_time: usize,
)
    requires
        old(data_input).wf(),
        old(data_input).epoch() < target_time,
    ensures
        final(data_input).wf(),
        final(data_input).epoch() == target_time,
        final(data_input).compacted_to() == old(data_input).compacted_to(),
        final(data_input).history() == old(data_input).history() + batch_updates(
            adds@,
            old(data_input).epoch(),
            1i64,
        ) + batch_updates(retracts@, old(data_input).epoch(), -1i64),
{
    data_input.issue_all(&adds, 1);
    data_input.issue_all(&retracts, -1);
    data_input.advance_to(target_time);
}

/// Applies one update: inserts (`Addition`) or retracts (`Deletion`) every
/// triple of `batch` at the current time, then advances the input to
/// `time_to_advance_to`.
pub fn apply_update(
    mode: IncrementalMode,
    batch: Vec<EncodedTriple>,
    data_input: &mut InputSession,
    time_to_advance_to: usize,
)
    requires
        old(data_input).wf(),
        old(data_input).epoch() < time_to_advance_to,
    ensures
        final(data_input).wf(),
        final(data_input).epoch() == time_to_advance_to,
        final(data_input).compacted_to() == old(data_input).compacted_to(),
        final(data_input).history() == old(data_input).history() + batch_updates(
            batch@,
            old(data_input).epoch(),
            match mode {
                IncrementalMode::Addition => 1i64,
                IncrementalMode::Deletion => -1i64,
            },
        ),
{
    match mode {
        IncrementalMode::Addition => add_data(batch, data_input, time_to_advance_to),
        IncrementalMode::Deletion => remove_data(batch, data_input, time_to_advance_to),
    }
}

proof fn lemma_net_count_bound(u: Seq<Update>, t: EncodedTriple, time: int)
    requires
        forall|i: int| 0 <= i < u.len() ==> (#[trigger] u[i]).2 == 1 || u[i].2 == -1,
    ensures
        -u.len() <= net_count(u, t, time) <= u.len(),
    decreases u.len(),
{
    if u.len() > 0 {
        assert(u.last() == u[u.len() - 1]);
        lemma_net_count_bound(u.drop_last(), t, time);
    }
}

proof fn lemma_net_count_absent(u: Seq<Update>, t: EncodedTriple, time: int)
    requires
        forall|i: int| 0 <= i < u.len() ==> (#[trigger] u[i]).0 != t,
    ensures
        net_count(u, t, time) == 0,
    decreases u.len(),
{
    if u.len() > 0 {
        assert(u.last() == u[u.len() - 1]);
        lemma_net_count_absent(u.drop_last(), t, time);
    }
}

/// The net delta of `t` over the updates issued before `time`.
fn net_count_of(u: &Vec<Update>, t: EncodedTriple, time: usize) -> (r: i128)
    requires
        forall|i: int| 0 <= i < u@.len() ==> (#[trigger] u@[i]).2 == 1 || u@[i].2 == -1,
    ensures
        r as int == net_count(u@, t, time as int),
{
    let mut acc: i128 = 0;
    let mut j: usize = 0;
    while j < u.len()
        invariant
            j <= u.len(),
            forall|i: int| 0 <= i < u@.len() ==> (#[trigger] u@[i]).2 == 1 || u@[i].2 == -1,
            acc as int == net_count(u@.subrange(0, j as int), t, time as int),
        decreases u.len() - j,
    {
        let x = u[j];
        proof {
            let pre = u@.subrange(0, j as int);
            assert(u@.subrange(0, j + 1).drop_last() =~= pre);
            assert(forall|i: int| 0 <= i < pre.len() ==> #[trigger] pre[i] == u@[i]);
            lemma_net_count_bound(pre, t, time as int);
        }
        if x.0.0 == t.0 && x.0.1 == t.1 && x.0.2 == t.2 && x.1 < time {
            acc = acc + x.2 as i128;
        }
        j = j + 1;
    }
    assert(u@.subrange(0, u.len() as int) =~= u@);
    acc
}

/// The closure at `time`, read from the session: every triple derived from
/// the triples present at `time`, each once. `time` must not lie beyond the
/// session's current time, so that no update before it is still to come,
/// nor before the time the history was compacted to.
pub fn return_vector(data_input: &InputSession, rdfs_keywords: &[u64; 5], time: usize) -> (r: Vec<
    EncodedTriple,
>)
    requires
        data_input.wf(),
        data_input.compacted_to() <= time <= data_input.epoch(),
    ensures
        r@.to_set() == materialization(
            present_at(data_input.history(), time as int),
            SchemaIds::from_array_spec(rdfs_keywords@),
        ),
        r@.no_duplicates(),
{
    let present = present_triples(&data_input.updates, time);
    full_materialization(&present, rdfs_keywords)
}

/// The triples whose net delta before `time` is positive.
fn present_triples(u: &Vec<Update>, time: usize) -> (r: Vec<EncodedTriple>)
    requires
        forall|i: int| 0 <= i < u@.len() ==> (#[trigger] u@[i]).2 == 1 || u@[i].2 == -1,
    ensures
        r@.to_set() == present_at(u@, time as int),
{
    let mut r: Vec<EncodedTriple> = Vec::new();
    let mut i: usize = 0;
    while i < u.len()
        invariant
            i <= u.len(),
            forall|k: int| 0 <= k < u@.len() ==> (#[trigger] u@[k]).2 == 1 || u@[k].2 == -1,
            forall|t: EncodedTriple|
                #[trigger] r@.to_set().contains(t) <==> (net_count(u@, t, time as int) > 0 && exists|
                    k: int,
                | 0 <= k < i && (#[trigger] u@[k]).0 == t),
        decreases u.len() - i,
    {
        let t = u[i].0;
        let c = net_count_of(u, t, time);
        let ghost old_r = r@;
        if signed_distinct(c) == 1 && !contains_triple(&r, t) {
            r.push(t);
        }
        proof {
            old_r.lemma_push_to_set_commute(t);
            assert forall|x: EncodedTriple|
                #[trigger] r@.to_set().contains(x) <==> (net_count(u@, x, time as int) > 0 && exists|
                    k: int,
                | 0 <= k < i + 1 && (#[trigger] u@[k]).0 == x) by {
                if x == t {
                    assert(u@[i as int].0 == x);
                }
                if exists|k: int| 0 <= k < i + 1 && (#[trigger] u@[k]).0 == x {
                    if x != t {
                        let k = choose|k: int| 0 <= k < i + 1 && (#[trigger] u@[k]).0 == x;
                        assert(k < i);
                    }
                }
            }
        }
        i = i + 1;
    }
    proof {
        assert forall|t: EncodedTriple| r@.to_set().contains(t) <==> present_at(u@, time as int).contains(t) by {
            if net_count(u@, t, time as int) > 0 {
                if !(exists|k: int| 0 <= k < u@.len() && (#[trigger] u@[k]).0 == t) {
                    lemma_net_count_absent(u@, t, time as int);
                }
            }
        }
        assert(r@.to_set() =~= present_at(u@, time as int));
    }
    r
}

/// The triples at the positions `i` of `v` with `i % peers == index`: the
/// share of worker `index` among `peers` workers.
pub open spec fn shard(v: Seq<EncodedTriple>, index: int, peers: int) -> Set<EncodedTriple> {
    Set::new(|t: EncodedTriple| exists|i: int| 0 <= i < v.len() && i % peers == index && v[i] == t)
}

/// The triples at the positions `i < n` of `v` with `i % peers == index`,
/// in order.
pub open spec fn shard_seq(v: Seq<EncodedTriple>, index: int, peers: int, n: int) -> Seq<EncodedTriple>
    decreases n,
{
    if n <= 0 {
        Seq::empty()
    } else if (n - 1) % peers == index {
        shard_seq(v, index, peers, n - 1).push(v[n - 1])
    } else {
        shard_seq(v, index, peers, n - 1)
    }
}

/// The triples that some worker among `peers` receives.
pub open spec fn all_shards(v: Seq<EncodedTriple>, peers: int) -> Set<EncodedTriple> {
    Set::new(|t: EncodedTriple| exists|w: int| 0 <= w < peers && #[trigger] shard(v, w, peers).contains(t))
}

/// The share of worker `index` among `peers` workers: the triples at the
/// positions `i` with `i % peers == index`, in order.
pub fn partition_for_worker(data: &Vec<EncodedTriple>, index: usize, peers: usize) -> (r: Vec<
    EncodedTriple,
>)
    requires
        peers > 0,
    ensures
        r@ == shard_seq(data@, index as int, peers as int, data@.len() as int),
        r@.to_set() == shard(data@, index as int, peers as int),
{
    let mut r: Vec<EncodedTriple> = Vec::new();
    let mut i: usize = 0;
    while i < data.len()
        invariant
            peers > 0,
            i <= data.len(),
            r@.to_set() == shard(data@.subrange(0, i as int), index as int, peers as int),
            r@ == shard_seq(data@, index as int, peers as int, i as int),
        decreases data.len() - i,
    {
        let ghost old_r = r@;
        if i % peers == index {
            r.push(data[i]);
        }
        proof {
            let pre = data@.subrange(0, i as int);
            let next = data@.subrange(0, i + 1);
            old_r.lemma_push_to_set_commute(data@[i as int]);
            assert forall|t: EncodedTriple| r@.to_set().contains(t) <==> shard(next, index as int, peers as int).contains(t) by {
                if shard(pre, index as int, peers as int).contains(t) {
                    let j = choose|j: int| 0 <= j < pre.len() && j % (peers as int) == index as int && pre[j] == t;
                    assert(next[j] == t);
                }
                if i % peers == index && t == data@[i as int] {
                    assert(next[i as int] == t);
                }
                if shard(next, index as int, peers as int).contains(t) {
                    let j = choose|j: int| 0 <= j < next.len() && j % (peers as int) == index as int && next[j] == t;
                    if j < i {
                        assert(pre[j] == t);
                    } else {
                        assert(j == i);
                        assert(i % peers == index);
                        assert(t == data@[i as int]);
                    }
                }
            }
            assert(r@.to_set() =~= shard(next, index as int, peers as int));
        }
        i = i + 1;
    }
    assert(data@.subrange(0, data.len() as int) =~= data@);
    r
}

/// Splitting the a-box among any number of workers, each of which also holds
/// the whole t-box, leaves the input of the closure, and so the closure,
/// as it is with a single worker.
pub proof fn lemma_partition_preserves_closure(
    t_box: Set<EncodedTriple>,
    a_box: Seq<EncodedTriple>,
    peers: int,
    k: SchemaIds,
)
    requires
        peers >= 1,
    ensures
        all_shards(a_box, peers) == a_box.to_set(),
        materialization(t_box + all_shards(a_box, peers), k) == materialization(
            t_box + a_box.to_set(),
            k,
        ),
{
    assert forall|t: EncodedTriple| all_shards(a_box, peers).contains(t) <==> a_box.to_set().contains(t) by {
        if a_box.to_set().contains(t) {
            let i = a_box.index_of(t);
            let w = i % peers;
            assert(shard(a_box, w, peers).contains(t));
        }
        if all_shards(a_box, peers).contains(t) {
            let w = choose|w: int| 0 <= w < peers && #[trigger] shard(a_box, w, peers).contains(t);
            let i = choose|i: int| 0 <= i < a_box.len() && i % peers == w && a_box[i] == t;
            assert(a_box.contains(t));
        }
    }
    assert(all_shards(a_box, peers) =~= a_box.to_set());
}

proof fn lemma_net_count_push(u: Seq<Update>, x: Update, t: EncodedTriple, time: int)
    ensures
        net_count(u.push(x), t, time) == net_count(u, t, time) + (if x.0 == t && x.1 < time {
            x.2 as int
        } else {
            0
        }),
{
    assert(u.push(x).drop_last() =~= u);
}

/// Inserting a triple a second time, at a later time, leaves the closure
/// after both insertions as it is after the first alone, as long as the
/// triple's earlier net count is not negative.
pub proof fn lemma_reinsertion_idempotent(
    u: Seq<Update>,
    tau: EncodedTriple,
    t1: usize,
    t2: usize,
    time: int,
    k: SchemaIds,
)
    requires
        t1 < t2,
        t2 < time,
        net_count(u, tau, time) >= 0,
    ensures
        materialization(present_at(u.push((tau, t1, 1i64)).push((tau, t2, 1i64)), time), k)
            == materialization(present_at(u.push((tau, t1, 1i64)), time), k),
{
    let once = u.push((tau, t1, 1i64));
    let twice = once.push((tau, t2, 1i64));
    assert forall|t: EncodedTriple| present_at(twice, time).contains(t) <==> present_at(once, time).contains(t) by {
        lemma_net_count_push(u, (tau, t1, 1i64), t, time);
        lemma_net_count_push(once, (tau, t2, 1i64), t, time);
    }
    assert(present_at(twice, time) =~= present_at(once, time));
}

proof fn lemma_net_count_settled(u: Seq<Update>, t: EncodedTriple, time: int, later: int)
    requires
        time <= later,
        forall|i: int| 0 <= i < u.len() ==> (#[trigger] u[i]).1 < time,
    ensures
        net_count(u, t, later) == net_count(u, t, time),
    decreases u.len(),
{
    if u.len() > 0 {
        assert(u.last() == u[u.len() - 1]);
        lemma_net_count_settled(u.drop_last(), t, time, later);
    }
}

/// Inserting a triple at time `t` and retracting it at `t + 1` gives, at
/// `t + 2`, the closure that held at `t`.
pub proof fn lemma_insert_retract_inverse(u: Seq<Update>, tau: EncodedTriple, t: usize, k: SchemaIds)
    requires
        t + 1 <= usize::MAX,
        forall|i: int| 0 <= i < u.len() ==> (#[trigger] u[i]).1 < t,
    ensures
        materialization(present_at(u.push((tau, t, 1i64)).push((tau, (t + 1) as usize, -1i64)), t + 2), k)
            == materialization(present_at(u, t as int), k),
{
    let ins = u.push((tau, t, 1i64));
    let both = ins.push((tau, (t + 1) as usize, -1i64));
    assert forall|x: EncodedTriple| present_at(both, t + 2).contains(x) <==> present_at(u, t as int).contains(x) by {
        lemma_net_count_push(u, (tau, t, 1i64), x, t + 2);
        lemma_net_count_push(ins, (tau, (t + 1) as usize, -1i64), x, t + 2);
        lemma_net_count_settled(u, x, t as int, t + 2);
    }
    assert(present_at(both, t + 2) =~= present_at(u, t as int));
}

} // verus!
