//! One execution cycle's record: the nested enter/leave call stack and the
//! per-segment statistics accumulated while the frame was current.

use vstd::prelude::*;
use crate::stats::SegmentStats;
use crate::text::str_eq;

verus! {

/// One row of the segment table: a key and its accumulator.
pub struct SegmentEntry {
    /// The segment key this row accumulates for.
    pub key: &'static str,
    /// The statistics folded in for that key.
    pub stats: SegmentStats,
}

/// Index of the first entry of `t` whose key is `key`, or `-1` if no entry
/// has it.
pub open spec fn spec_key_index(t: Seq<SegmentEntry>, key: Seq<char>) -> int
    decreases t.len(),
{
    if t.len() == 0 {
        -1
    } else if t[0].key@ == key {
        0
    } else {
        let r = spec_key_index(t.drop_first(), key);
        if r < 0 {
            -1
        } else {
            r + 1
        }
    }
}

/// The samples accumulated for `key` in `t`; empty when no entry has it.
pub open spec fn samples_for(t: Seq<SegmentEntry>, key: Seq<char>) -> Seq<u64> {
    let i = spec_key_index(t, key);
    if i >= 0 {
        t[i].stats.samples@
    } else {
        Seq::empty()
    }
}

/// `spec_key_index` is a valid index of the first match, or `-1` when
/// nothing matches.
pub proof fn lemma_key_index(t: Seq<SegmentEntry>, key: Seq<char>)
    ensures
        -1 <= spec_key_index(t, key) < t.len(),
        spec_key_index(t, key) >= 0 ==> t[spec_key_index(t, key)].key@ == key,
        spec_key_index(t, key) >= 0 ==> forall|j: int|
            0 <= j < spec_key_index(t, key) ==> (#[trigger] t[j]).key@ != key,
        spec_key_index(t, key) == -1 ==> forall|j: int|
            0 <= j < t.len() ==> (#[trigger] t[j]).key@ != key,
    decreases t.len(),
{
    if t.len() > 0 && t[0].key@ != key {
        lemma_key_index(t.drop_first(), key);
        let r = spec_key_index(t.drop_first(), key);
        if r >= 0 {
            assert(t[r + 1] == t.drop_first()[r]);
            assert(t[r + 1].key@ == key);
            assert forall|j: int| 0 <= j < r + 1 implies (#[trigger] t[j]).key@ != key by {
                if j > 0 {
                    assert(t[j] == t.drop_first()[j - 1]);
                }
            }
        } else {
            assert forall|j: int| 0 <= j < t.len() implies (#[trigger] t[j]).key@ != key by {
                if j > 0 {
                    assert(t[j] == t.drop_first()[j - 1]);
                }
            }
        }
    }
}

/// The first match determines `spec_key_index`.
pub proof fn lemma_first_match(t: Seq<SegmentEntry>, key: Seq<char>, i: int)
    requires
        0 <= i < t.len(),
        t[i].key@ == key,
        forall|j: int| 0 <= j < i ==> (#[trigger] t[j]).key@ != key,
    ensures
        spec_key_index(t, key) == i,
{
    lemma_key_index(t, key);
    let r = spec_key_index(t, key);
    if r < i {
        assert(t[r].key@ != key);
    }
    if r > i {
        assert(t[i].key@ != key);
    }
}

/// How the segment table changes when one duration is recorded for `key`:
/// the first entry holding `key` gains the sample, every other entry stays
/// as it was, and a missing key gains a fresh one-sample entry at the end.
pub open spec fn table_after_record(
    t0: Seq<SegmentEntry>,
    t1: Seq<SegmentEntry>,
    key: Seq<char>,
    d: u64,
) -> bool {
    let i = spec_key_index(t0, key);
    if i >= 0 {
        &&& t1.len() == t0.len()
        &&& forall|j: int| 0 <= j < t0.len() && j != i ==> #[trigger] t1[j] == t0[j]
        &&& t1[i].key == t0[i].key
        &&& t1[i].stats.samples@ == t0[i].stats.samples@.push(d)
    } else {
        &&& t1.len() == t0.len() + 1
        &&& forall|j: int| 0 <= j < t0.len() ==> #[trigger] t1[j] == t0[j]
        &&& t1[t0.len() as int].key@ == key
        &&& t1[t0.len() as int].stats.samples@ == seq![d]
    }
}

/// Two tables with the same keys in the same places index every key alike.
proof fn lemma_key_index_same_keys(t0: Seq<SegmentEntry>, t1: Seq<SegmentEntry>, k: Seq<char>)
    requires
        t0.len() == t1.len(),
        forall|j: int| 0 <= j < t0.len() ==> (#[trigger] t0[j]).key@ == (#[trigger] t1[j]).key@,
    ensures
        spec_key_index(t0, k) == spec_key_index(t1, k),
    decreases t0.len(),
{
    if t0.len() > 0 && t0[0].key@ != k {
        assert(forall|j: int|
            0 <= j < t0.drop_first().len() ==> #[trigger] t0.drop_first()[j] == t0[j + 1]
                && #[trigger] t1.drop_first()[j] == t1[j + 1]);
        lemma_key_index_same_keys(t0.drop_first(), t1.drop_first(), k);
    }
}

/// Appending an entry leaves the index of present keys alone and gives an
/// absent key the appended position exactly when the new entry holds it.
proof fn lemma_key_index_push(t: Seq<SegmentEntry>, e: SegmentEntry, k: Seq<char>)
    ensures
        spec_key_index(t.push(e), k) == if spec_key_index(t, k) >= 0 {
            spec_key_index(t, k)
        } else if e.key@ == k {
            t.len() as int
        } else {
            -1
        },
    decreases t.len(),
{
    lemma_key_index(t, k);
    if t.len() == 0 {
        assert(t.push(e)[0] == e);
        assert(t.push(e).drop_first() =~= Seq::<SegmentEntry>::empty());
        if e.key@ != k {
            assert(spec_key_index(Seq::<SegmentEntry>::empty(), k) == -1);
            assert(spec_key_index(t.push(e), k) == -1);
        }
    } else {
        assert(t.push(e)[0] == t[0]);
        assert(t.push(e).drop_first() =~= t.drop_first().push(e));
        lemma_key_index_push(t.drop_first(), e, k);
    }
}

/// What one recording does to the samples of every key: the recorded key
/// gains the sample and every other key's samples are untouched.
pub proof fn lemma_record_samples(t0: Seq<SegmentEntry>, t1: Seq<SegmentEntry>, key: Seq<char>, d: u64)
    requires
        table_after_record(t0, t1, key, d),
    ensures
        samples_for(t1, key) == samples_for(t0, key).push(d),
        forall|k: Seq<char>| k != key ==> samples_for(t1, k) == samples_for(t0, k),
{
    lemma_key_index(t0, key);
    let i = spec_key_index(t0, key);
    if i >= 0 {
        assert(forall|j: int|
            0 <= j < t0.len() ==> (#[trigger] t0[j]).key@ == (#[trigger] t1[j]).key@);
        lemma_key_index_same_keys(t0, t1, key);
        assert forall|k: Seq<char>| k != key implies samples_for(t1, k) == samples_for(
            t0,
            k,
        ) by {
            lemma_key_index_same_keys(t0, t1, k);
            lemma_key_index(t0, k);
            let ik = spec_key_index(t0, k);
            if ik >= 0 {
                assert(ik != i);
                assert(t1[ik] == t0[ik]);
            }
        }
    } else {
        let e = t1[t0.len() as int];
        assert(t1 =~= t0.push(e));
        lemma_key_index_push(t0, e, key);
        assert(samples_for(t1, key) =~= samples_for(t0, key).push(d));
        assert forall|k: Seq<char>| k != key implies samples_for(t1, k) == samples_for(
            t0,
            k,
        ) by {
            lemma_key_index_push(t0, e, k);
            lemma_key_index(t0, k);
            let ik = spec_key_index(t0, k);
            if ik >= 0 {
                assert(t1[ik] == t0[ik]);
            }
        }
    }
}

/// Keys are pairwise distinct and every accumulator is well formed and
/// holds at least one sample: accumulators are created lazily on first
/// fold, never empty.
pub open spec fn wf_table(t: Seq<SegmentEntry>) -> bool {
    &&& forall|i: int, j: int|
        0 <= i < j < t.len() ==> (#[trigger] t[i]).key@ != (#[trigger] t[j]).key@
    &&& forall|i: int|
        0 <= i < t.len() ==> (#[trigger] t[i]).stats.wf() && t[i].stats.samples@.len() >= 1
}

/// One execution cycle's call stack, segment statistics and posted
/// messages.
pub struct FrameData {
    /// Keys of the currently-open segments, innermost last.
    pub path: Vec<&'static str>,
    /// Start instants of the currently-open segments, parallel to `path`.
    pub start_times: Vec<std::time::Instant>,
    /// Per-key accumulated statistics, in order of first recording.
    pub table: Vec<SegmentEntry>,
    /// Messages posted while a segment was open, with the segment's key.
    pub messages: Vec<(&'static str, String)>,
}

/// What `enter` does: the key and a start instant are pushed, everything
/// else is untouched.
pub open spec fn entered(pre: FrameData, post: FrameData, name: &'static str) -> bool {
    &&& post.path@ == pre.path@.push(name)
    &&& post.start_times@.len() == pre.start_times@.len() + 1
    &&& forall|i: int|
        0 <= i < pre.start_times@.len() ==> #[trigger] post.start_times@[i]
            == pre.start_times@[i]
    &&& post.table@ == pre.table@
    &&& post.messages@ == pre.messages@
}

/// What a successful `leave` does, given the elapsed duration `d` the
/// clock reported: the innermost open segment is popped and `d` is
/// recorded for its key.
pub open spec fn left(pre: FrameData, post: FrameData, d: u64) -> bool {
    &&& pre.path@.len() > 0
    &&& post.path@ == pre.path@.drop_last()
    &&& post.start_times@ == pre.start_times@.drop_last()
    &&& table_after_record(pre.table@, post.table@, pre.path@.last()@, d)
    &&& post.messages@ == pre.messages@
}

/// Mutable access to one table row, in the style of an index.
fn entry_mut(v: &mut Vec<SegmentEntry>, i: usize) -> (e: &mut SegmentEntry)
    requires
        i < old(v).len(),
    ensures
        *e == old(v)@[i as int],
        final(v)@ == old(v)@.update(i as int, *final(e)),
{
    &mut v[i]
}

/// Index of the entry for `key`, if one exists.
fn find_key(t: &Vec<SegmentEntry>, key: &'static str) -> (r: Option<usize>)
    ensures
        match r {
            Some(i) => i < t@.len() && i as int == spec_key_index(t@, key@),
            None => spec_key_index(t@, key@) == -1,
        },
{
    let n = t.len();
    let mut i: usize = 0;
    while i < n
        invariant
            n == t@.len(),
            0 <= i <= n,
            forall|j: int| 0 <= j < i ==> (#[trigger] t@[j]).key@ != key@,
        decreases n - i,
    {
        if str_eq(t[i].key, key) {
            proof {
                lemma_first_match(t@, key@, i as int);
            }
            return Some(i);
        }
        i += 1;
    }
    proof {
        lemma_key_index(t@, key@);
        if spec_key_index(t@, key@) >= 0 {
            assert(t@[spec_key_index(t@, key@)].key@ == key@);
        }
    }
    None
}

impl FrameData {
    /// The stack is balanced with its start instants and the table is well
    /// formed.
    pub open spec fn wf(self) -> bool {
        &&& self.path@.len() == self.start_times@.len()
        &&& wf_table(self.table@)
    }

    /// A fresh, empty frame.
    pub fn new() -> (r: FrameData)
        ensures
            r.wf(),
            r.path@.len() == 0,
            r.start_times@.len() == 0,
            r.table@.len() == 0,
            r.messages@.len() == 0,
    {
        FrameData {
            path: Vec::new(),
            start_times: Vec::new(),
            table: Vec::new(),
            messages: Vec::new(),
        }
    }

    /// Open a segment: push the key and the present clock reading.
    pub fn enter(&mut self, name: &'static str)
        requires
            old(self).wf(),
        ensures
            final(self).wf(),
            entered(*old(self), *final(self), name),
    {
        self.path.push(name);
        self.start_times.push(crate::clock::instant_now());
    }

    /// Record one duration sample for `key`: fold it into the key's
    /// accumulator, creating the accumulator on first use.
    pub fn record(&mut self, key: &'static str, duration: u64)
        requires
            old(self).wf(),
        ensures
            final(self).wf(),
            table_after_record(old(self).table@, final(self).table@, key@, duration),
            final(self).path@ == old(self).path@,
            final(self).start_times@ == old(self).start_times@,
            final(self).messages@ == old(self).messages@,
    {
        let ghost t0 = self.table@;
        match find_key(&self.table, key) {
            Some(i) => {
                let e = entry_mut(&mut self.table, i);
                e.stats.fold(duration);
                proof {
                    let t1 = self.table@;
                    assert(t1 == t0.update(i as int, t1[i as int]));
                    assert(forall|j: int|
                        0 <= j < t0.len() && j != i ==> #[trigger] t1[j] == t0[j]);
                    assert(wf_table(t1));
                }
            },
            None => {
                let mut st = SegmentStats::new();
                st.fold(duration);
                self.table.push(SegmentEntry { key, stats: st });
                proof {
                    let t1 = self.table@;
                    lemma_key_index(t0, key@);
                    assert(forall|j: int|
                        0 <= j < t0.len() ==> #[trigger] t1[j] == t0[j]);
                    assert(t1[t0.len() as int].stats.samples@ =~= seq![duration]);
                    assert(wf_table(t1));
                }
            },
        }
    }

    /// Close the innermost open segment and attribute the elapsed time to
    /// the key its matching `enter` pushed. A `leave` with no open segment
    /// is a caller contract violation: it changes nothing and reports
    /// `false`, so the caller's chosen policy can observe it.
    pub fn leave(&mut self) -> (closed: bool)
        requires
            old(self).wf(),
        ensures
            final(self).wf(),
            old(self).path@.len() == 0 ==> !closed && *final(self) == *old(self),
            old(self).path@.len() > 0 ==> closed && (exists|d: u64|
                left(*old(self), *final(self), d)),
    {
        if self.path.len() == 0 {
            return false;
        }
        let start = self.start_times.pop().unwrap();
        let key = self.path.pop().unwrap();
        let elapsed = crate::clock::elapsed_nanos(&start);
        let d: u64 = if elapsed > (u64::MAX as u128) {
            u64::MAX
        } else {
            elapsed as u64
        };
        self.record(key, d);
        proof {
            assert(left(*old(self), *self, d));
        }
        true
    }

    /// Attach a message to the innermost open segment. Posting with no
    /// open segment is the same contract violation as an imbalanced
    /// `leave`: nothing changes and the caller sees `false`.
    pub fn post_message(&mut self, input: String) -> (posted: bool)
        requires
            old(self).wf(),
        ensures
            final(self).wf(),
            old(self).path@.len() == 0 ==> !posted && *final(self) == *old(self),
            old(self).path@.len() > 0 ==> posted && final(self).messages@ == old(
                self,
            ).messages@.push((old(self).path@.last(), input)) && final(self).path@ == old(
                self,
            ).path@ && final(self).start_times@ == old(self).start_times@ && final(self).table@
                == old(self).table@,
    {
        if self.path.len() == 0 {
            return false;
        }
        let i = self.path.len() - 1;
        let key = self.path[i];
        self.messages.push((key, input));
        true
    }
}

/// One instrumentation call, as the stack sees it: an `enter` with its
/// key, or a successful `leave` with the duration the clock reported.
pub enum FrameOp {
    /// An `enter` call with its key.
    Enter(&'static str),
    /// A successful `leave` call, with the elapsed duration it recorded.
    Leave(u64),
}

/// Whether `op` takes the frame from `pre` to `post`.
pub open spec fn step(pre: FrameData, post: FrameData, op: FrameOp) -> bool {
    match op {
        FrameOp::Enter(name) => entered(pre, post, name),
        FrameOp::Leave(d) => left(pre, post, d),
    }
}

/// Whether `states` is the trace of the calls of `ops`: one frame state
/// before each call and one after the last, each call stepping from its
/// state to the next.
pub open spec fn runs(states: Seq<FrameData>, ops: Seq<FrameOp>) -> bool {
    &&& states.len() == ops.len() + 1
    &&& forall|i: int| 0 <= i < ops.len() ==> step(states[i], #[trigger] states[i + 1], ops[i])
}

/// The key stack after the calls of `ops`, starting from `st`.
pub open spec fn key_stack(st: Seq<&'static str>, ops: Seq<FrameOp>) -> Seq<&'static str>
    decreases ops.len(),
{
    if ops.len() == 0 {
        st
    } else {
        match ops[0] {
            FrameOp::Enter(name) => key_stack(st.push(name), ops.drop_first()),
            FrameOp::Leave(_) => key_stack(st.drop_last(), ops.drop_first()),
        }
    }
}

/// Number of `enter` calls in `ops`.
pub open spec fn enters(ops: Seq<FrameOp>) -> int
    decreases ops.len(),
{
    if ops.len() == 0 {
        0
    } else {
        (if ops[0] is Enter {
            1int
        } else {
            0int
        }) + enters(ops.drop_first())
    }
}

/// Number of `leave` calls in `ops`.
pub open spec fn leaves(ops: Seq<FrameOp>) -> int
    decreases ops.len(),
{
    if ops.len() == 0 {
        0
    } else {
        (if ops[0] is Leave {
            1int
        } else {
            0int
        }) + leaves(ops.drop_first())
    }
}

/// Proper nesting: no prefix closes more segments than it has opened, and
/// every opened segment is closed.
pub open spec fn balanced(ops: Seq<FrameOp>) -> bool {
    &&& forall|k: int|
        0 <= k <= ops.len() ==> leaves(#[trigger] ops.take(k)) <= enters(ops.take(k))
    &&& enters(ops) == leaves(ops)
}

/// Splitting off the head of a prefix splits the counts.
proof fn lemma_counts_take_step(ops: Seq<FrameOp>, k: int)
    requires
        ops.len() > 0,
        0 <= k <= ops.drop_first().len(),
    ensures
        enters(ops.take(k + 1)) == (if ops[0] is Enter {
            1int
        } else {
            0int
        }) + enters(ops.drop_first().take(k)),
        leaves(ops.take(k + 1)) == (if ops[0] is Leave {
            1int
        } else {
            0int
        }) + leaves(ops.drop_first().take(k)),
{
    assert(ops.take(k + 1)[0] == ops[0]);
    assert(ops.take(k + 1).drop_first() =~= ops.drop_first().take(k));
}

/// Calls that never close more than `extra.len()` segments beyond what
/// they open leave a deeper stack's base untouched: the base distributes
/// out of the run, and the run's depth changes by opens minus closes.
proof fn lemma_key_stack_frame(
    base: Seq<&'static str>,
    extra: Seq<&'static str>,
    ops: Seq<FrameOp>,
)
    requires
        forall|k: int|
            0 <= k <= ops.len() ==> leaves(#[trigger] ops.take(k)) <= enters(ops.take(k))
                + extra.len(),
    ensures
        key_stack(base + extra, ops) == base + key_stack(extra, ops),
        key_stack(extra, ops).len() == extra.len() + enters(ops) - leaves(ops),
    decreases ops.len(),
{
    if ops.len() == 0 {
        assert(ops.take(0) =~= ops);
    } else {
        let r = ops.drop_first();
        assert(ops.take(ops.len() as int) =~= ops);
        match ops[0] {
            FrameOp::Enter(name) => {
                assert forall|k: int|
                    0 <= k <= r.len() implies leaves(#[trigger] r.take(k)) <= enters(r.take(k))
                    + extra.push(name).len() by {
                    lemma_counts_take_step(ops, k);
                    assert(leaves(ops.take(k + 1)) <= enters(ops.take(k + 1)) + extra.len());
                }
                assert((base + extra).push(name) =~= base + extra.push(name));
                lemma_key_stack_frame(base, extra.push(name), r);
                lemma_counts_take_step(ops, r.len() as int);
                assert(r.take(r.len() as int) =~= r);
            },
            FrameOp::Leave(_) => {
                assert(extra.len() >= 1) by {
                    assert(leaves(ops.take(1)) <= enters(ops.take(1)) + extra.len());
                    lemma_counts_take_step(ops, 0);
                    assert(r.take(0) =~= Seq::<FrameOp>::empty());
                    assert(enters(Seq::<FrameOp>::empty()) == 0);
                    assert(leaves(Seq::<FrameOp>::empty()) == 0);
                }
                assert forall|k: int|
                    0 <= k <= r.len() implies leaves(#[trigger] r.take(k)) <= enters(r.take(k))
                    + extra.drop_last().len() by {
                    lemma_counts_take_step(ops, k);
                    assert(leaves(ops.take(k + 1)) <= enters(ops.take(k + 1)) + extra.len());
                }
                assert((base + extra).drop_last() =~= base + extra.drop_last());
                lemma_key_stack_frame(base, extra.drop_last(), r);
                lemma_counts_take_step(ops, r.len() as int);
                assert(r.take(r.len() as int) =~= r);
            },
        }
    }
}

/// The frame's key stack follows `key_stack` along any trace of calls.
proof fn lemma_run_path(states: Seq<FrameData>, ops: Seq<FrameOp>)
    requires
        runs(states, ops),
    ensures
        states.last().path@ == key_stack(states.first().path@, ops),
    decreases ops.len(),
{
    if ops.len() > 0 {
        let tail = states.drop_first();
        let zero: int = 0;
        assert(step(states[zero], states[zero + 1], ops[zero]));
        assert forall|i: int| 0 <= i < ops.drop_first().len() implies step(
            tail[i],
            #[trigger] tail[i + 1],
            ops.drop_first()[i],
        ) by {
            assert(tail[i] == states[i + 1]);
            assert(tail[i + 1] == states[i + 2]);
            assert(step(states[i + 1], states[(i + 1) + 1], ops[i + 1]));
        }
        lemma_run_path(tail, ops.drop_first());
        assert(tail.last() == states.last());
        assert(tail.first() == states[1]);
    }
}

/// A properly nested run of enter and leave calls — any number of matched
/// pairs, however interleaved — returns the call stack to exactly its
/// prior state. Which key each leave credits is the pair lemmas' claim;
/// this one is the stack's balance.
pub proof fn lemma_balanced_ops_restore_stack(states: Seq<FrameData>, ops: Seq<FrameOp>)
    requires
        runs(states, ops),
        balanced(ops),
    ensures
        states.last().path@ == states.first().path@,
{
    lemma_run_path(states, ops);
    let f0 = states.first();
    let empty = Seq::<&'static str>::empty();
    lemma_key_stack_frame(f0.path@, empty, ops);
    assert(f0.path@ + empty =~= f0.path@);
    assert(key_stack(empty, ops) =~= empty);
    assert(f0.path@ + key_stack(empty, ops) =~= f0.path@);
}

/// A matched enter/leave pair restores the stack to its prior state and
/// attributes the elapsed duration to the entered key, leaving every other
/// key's samples untouched.
pub proof fn lemma_matched_pair(
    f0: FrameData,
    f1: FrameData,
    f2: FrameData,
    name: &'static str,
    d: u64,
)
    requires
        entered(f0, f1, name),
        left(f1, f2, d),
    ensures
        f2.path@ == f0.path@,
        f2.start_times@ == f0.start_times@,
        f2.messages@ == f0.messages@,
        samples_for(f2.table@, name@) == samples_for(f0.table@, name@).push(d),
        forall|k: Seq<char>| k != name@ ==> samples_for(f2.table@, k) == samples_for(f0.table@, k),
{
    assert(f1.path@.last() == name);
    assert(f2.path@ =~= f0.path@);
    assert(f2.start_times@ =~= f0.start_times@);
    lemma_record_samples(f1.table@, f2.table@, name@, d);
}

/// Proper nesting of two distinct segments: after enter(a), enter(b),
/// leave, leave, the stack is exactly as before, the inner leave
/// attributed its duration to `b`, the outer one to `a`, and every other
/// key's samples are untouched.
pub proof fn lemma_nested_pairs(
    f0: FrameData,
    f1: FrameData,
    f2: FrameData,
    f3: FrameData,
    f4: FrameData,
    a: &'static str,
    b: &'static str,
    d_inner: u64,
    d_outer: u64,
)
    requires
        a@ != b@,
        entered(f0, f1, a),
        entered(f1, f2, b),
        left(f2, f3, d_inner),
        left(f3, f4, d_outer),
    ensures
        f4.path@ == f0.path@,
        f4.start_times@ == f0.start_times@,
        samples_for(f4.table@, b@) == samples_for(f0.table@, b@).push(d_inner),
        samples_for(f4.table@, a@) == samples_for(f0.table@, a@).push(d_outer),
        forall|k: Seq<char>|
            k != a@ && k != b@ ==> samples_for(f4.table@, k) == samples_for(f0.table@, k),
{
    lemma_matched_pair(f1, f2, f3, b, d_inner);
    assert(f3.path@.last() == a);
    lemma_record_samples(f3.table@, f4.table@, a@, d_outer);
    assert(f4.path@ =~= f0.path@);
    assert(f4.start_times@ =~= f0.start_times@);
}

} // verus!
