//! The reporter: a pure pass over a run record that ranks each frame's
//! segments by total consumed time and renders them as text. The exact
//! output text is pinned by spec functions, so rendering the same record
//! twice yields byte-identical text.

use vstd::prelude::*;
use crate::frame::{FrameData, SegmentEntry};
use crate::run::ProfileData;
use crate::stats::{spec_mean, spec_mad, lemma_seq_sum_bounds};
use crate::text::{
    dec_seq, lex_lt, lemma_lex_lt_asym, lemma_lex_lt_trans, spec_format_time, format_time,
    str_lt, u128_to_string,
};

verus! {

/// One display row of a frame report.
#[derive(Clone, Copy)]
pub struct Row {
    /// The segment's key.
    pub key: &'static str,
    /// Number of samples recorded for the key.
    pub count: usize,
    /// Mean duration, rounded down.
    pub mean: u64,
    /// Mean absolute deviation against the final mean, rounded down.
    pub mad: u64,
    /// Smallest sample.
    pub min: u64,
    /// Largest sample.
    pub max: u64,
    /// Aggregate time: count times mean; the ranking key.
    pub total: u128,
}

/// The display row a table entry yields.
pub open spec fn spec_row(e: SegmentEntry) -> Row {
    Row {
        key: e.key,
        count: e.stats.samples@.len() as usize,
        mean: spec_mean(e.stats.samples@) as u64,
        mad: spec_mad(e.stats.samples@) as u64,
        min: e.stats.min,
        max: e.stats.max,
        total: (e.stats.samples@.len() * spec_mean(e.stats.samples@)) as u128,
    }
}

/// The display rows of a table, one per entry, in table order.
pub open spec fn rows_of(t: Seq<SegmentEntry>) -> Seq<Row> {
    t.map_values(|e: SegmentEntry| spec_row(e))
}

/// Display order: larger totals first; totals tie-break on the key in
/// lexicographic order, so equal totals render in a stable order.
pub open spec fn spec_row_before(a: Row, b: Row) -> bool {
    a.total > b.total || (a.total == b.total && lex_lt(a.key@, b.key@))
}

/// `r` inserted in front of the first element of `s` it displays before.
pub open spec fn insert_row(r: Row, s: Seq<Row>) -> Seq<Row>
    decreases s.len(),
{
    if s.len() == 0 {
        seq![r]
    } else if spec_row_before(r, s[0]) {
        seq![r] + s
    } else {
        seq![s[0]] + insert_row(r, s.drop_first())
    }
}

/// Insertion sort of the display rows by display order.
pub open spec fn sort_rows(s: Seq<Row>) -> Seq<Row>
    decreases s.len(),
{
    if s.len() == 0 {
        Seq::empty()
    } else {
        insert_row(s.last(), sort_rows(s.drop_last()))
    }
}

/// One rendered report line.
pub open spec fn spec_row_line(r: Row) -> Seq<char> {
    "    * "@ + r.key@ + ": "@ + dec_seq(r.count as int) + " calls, mean: "@ + spec_format_time(
        r.mean as int,
    ) + " +- "@ + spec_format_time(r.mad as int) + ", range: "@ + spec_format_time(r.min as int)
        + "--"@ + spec_format_time(r.max as int) + "\n"@
}

/// The rendered lines of a row sequence, in order.
pub open spec fn spec_rows_text(s: Seq<Row>) -> Seq<char>
    decreases s.len(),
{
    if s.len() == 0 {
        Seq::empty()
    } else {
        spec_rows_text(s.drop_last()) + spec_row_line(s.last())
    }
}

/// A frame's report: its rows, sorted by display order, rendered in turn.
pub open spec fn spec_frame_report(f: FrameData) -> Seq<char> {
    spec_rows_text(sort_rows(rows_of(f.table@)))
}

/// One frame's block in the run report: a header with the frame's ordinal
/// position, then the frame's report.
pub open spec fn spec_frame_block(f: FrameData, i: int) -> Seq<char> {
    ">-- Frame "@ + dec_seq(i) + ": --<\n"@ + spec_frame_report(f) + "\n"@
}

/// The whole run report: one block per frame, frames in creation order.
pub open spec fn spec_run_report(frames: Seq<FrameData>) -> Seq<char>
    decreases frames.len(),
{
    if frames.len() == 0 {
        Seq::empty()
    } else {
        spec_run_report(frames.drop_last()) + spec_frame_block(
            frames.last(),
            frames.len() - 1,
        )
    }
}

/// No row displays before one that precedes it: the report's lines are in
/// display order.
pub open spec fn rows_sorted(s: Seq<Row>) -> bool {
    forall|i: int, j: int|
        0 <= i < j < s.len() ==> !spec_row_before(#[trigger] s[j], #[trigger] s[i])
}

/// Display order is asymmetric.
proof fn lemma_row_before_asym(a: Row, b: Row)
    requires
        spec_row_before(a, b),
    ensures
        !spec_row_before(b, a),
{
    if a.total == b.total {
        lemma_lex_lt_asym(a.key@, b.key@);
    }
}

/// Display order is transitive.
proof fn lemma_row_before_trans(a: Row, b: Row, c: Row)
    requires
        spec_row_before(a, b),
        spec_row_before(b, c),
    ensures
        spec_row_before(a, c),
{
    if a.total == b.total && b.total == c.total {
        lemma_lex_lt_trans(a.key@, b.key@, c.key@);
    }
}

/// Inserting a row neither loses nor invents rows.
proof fn lemma_insert_row_multiset(r: Row, s: Seq<Row>)
    ensures
        insert_row(r, s).to_multiset() == s.to_multiset().insert(r),
    decreases s.len(),
{
    broadcast use vstd::seq_lib::group_to_multiset_ensures;
    broadcast use vstd::multiset::group_multiset_axioms;

    if s.len() == 0 {
        assert(insert_row(r, s) =~= Seq::<Row>::empty().push(r));
        assert(s.to_multiset() =~= Seq::<Row>::empty().to_multiset());
    } else if spec_row_before(r, s[0]) {
        assert(insert_row(r, s) =~= s.insert(0, r));
        vstd::seq_lib::to_multiset_insert(s, 0, r);
    } else {
        let s1 = s.drop_first();
        let rest = insert_row(r, s1);
        lemma_insert_row_multiset(r, s1);
        assert(insert_row(r, s) =~= rest.insert(0, s[0]));
        vstd::seq_lib::to_multiset_insert(rest, 0, s[0]);
        assert(s =~= s1.insert(0, s[0]));
        vstd::seq_lib::to_multiset_insert(s1, 0, s[0]);
        assert(s1.to_multiset().insert(r).insert(s[0]) =~= s1.to_multiset().insert(
            s[0],
        ).insert(r));
    }
}

/// Inserting into a sorted row sequence keeps it sorted.
proof fn lemma_insert_row_sorted(r: Row, s: Seq<Row>)
    requires
        rows_sorted(s),
    ensures
        rows_sorted(insert_row(r, s)),
    decreases s.len(),
{
    broadcast use vstd::seq_lib::group_to_multiset_ensures;
    broadcast use vstd::multiset::group_multiset_axioms;

    if s.len() == 0 {
    } else if spec_row_before(r, s[0]) {
        let out = seq![r] + s;
        assert forall|i: int, j: int| 0 <= i < j < out.len() implies !spec_row_before(
            out[j],
            out[i],
        ) by {
            if i == 0 {
                assert(out[j] == s[j - 1]);
                if spec_row_before(out[j], r) {
                    lemma_row_before_trans(out[j], r, s[0]);
                    if j == 1 {
                        lemma_row_before_asym(s[0], s[0]);
                    } else {
                        assert(!spec_row_before(s[j - 1], s[0]));
                    }
                }
            } else {
                assert(out[i] == s[i - 1] && out[j] == s[j - 1]);
            }
        }
    } else {
        let s1 = s.drop_first();
        let rest = insert_row(r, s1);
        assert(rows_sorted(s1)) by {
            assert(forall|k: int| 0 <= k < s1.len() ==> #[trigger] s1[k] == s[k + 1]);
        }
        lemma_insert_row_sorted(r, s1);
        lemma_insert_row_multiset(r, s1);
        let out = seq![s[0]] + rest;
        assert forall|i: int, j: int| 0 <= i < j < out.len() implies !spec_row_before(
            out[j],
            out[i],
        ) by {
            if i == 0 {
                let x = out[j];
                assert(rest.contains(x)) by {
                    assert(rest[j - 1] == x);
                }
                assert(rest.to_multiset().count(x) > 0);
                if x == r {
                    assert(!spec_row_before(r, s[0]));
                } else {
                    assert(s1.to_multiset().count(x) > 0);
                    assert(s1.contains(x));
                    let k = choose|k: int| 0 <= k < s1.len() && s1[k] == x;
                    assert(s[k + 1] == x);
                    assert(!spec_row_before(x, s[0]));
                }
            } else {
                assert(out[i] == rest[i - 1] && out[j] == rest[j - 1]);
            }
        }
    }
}

/// Sorting arranges exactly the given rows, in display order: larger
/// totals first, totals tie-broken by the key. With pairwise distinct
/// keys this pins one arrangement, so equal reports render identically.
pub proof fn lemma_sort_rows_sorted(s: Seq<Row>)
    ensures
        rows_sorted(sort_rows(s)),
        sort_rows(s).to_multiset() == s.to_multiset(),
    decreases s.len(),
{
    broadcast use vstd::seq_lib::group_to_multiset_ensures;

    if s.len() > 0 {
        let s0 = s.drop_last();
        lemma_sort_rows_sorted(s0);
        lemma_insert_row_sorted(s.last(), sort_rows(s0));
        lemma_insert_row_multiset(s.last(), sort_rows(s0));
        assert(s =~= s0.push(s.last()));
        assert(s0.push(s.last()).to_multiset() =~= s0.to_multiset().insert(s.last()));
    }
}

/// The display row for one table entry.
fn row_of(e: &SegmentEntry) -> (r: Row)
    requires
        e.stats.wf(),
        e.stats.samples@.len() >= 1,
    ensures
        r == spec_row(*e),
{
    let count = e.stats.count();
    let mean = e.stats.mean();
    let mad = e.stats.mean_absolute_deviation();
    proof {
        lemma_seq_sum_bounds(e.stats.samples@, u64::MAX as int);
        assert((count as int) * (mean as int) < (u128::MAX as int)) by (nonlinear_arith)
            requires
                count <= usize::MAX,
                usize::MAX <= u64::MAX,
                mean <= u64::MAX,
        ;
    }
    let total = (count as u128) * (mean as u128);
    Row { key: e.key, count, mean, mad, min: e.stats.min, max: e.stats.max, total }
}

/// Whether `a` displays before `b`.
fn row_before(a: &Row, b: &Row) -> (r: bool)
    ensures
        r == spec_row_before(*a, *b),
{
    a.total > b.total || (a.total == b.total && str_lt(a.key, b.key))
}

/// Inserting at the first position whose element `r` displays before is
/// what `insert_row` does.
proof fn lemma_insert_row_at(r: Row, s: Seq<Row>, j: int)
    requires
        0 <= j <= s.len(),
        forall|k: int| 0 <= k < j ==> !spec_row_before(r, #[trigger] s[k]),
        j < s.len() ==> spec_row_before(r, s[j]),
    ensures
        insert_row(r, s) == s.subrange(0, j) + seq![r] + s.subrange(j, s.len() as int),
    decreases j,
{
    if j == 0 {
        if s.len() == 0 {
            assert(insert_row(r, s) =~= s.subrange(0, 0) + seq![r] + s.subrange(0, 0));
        } else {
            assert(insert_row(r, s) =~= s.subrange(0, 0) + seq![r] + s.subrange(
                0,
                s.len() as int,
            ));
        }
    } else {
        let s1 = s.drop_first();
        assert(forall|k: int| 0 <= k < j - 1 ==> #[trigger] s1[k] == s[k + 1]);
        lemma_insert_row_at(r, s1, j - 1);
        assert(seq![s[0]] + insert_row(r, s1) =~= s.subrange(0, j) + seq![r] + s.subrange(
            j,
            s.len() as int,
        ));
    }
}

/// Insert `row` into the sorted vector at its display position.
fn insert_row_exec(sorted: &mut Vec<Row>, row: Row)
    ensures
        final(sorted)@ == insert_row(row, old(sorted)@),
{
    let ghost s0 = sorted@;
    let n = sorted.len();
    let mut j: usize = 0;
    while j < n
        invariant
            n == sorted@.len(),
            s0 == sorted@,
            s0 == old(sorted)@,
            0 <= j <= n,
            forall|k: int| 0 <= k < j ==> !spec_row_before(row, #[trigger] s0[k]),
        decreases n - j,
    {
        if row_before(&row, &sorted[j]) {
            proof {
                lemma_insert_row_at(row, s0, j as int);
            }
            sorted.insert(j, row);
            proof {
                assert(sorted@ =~= insert_row(row, s0));
            }
            return ;
        }
        j += 1;
    }
    proof {
        lemma_insert_row_at(row, s0, n as int);
    }
    sorted.insert(n, row);
    proof {
        assert(sorted@ =~= insert_row(row, s0));
    }
}

/// Render one report line.
fn row_line(r: &Row) -> (out: String)
    ensures
        out@ == spec_row_line(*r),
{
    let mut s = String::from_str("    * ");
    s.append(r.key);
    s.append(": ");
    let count_text = u128_to_string(r.count as u128);
    s.append(count_text.as_str());
    s.append(" calls, mean: ");
    let mean_text = format_time(r.mean as u128);
    s.append(mean_text.as_str());
    s.append(" +- ");
    let mad_text = format_time(r.mad as u128);
    s.append(mad_text.as_str());
    s.append(", range: ");
    let min_text = format_time(r.min as u128);
    s.append(min_text.as_str());
    s.append("--");
    let max_text = format_time(r.max as u128);
    s.append(max_text.as_str());
    s.append("\n");
    proof {
        assert(s@ =~= spec_row_line(*r));
    }
    s
}

impl FrameData {
    /// Render this frame's segment report: one line per key, ranked by
    /// total consumed time, ties in stable key order.
    pub fn stringify(&self) -> (out: String)
        requires
            self.wf(),
        ensures
            out@ == spec_frame_report(*self),
    {
        let n = self.table.len();
        let mut rows: Vec<Row> = Vec::new();
        let mut i: usize = 0;
        while i < n
            invariant
                self.wf(),
                n == self.table@.len(),
                0 <= i <= n,
                rows@ == rows_of(self.table@.take(i as int)),
            decreases n - i,
        {
            let row = row_of(&self.table[i]);
            rows.push(row);
            proof {
                assert(rows@ =~= rows_of(self.table@.take(i + 1)));
            }
            i += 1;
        }
        proof {
            assert(self.table@.take(n as int) =~= self.table@);
        }
        let mut sorted: Vec<Row> = Vec::new();
        let mut i: usize = 0;
        while i < n
            invariant
                n == rows@.len(),
                0 <= i <= n,
                sorted@ == sort_rows(rows@.take(i as int)),
            decreases n - i,
        {
            insert_row_exec(&mut sorted, rows[i]);
            proof {
                assert(rows@.take(i + 1).drop_last() =~= rows@.take(i as int));
            }
            i += 1;
        }
        proof {
            assert(rows@.take(n as int) =~= rows@);
        }
        let m = sorted.len();
        let mut out = String::new();
        let mut i: usize = 0;
        while i < m
            invariant
                m == sorted@.len(),
                0 <= i <= m,
                out@ == spec_rows_text(sorted@.take(i as int)),
            decreases m - i,
        {
            let line = row_line(&sorted[i]);
            out.append(line.as_str());
            proof {
                assert(sorted@.take(i + 1).drop_last() =~= sorted@.take(i as int));
            }
            i += 1;
        }
        proof {
            assert(sorted@.take(m as int) =~= sorted@);
        }
        out
    }
}

impl ProfileData {
    /// Render the whole run: one block per frame, frames in creation
    /// order, each with its ordinal header. The text is a function of the
    /// record alone, so two renderings are byte-identical.
    pub fn stringify(&self) -> (out: String)
        requires
            self.wf(),
        ensures
            out@ == spec_run_report(self.frames@),
    {
        let n = self.frames.len();
        let mut out = String::new();
        let mut i: usize = 0;
        while i < n
            invariant
                self.wf(),
                n == self.frames@.len(),
                0 <= i <= n,
                out@ == spec_run_report(self.frames@.take(i as int)),
            decreases n - i,
        {
            out.append(">-- Frame ");
            let index_text = u128_to_string(i as u128);
            out.append(index_text.as_str());
            out.append(": --<\n");
            let body = self.frames[i].stringify();
            out.append(body.as_str());
            out.append("\n");
            proof {
                assert(self.frames@.take(i + 1).drop_last() =~= self.frames@.take(i as int));
                assert(out@ =~= spec_run_report(self.frames@.take(i + 1)));
            }
            i += 1;
        }
        proof {
            assert(self.frames@.take(n as int) =~= self.frames@);
        }
        out
    }
}

} // verus!
