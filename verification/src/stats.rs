//! Latencies and outcomes of one kind of operation on one key.
use crate::text::{
    align_right, column_width, decimal, decimal_text, right_aligned, right_aligned_text_is_a_cell,
    right_cell_at, right_cell_goes_on,
};
use hdrhistogram::errors::CreationError;
use hdrhistogram::Histogram;
use vstd::multiset::Multiset;
use vstd::prelude::*;
use vstd::string::StringExecFns;

verus! {

/// The significant decimal digits that the histograms keep.
pub const SIGNIFICANT_DIGITS: u8 = 3;

/// The number of latencies, from 0 up, that a histogram of three significant digits holds.
pub const EXACT_LATENCIES: u64 = 2048;

/// The latency that stands for those that a histogram cannot hold.
pub const CLAMPED_LATENCY: u64 = 2;

/// Why a histogram could not be made.
#[verifier::external_type_specification]
#[verifier::external_body]
pub struct ExCreationError(CreationError);

/// A histogram of latencies in microseconds, made by `hdrhistogram::Histogram::<u64>::new`.
///
/// As such a histogram is made, it can hold the values below a limit, each in a counter of its
/// own, and its highest trackable value is 2. It is only recorded to with clamping, by which it
/// never grows.
#[verifier::external_body]
pub struct LatencyHistogram {
    inner: Histogram<u64>,
}

/// The values that a histogram has counted, each as often as it was counted.
pub uninterp spec fn counted(h: LatencyHistogram) -> Multiset<u64>;

/// The limit below which values have counters in a histogram.
pub uninterp spec fn value_limit(h: LatencyHistogram) -> nat;

/// The limit of a new histogram: the least power of two that is at least twice the power of ten
/// to the significant digits.
pub open spec fn limit_for(sigfig: u8) -> nat {
    if sigfig == 1 {
        32
    } else if sigfig == 2 {
        256
    } else if sigfig == 3 {
        2048
    } else if sigfig == 4 {
        32768
    } else {
        262144
    }
}

/// Calls `hdrhistogram::Histogram::<u64>::new`, which takes up to five significant digits. The
/// new histogram has counted nothing. Zero digits, with which some counters stand for more than
/// one value, are left out.
#[verifier::external_body]
fn histogram_new(sigfig: u8) -> (h: Result<LatencyHistogram, CreationError>)
    requires
        sigfig >= 1,
    ensures
        h is Ok <==> sigfig <= 5,
        h matches Ok(h) ==> {
            &&& counted(h) == Multiset::<u64>::empty()
            &&& value_limit(h) == limit_for(sigfig)
        },
{
    Histogram::new(sigfig).map(|inner| LatencyHistogram { inner })
}

/// The value that is counted for `value`: itself, or the highest trackable value where the
/// histogram has no counter for it.
pub open spec fn clamped(value: u64, limit: nat) -> u64 {
    if value < limit {
        value
    } else {
        CLAMPED_LATENCY
    }
}

/// What has been counted once `value` has been counted too. A counter stops at its maximum.
pub open spec fn counted_with(before: Multiset<u64>, value: u64) -> Multiset<u64> {
    if before.count(value) < u64::MAX {
        before.insert(value)
    } else {
        before
    }
}

/// Calls `hdrhistogram::Histogram::saturating_record`, which counts the value, clamped, once.
#[verifier::external_body]
fn histogram_record(h: &mut LatencyHistogram, value: u64)
    ensures
        counted(*final(h)) == counted_with(counted(*old(h)), clamped(value, value_limit(*old(h)))),
        value_limit(*final(h)) == value_limit(*old(h)),
{
    h.inner.saturating_record(value)
}

/// Calls `hdrhistogram::Histogram::clone`. The copy has counted what the histogram has counted.
#[verifier::external_body]
fn histogram_clone(h: &LatencyHistogram) -> (copy: LatencyHistogram)
    ensures
        counted(copy) == counted(*h),
        value_limit(copy) == value_limit(*h),
{
    LatencyHistogram { inner: h.inner.clone() }
}

/// Calls `hdrhistogram::Histogram::reset`, which forgets what was counted and keeps the limit.
#[verifier::external_body]
fn histogram_reset(h: &mut LatencyHistogram)
    ensures
        counted(*final(h)) == Multiset::<u64>::empty(),
        value_limit(*final(h)) == value_limit(*old(h)),
{
    h.inner.reset()
}

/// Calls `hdrhistogram::Histogram::len`: how many values have been counted. The total stops at
/// its maximum.
#[verifier::external_body]
fn histogram_len(h: &LatencyHistogram) -> (n: u64)
    ensures
        n == if counted(*h).len() <= u64::MAX { counted(*h).len() } else { u64::MAX as nat },
{
    h.inner.len()
}

/// `max` is the greatest of the values, or 0 where there are none.
pub open spec fn is_greatest(values: Multiset<u64>, max: u64) -> bool {
    if values.len() == 0 {
        max == 0
    } else {
        values.count(max) > 0 && forall|v: u64| #[trigger] values.count(v) > 0 ==> v <= max
    }
}

/// Calls `hdrhistogram::Histogram::max`: the greatest value counted, or 0.
#[verifier::external_body]
fn histogram_max(h: &LatencyHistogram) -> (max: u64)
    ensures
        is_greatest(counted(*h), max),
{
    h.inner.max()
}

/// `list` gives each of the values once, in ascending order, with its count.
pub open spec fn lists_counts(values: Multiset<u64>, list: Seq<(u64, u64)>) -> bool {
    &&& forall|i: int, j: int| 0 <= i < j < list.len() ==> list[i].0 < list[j].0
    &&& forall|i: int| 0 <= i < list.len() ==> (#[trigger] list[i]).1 == values.count(list[i].0) > 0
    &&& forall|v: u64| #[trigger]
        values.count(v) > 0 ==> exists|i: int| 0 <= i < list.len() && (#[trigger] list[i]).0 == v
}

/// Calls `hdrhistogram::Histogram::iter_recorded`, which visits the counters that are not zero in
/// ascending order of their values.
#[verifier::external_body]
fn histogram_counts(h: &LatencyHistogram) -> (list: Vec<(u64, u64)>)
    ensures
        lists_counts(counted(*h), list@),
{
    h.inner.iter_recorded().map(|v| (v.value_iterated_to(), v.count_at_value())).collect()
}

/// The latencies and outcomes of one kind of operation on one key.
pub struct OpStats {
    period: LatencyHistogram,
    total: LatencyHistogram,
    success: u64,
    errors: u64,
}

/// Operation statistics as a mathematical value.
pub struct OpCounts {
    /// The latencies since the last snapshot.
    pub period: Multiset<u64>,
    /// The latencies since the start.
    pub total: Multiset<u64>,
    /// How many operations succeeded.
    pub success: u64,
    /// How many operations failed.
    pub errors: u64,
}

impl View for OpStats {
    type V = OpCounts;

    closed spec fn view(&self) -> OpCounts {
        OpCounts {
            period: counted(self.period),
            total: counted(self.total),
            success: self.success,
            errors: self.errors,
        }
    }
}

/// What one operation adds to the statistics. The counters wrap around.
pub open spec fn recorded(before: OpCounts, us: u64, ok: bool) -> OpCounts {
    let latency = clamped(us, EXACT_LATENCIES as nat);
    OpCounts {
        period: counted_with(before.period, latency),
        total: counted_with(before.total, latency),
        success: if ok { wrapped_next(before.success) } else { before.success },
        errors: if ok { before.errors } else { wrapped_next(before.errors) },
    }
}

/// The number after `n`, where 0 follows the greatest.
pub open spec fn wrapped_next(n: u64) -> u64 {
    if n == u64::MAX { 0 } else { (n + 1) as u64 }
}

/// One row of the periodic report, but for the quantiles.
pub struct PeriodRow {
    /// All operations so far that succeeded.
    pub success: u64,
    /// All operations so far that failed.
    pub errors: u64,
    /// The operations of the period that succeeded.
    pub ok: u64,
    /// The operations of the period that failed.
    pub err: u64,
    /// The latencies counted in the period.
    pub count: u64,
    /// The greatest latency of the period.
    pub max_us: u64,
    /// Each latency of the period, in ascending order, with how often it was counted.
    pub latencies: Vec<(u64, u64)>,
}

impl OpStats {
    /// Both histograms hold latencies up to the same limit.
    pub closed spec fn wf(&self) -> bool {
        &&& value_limit(self.period) == EXACT_LATENCIES
        &&& value_limit(self.total) == EXACT_LATENCIES
    }

    /// Statistics of no operation.
    pub fn new() -> (s: OpStats)
        ensures
            s.wf(),
            s@ == (OpCounts {
                period: Multiset::empty(),
                total: Multiset::empty(),
                success: 0,
                errors: 0,
            }),
    {
        OpStats {
            period: histogram_new(SIGNIFICANT_DIGITS).unwrap(),
            total: histogram_new(SIGNIFICANT_DIGITS).unwrap(),
            success: 0,
            errors: 0,
        }
    }

    /// How many operations succeeded.
    pub fn success(&self) -> (n: u64)
        ensures
            n == self@.success,
    {
        self.success
    }

    /// How many operations failed.
    pub fn errors(&self) -> (n: u64)
        ensures
            n == self@.errors,
    {
        self.errors
    }

    /// Takes an operation into account that took `us` microseconds.
    pub fn record(&mut self, us: u64, ok: bool)
        requires
            old(self).wf(),
        ensures
            final(self).wf(),
            final(self)@ == recorded(old(self)@, us, ok),
    {
        histogram_record(&mut self.period, us);
        histogram_record(&mut self.total, us);
        if ok {
            self.success = self.success.wrapping_add(1);
        } else {
            self.errors = self.errors.wrapping_add(1);
        }
    }

    /// Takes the latencies of the period and begins a new one. The row counts the operations since
    /// the given numbers of successes and errors, which are those of the previous row.
    pub fn snap_row(&mut self, last_s: u64, last_e: u64) -> (row: PeriodRow)
        requires
            old(self).wf(),
            last_s <= old(self)@.success,
            last_e <= old(self)@.errors,
        ensures
            final(self).wf(),
            final(self)@ == (OpCounts { period: Multiset::empty(), ..old(self)@ }),
            row.success == old(self)@.success,
            row.errors == old(self)@.errors,
            row.ok == old(self)@.success - last_s,
            row.err == old(self)@.errors - last_e,
            row.count == if old(self)@.period.len() <= u64::MAX {
                old(self)@.period.len()
            } else {
                u64::MAX as nat
            },
            is_greatest(old(self)@.period, row.max_us),
            lists_counts(old(self)@.period, row.latencies@),
    {
        let snap = histogram_clone(&self.period);
        histogram_reset(&mut self.period);
        PeriodRow {
            success: self.success,
            errors: self.errors,
            ok: self.success - last_s,
            err: self.errors - last_e,
            count: histogram_len(&snap),
            max_us: histogram_max(&snap),
            latencies: histogram_counts(&snap),
        }
    }
}

/// A line of the periodic report: ten cells, right-aligned in their columns.
pub open spec fn report_line(
    op: Seq<char>,
    sh: Seq<char>,
    t_s: Seq<char>,
    ok: Seq<char>,
    err: Seq<char>,
    count: Seq<char>,
    p50: Seq<char>,
    p99: Seq<char>,
    p999: Seq<char>,
    max: Seq<char>,
) -> Seq<char> {
    right_aligned(op, 4) + " "@ + right_aligned(sh, 3) + " "@ + right_aligned(t_s, 6) + " "@
        + right_aligned(ok, 8) + " "@ + right_aligned(err, 8) + " "@ + right_aligned(count, 8) + " "@
        + right_aligned(p50, 9) + " "@ + right_aligned(p99, 9) + " "@ + right_aligned(p999, 9) + " "@
        + right_aligned(max, 10)
}

/// Appends a space and a right-aligned cell.
fn add_cell(line: &mut String, cell: &str, width: usize)
    ensures
        final(line)@ == old(line)@ + " "@ + right_aligned(cell@, width as nat),
{
    line.append(" ");
    line.append(align_right(cell, width).as_str());
}

fn fmt_report_line(
    op: &str,
    sh: &str,
    t_s: &str,
    ok: &str,
    err: &str,
    count: &str,
    p50: &str,
    p99: &str,
    p999: &str,
    max: &str,
) -> (s: String)
    ensures
        s@ == report_line(op@, sh@, t_s@, ok@, err@, count@, p50@, p99@, p999@, max@),
{
    let mut s = align_right(op, 4);
    add_cell(&mut s, sh, 3);
    add_cell(&mut s, t_s, 6);
    add_cell(&mut s, ok, 8);
    add_cell(&mut s, err, 8);
    add_cell(&mut s, count, 8);
    add_cell(&mut s, p50, 9);
    add_cell(&mut s, p99, 9);
    add_cell(&mut s, p999, 9);
    add_cell(&mut s, max, 10);
    s
}

/// Writes the line of column titles of the periodic report.
pub fn report_titles() -> (s: String)
    ensures
        s@ == report_line(
            "op"@,
            "sh"@,
            "t_s"@,
            "ok"@,
            "err"@,
            "count"@,
            "p50_us"@,
            "p99_us"@,
            "p999_us"@,
            "max_us"@,
        ),
{
    fmt_report_line(
        "op",
        "sh",
        "t_s",
        "ok",
        "err",
        "count",
        "p50_us",
        "p99_us",
        "p999_us",
        "max_us",
    )
}

/// Writes a row of the periodic report. The time since the start comes as text, the quantiles as
/// numbers.
pub fn row_text(
    label: &str,
    shard: usize,
    t_s: &str,
    row: &PeriodRow,
    p50: u64,
    p99: u64,
    p999: u64,
) -> (s: String)
    ensures
        s@ == report_line(
            label@,
            decimal(shard as nat),
            t_s@,
            decimal(row.ok as nat),
            decimal(row.err as nat),
            decimal(row.count as nat),
            decimal(p50 as nat),
            decimal(p99 as nat),
            decimal(p999 as nat),
            decimal(row.max_us as nat),
        ),
{
    fmt_report_line(
        label,
        decimal_text(shard as u64).as_str(),
        t_s,
        decimal_text(row.ok).as_str(),
        decimal_text(row.err).as_str(),
        decimal_text(row.count).as_str(),
        decimal_text(p50).as_str(),
        decimal_text(p99).as_str(),
        decimal_text(p999).as_str(),
        decimal_text(row.max_us).as_str(),
    )
}

/// The statistics after a run of operations, each given by its latency and outcome.
pub open spec fn recorded_all(before: OpCounts, ops: Seq<(u64, bool)>) -> OpCounts
    decreases ops.len(),
{
    if ops.len() == 0 {
        before
    } else {
        recorded(recorded_all(before, ops.drop_last()), ops.last().0, ops.last().1)
    }
}

/// How many of the operations succeeded.
pub open spec fn successes(ops: Seq<(u64, bool)>) -> nat
    decreases ops.len(),
{
    if ops.len() == 0 {
        0
    } else {
        successes(ops.drop_last()) + if ops.last().1 { 1nat } else { 0nat }
    }
}

proof fn lemma_count_grows(values: Multiset<u64>, v: u64)
    requires
        values.len() < u64::MAX,
    ensures
        counted_with(values, v) == values.insert(v),
        counted_with(values, v).len() == values.len() + 1,
{
    broadcast use vstd::multiset::group_multiset_axioms;

    assert(values.count(v) <= values.len());
}

/// Each operation is counted once, as a success or an error, and adds one latency to the period.
/// The numbers must stay below the counters' maximum.
pub proof fn every_operation_is_counted(before: OpCounts, ops: Seq<(u64, bool)>)
    requires
        before.success + ops.len() <= u64::MAX,
        before.errors + ops.len() <= u64::MAX,
        before.period.len() + ops.len() <= u64::MAX,
    ensures
        successes(ops) <= ops.len(),
        recorded_all(before, ops).success == before.success + successes(ops),
        recorded_all(before, ops).errors == before.errors + ops.len() - successes(ops),
        recorded_all(before, ops).period.len() == before.period.len() + ops.len(),
    decreases ops.len(),
{
    if ops.len() > 0 {
        every_operation_is_counted(before, ops.drop_last());
        let c = recorded_all(before, ops.drop_last());
        lemma_count_grows(c.period, clamped(ops.last().0, EXACT_LATENCIES as nat));
    }
}

/// Each operation adds one latency to the total, below the counters' maximum.
pub proof fn total_counts_every_operation(before: OpCounts, ops: Seq<(u64, bool)>)
    requires
        before.total.len() + ops.len() <= u64::MAX,
    ensures
        recorded_all(before, ops).total.len() == before.total.len() + ops.len(),
    decreases ops.len(),
{
    if ops.len() > 0 {
        total_counts_every_operation(before, ops.drop_last());
        let c = recorded_all(before, ops.drop_last());
        lemma_count_grows(c.total, clamped(ops.last().0, EXACT_LATENCIES as nat));
    }
}

/// A row accounts for every latency of its period: if the period holds one latency for each
/// operation since the previous row, this is so however many operations follow.
pub proof fn rows_account_for_their_latencies(
    before: OpCounts,
    last_s: u64,
    last_e: u64,
    ops: Seq<(u64, bool)>,
)
    requires
        before.period.len() == (before.success - last_s) + (before.errors - last_e),
        before.success + ops.len() <= u64::MAX,
        before.errors + ops.len() <= u64::MAX,
        before.period.len() + ops.len() <= u64::MAX,
    ensures
        ({
            let after = recorded_all(before, ops);
            after.period.len() == (after.success - last_s) + (after.errors - last_e)
        }),
{
    every_operation_is_counted(before, ops);
}

/// The total never holds fewer of a latency than the period does.
pub open spec fn total_covers_period(c: OpCounts) -> bool {
    forall|v: u64| #[trigger] c.period.count(v) <= c.total.count(v)
}

/// Operations keep the total ahead of the period. A new period, which is empty, keeps it trivially.
pub proof fn total_keeps_covering_period(before: OpCounts, ops: Seq<(u64, bool)>)
    requires
        total_covers_period(before),
        forall|v: u64| #[trigger] before.total.count(v) <= u64::MAX,
    ensures
        total_covers_period(recorded_all(before, ops)),
        total_covers_period(OpCounts { period: Multiset::empty(), ..recorded_all(before, ops) }),
        forall|v: u64| #[trigger] recorded_all(before, ops).total.count(v) <= u64::MAX,
    decreases ops.len(),
{
    broadcast use vstd::multiset::group_multiset_axioms;

    if ops.len() > 0 {
        total_keeps_covering_period(before, ops.drop_last());
        let c = recorded_all(before, ops.drop_last());
        let d = recorded_all(before, ops);
        let latency = clamped(ops.last().0, EXACT_LATENCIES as nat);
        assert forall|v: u64| #[trigger] d.period.count(v) <= d.total.count(v) by {
            assert(c.period.count(v) <= c.total.count(v));
        }
        assert forall|v: u64| #[trigger] d.total.count(v) <= u64::MAX by {
            assert(c.total.count(v) <= u64::MAX);
        }
    }
}

/// Counting a value raises the count of that value by one, unless it is at its maximum, and
/// leaves that of every other value as it is.
proof fn lemma_counted_with(before: Multiset<u64>, value: u64, v: u64)
    ensures
        counted_with(before, value).count(v) == if v == value && before.count(v) < u64::MAX {
            before.count(v) + 1
        } else {
            before.count(v)
        },
{
    broadcast use vstd::multiset::group_multiset_axioms;

}

/// An operation raises the count of its latency in microseconds by one, in the period and in the
/// total, whatever its outcome, and leaves that of every other latency as it is. For a latency of
/// 2048 or more, 2 is counted. Counts stop at their maximum.
pub proof fn operation_counts_its_latency(before: OpCounts, us: u64, ok: bool, v: u64)
    ensures
        us < 2048 ==> recorded(before, us, ok).period.count(v) == before.period.count(v) + if v == us
            && before.period.count(v) < u64::MAX { 1int } else { 0int },
        us < 2048 ==> recorded(before, us, ok).total.count(v) == before.total.count(v) + if v == us
            && before.total.count(v) < u64::MAX { 1int } else { 0int },
        us >= 2048 ==> recorded(before, us, ok).period.count(v) == before.period.count(v) + if v == 2
            && before.period.count(v) < u64::MAX { 1int } else { 0int },
        us >= 2048 ==> recorded(before, us, ok).total.count(v) == before.total.count(v) + if v == 2
            && before.total.count(v) < u64::MAX { 1int } else { 0int },
{
    lemma_counted_with(before.period, if us < 2048 { us } else { 2 }, v);
    lemma_counted_with(before.total, if us < 2048 { us } else { 2 }, v);
}

/// An operation that succeeds raises the number of successes by one, one that fails that of
/// errors, and either leaves the other number as it is. Past their maximum the numbers go on at 0.
pub proof fn operation_counts_its_outcome(before: OpCounts, us: u64)
    ensures
        before.success < u64::MAX ==> recorded(before, us, true).success == before.success + 1,
        before.success == u64::MAX ==> recorded(before, us, true).success == 0,
        recorded(before, us, true).errors == before.errors,
        before.errors < u64::MAX ==> recorded(before, us, false).errors == before.errors + 1,
        before.errors == u64::MAX ==> recorded(before, us, false).errors == 0,
        recorded(before, us, false).success == before.success,
{
}

/// The greatest value of a row is one of those counted and none is greater; without any it is 0.
pub proof fn greatest_value_is_counted(values: Multiset<u64>, max: u64, v: u64)
    requires
        is_greatest(values, max),
    ensures
        values.len() == 0 ==> max == 0,
        values.len() > 0 ==> values.count(max) > 0,
        values.count(v) > 0 ==> v <= max,
{
    broadcast use vstd::multiset::group_multiset_axioms;

    assert(values.count(v) <= values.len());
}

/// The list of a row gives a value if and only if it was counted, with its count, and once, in
/// ascending order.
pub proof fn list_gives_every_count(values: Multiset<u64>, list: Seq<(u64, u64)>, v: u64)
    requires
        lists_counts(values, list),
    ensures
        forall|n: u64| list.contains((v, n)) <==> n > 0 && n == values.count(v),
        forall|i: int, j: int|
            0 <= i < j < list.len() ==> (#[trigger] list[i]).0 < (#[trigger] list[j]).0,
{
    assert forall|n: u64| list.contains((v, n)) <==> n > 0 && n == values.count(v) by {
        if list.contains((v, n)) {
            let i = choose|i: int| 0 <= i < list.len() && list[i] == (v, n);
            assert(list[i].1 == values.count(list[i].0));
        }
        if n > 0 && n == values.count(v) {
            let i = choose|i: int| 0 <= i < list.len() && (#[trigger] list[i]).0 == v;
            assert(list[i].1 == values.count(list[i].0));
            assert(list[i] == (v, n));
        }
    }
}

/// A line of the report holds its ten cells, right-aligned in columns of fixed widths, with one
/// space between each two.
pub proof fn report_line_has_its_columns(cells: Seq<Seq<char>>)
    requires
        cells.len() == 10,
    ensures
        ({
            let line = report_line(
                cells[0],
                cells[1],
                cells[2],
                cells[3],
                cells[4],
                cells[5],
                cells[6],
                cells[7],
                cells[8],
                cells[9],
            );
            let b1 = column_width(cells[0], 4) + 1;
            let b2 = b1 + column_width(cells[1], 3) + 1;
            let b3 = b2 + column_width(cells[2], 6) + 1;
            let b4 = b3 + column_width(cells[3], 8) + 1;
            let b5 = b4 + column_width(cells[4], 8) + 1;
            let b6 = b5 + column_width(cells[5], 8) + 1;
            let b7 = b6 + column_width(cells[6], 9) + 1;
            let b8 = b7 + column_width(cells[7], 9) + 1;
            let b9 = b8 + column_width(cells[8], 9) + 1;
            &&& right_cell_at(line, 0, cells[0], 4)
            &&& right_cell_at(line, b1, cells[1], 3) && line[b1 - 1] == ' '
            &&& right_cell_at(line, b2, cells[2], 6) && line[b2 - 1] == ' '
            &&& right_cell_at(line, b3, cells[3], 8) && line[b3 - 1] == ' '
            &&& right_cell_at(line, b4, cells[4], 8) && line[b4 - 1] == ' '
            &&& right_cell_at(line, b5, cells[5], 8) && line[b5 - 1] == ' '
            &&& right_cell_at(line, b6, cells[6], 9) && line[b6 - 1] == ' '
            &&& right_cell_at(line, b7, cells[7], 9) && line[b7 - 1] == ' '
            &&& right_cell_at(line, b8, cells[8], 9) && line[b8 - 1] == ' '
            &&& right_cell_at(line, b9, cells[9], 10) && line[b9 - 1] == ' '
            &&& line.len() == b9 + column_width(cells[9], 10)
        }),
{
    let space = " "@;
    reveal_strlit(" ");
    assert(space.len() == 1 && space[0] == ' ');
    let l0 = Seq::<char>::empty();
    let l1 = l0 + right_aligned(cells[0], 4) + space;
    let l2 = l1 + right_aligned(cells[1], 3) + space;
    let l3 = l2 + right_aligned(cells[2], 6) + space;
    let l4 = l3 + right_aligned(cells[3], 8) + space;
    let l5 = l4 + right_aligned(cells[4], 8) + space;
    let l6 = l5 + right_aligned(cells[5], 8) + space;
    let l7 = l6 + right_aligned(cells[6], 9) + space;
    let l8 = l7 + right_aligned(cells[7], 9) + space;
    let l9 = l8 + right_aligned(cells[8], 9) + space;
    let t9 = right_aligned(cells[9], 10);
    let t8 = right_aligned(cells[8], 9) + (space + t9);
    let t7 = right_aligned(cells[7], 9) + (space + t8);
    let t6 = right_aligned(cells[6], 9) + (space + t7);
    let t5 = right_aligned(cells[5], 8) + (space + t6);
    let t4 = right_aligned(cells[4], 8) + (space + t5);
    let t3 = right_aligned(cells[3], 8) + (space + t4);
    let t2 = right_aligned(cells[2], 6) + (space + t3);
    let t1 = right_aligned(cells[1], 3) + (space + t2);
    let t0 = right_aligned(cells[0], 4) + (space + t1);
    let line = l9 + t9;
    assert(l0 + right_aligned(cells[0], 4) =~= right_aligned(cells[0], 4));
    assert(t9 + l0 =~= t9);
    right_cell_goes_on(l8, cells[8], 9, space, t9);
    right_cell_goes_on(l7, cells[7], 9, space, t8);
    right_cell_goes_on(l6, cells[6], 9, space, t7);
    right_cell_goes_on(l5, cells[5], 8, space, t6);
    right_cell_goes_on(l4, cells[4], 8, space, t5);
    right_cell_goes_on(l3, cells[3], 8, space, t4);
    right_cell_goes_on(l2, cells[2], 6, space, t3);
    right_cell_goes_on(l1, cells[1], 3, space, t2);
    right_cell_goes_on(l0, cells[0], 4, space, t1);
    right_aligned_text_is_a_cell(l9, cells[9], 10, l0);
    assert(l9 + t9 + l0 =~= line);
}

} // verus!
