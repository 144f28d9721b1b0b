//! The end-of-run report: the program-lifetime totals, which anchors are
//! shown and in what order, and the text of each line.
//!
//! Quantities with decimals (milliseconds, percentages, megabytes, rates) are
//! the caller's to compute and render. They arrive here as text, and this
//! module decides where each of them stands and whether it is shown.

use vstd::prelude::*;
use vstd::slice::slice_to_vec;
use vstd::string::StringSliceAdditionalSpecFns;
use crate::anchor::{Anchor, TimedBlock};
use crate::hash::ARRAY_LEN;
use crate::profiler::{Profiler, Table};
use crate::text::{append_bytes, append_decimal, decimal, label_display, label_text};

verus! {

/// The program-lifetime timer: both counters as read at program entry.
pub struct __MainTimer {
    pub os_start: u64,
    pub cpu_start: u64,
}

/// What the program took as a whole, in wall-clock ticks and in cycles.
pub struct Totals {
    pub total_os: u64,
    pub total_cpu: u64,
}

impl __MainTimer {
    /// Starts the lifetime timer with both counters just read.
    pub fn new(os_start: u64, cpu_start: u64) -> (timer: Self)
        ensures
            timer.os_start == os_start,
            timer.cpu_start == cpu_start,
    {
        __MainTimer { os_start, cpu_start }
    }

    /// Ends the lifetime timer with both counters just read.
    pub fn finish(&self, os_end: u64, cpu_end: u64) -> (totals: Totals)
        requires
            self.os_start <= os_end,
            self.cpu_start <= cpu_end,
        ensures
            totals.total_os == os_end - self.os_start,
            totals.total_cpu == cpu_end - self.cpu_start,
    {
        Totals { total_os: os_end - self.os_start, total_cpu: cpu_end - self.cpu_start }
    }
}

impl Totals {
    /// A rate in cycles per second can be derived: the wall clock advanced.
    pub open spec fn has_rate(self) -> bool {
        self.total_os != 0
    }

    /// Says whether a rate in cycles per second can be derived. Where none
    /// can, the report shows the rate as zero and leaves throughput out.
    pub fn rate_known(&self) -> (known: bool)
        ensures
            known == self.has_rate(),
    {
        self.total_os != 0
    }
}

/// One anchor that the report shows.
pub struct ReportRow {
    pub index: usize,
    pub block: TimedBlock,
}

/// A shown anchor, as mathematical values.
pub struct Row {
    pub index: int,
    pub anchor: Anchor,
}

impl View for ReportRow {
    type V = Row;

    open spec fn view(&self) -> Row {
        Row { index: self.index as int, anchor: self.block@ }
    }
}

/// The rows for the slots below `n`: in ascending order of slot, one for each
/// anchor whose inclusive count is not zero.
pub open spec fn reported_below(table: Table, n: int) -> Seq<Row>
    decreases n,
{
    if n <= 0 {
        Seq::empty()
    } else if table.anchors[n - 1].inclusive > 0 {
        reported_below(table, n - 1).push(Row { index: n - 1, anchor: table.anchors[n - 1] })
    } else {
        reported_below(table, n - 1)
    }
}

/// The rows of the report on `table`.
pub open spec fn reported(table: Table) -> Seq<Row> {
    reported_below(table, ARRAY_LEN as int)
}

/// The views of `rows`, in their order.
pub open spec fn rows_view(rows: Seq<ReportRow>) -> Seq<Row> {
    Seq::new(rows.len(), |j: int| rows[j]@)
}

/// Selects the anchors that the report shows, in the order in which it shows
/// them.
pub fn report_rows(profiler: &Profiler) -> (rows: Vec<ReportRow>)
    ensures
        rows_view(rows@) == reported(profiler@),
{
    let mut rows: Vec<ReportRow> = Vec::new();
    let mut i: usize = 0;
    while i < ARRAY_LEN
        invariant
            i <= ARRAY_LEN,
            rows_view(rows@) == reported_below(profiler@, i as int),
        decreases ARRAY_LEN - i,
    {
        let block = profiler.block(i);
        let ghost before = rows@;
        if block.elapsed_inclusive > 0 {
            rows.push(ReportRow { index: i, block });
            proof {
                assert(rows_view(rows@) =~= rows_view(before).push(
                    Row { index: i as int, anchor: block@ },
                ));
            }
        }
        i += 1;
    }
    rows
}

/// The report lists the slots in strictly ascending order, each with the
/// anchor that the table holds for it, and only anchors whose inclusive
/// count is not zero.
pub proof fn law_report_order(table: Table, n: int)
    requires
        0 <= n <= ARRAY_LEN,
    ensures
        forall|j: int|
            0 <= j < reported_below(table, n).len() ==> {
                let row = #[trigger] reported_below(table, n)[j];
                &&& 0 <= row.index < n
                &&& row.anchor == table.anchors[row.index]
                &&& row.anchor.inclusive > 0
            },
        forall|j: int, k: int|
            0 <= j < k < reported_below(table, n).len() ==> (#[trigger] reported_below(
                table,
                n,
            )[j]).index < (#[trigger] reported_below(table, n)[k]).index,
    decreases n,
{
    if n > 0 {
        law_report_order(table, n - 1);
        let rows = reported_below(table, n);
        let below = reported_below(table, n - 1);
        assert forall|j: int| 0 <= j < rows.len() implies {
            let row = #[trigger] rows[j];
            &&& 0 <= row.index < n
            &&& row.anchor == table.anchors[row.index]
            &&& row.anchor.inclusive > 0
        } by {
            if j < below.len() {
            }
        }
        assert forall|j: int, k: int| 0 <= j < k < rows.len() implies (#[trigger] rows[j]).index < (
        #[trigger] rows[k]).index by {
            if k < below.len() {
            }
        }
    }
}

/// A table in which no inclusive count was ever raised has no rows: its
/// report is the head alone.
pub proof fn law_silent_table_has_no_rows(table: Table, n: int)
    requires
        0 <= n <= ARRAY_LEN,
        forall|i: int| 0 <= i < n ==> (#[trigger] table.anchors[i]).inclusive <= 0,
    ensures
        reported_below(table, n).len() == 0,
    decreases n,
{
    if n > 0 {
        law_silent_table_has_no_rows(table, n - 1);
    }
}

/// The report leaves out no anchor whose inclusive count is not zero.
pub proof fn law_report_complete(table: Table, n: int, i: int)
    requires
        0 <= i < n <= ARRAY_LEN,
        table.anchors[i].inclusive > 0,
    ensures
        exists|j: int|
            0 <= j < reported_below(table, n).len() && (#[trigger] reported_below(
                table,
                n,
            )[j]).index == i,
    decreases n,
{
    if i == n - 1 {
        let j = reported_below(table, n).len() - 1;
        assert(reported_below(table, n)[j].index == i);
    } else {
        law_report_complete(table, n - 1, i);
        let j = choose|j: int|
            0 <= j < reported_below(table, n - 1).len() && (#[trigger] reported_below(
                table,
                n - 1,
            )[j]).index == i;
        assert(reported_below(table, n)[j].index == i);
    }
}

/// The decimal renderings that one line needs, as text.
pub struct RowNumbers {
    /// The exclusive count as a percentage of the total cycles.
    pub percent_exclusive: Vec<u8>,
    /// The inclusive count as a percentage of the total cycles.
    pub percent_inclusive: Vec<u8>,
    /// The processed bytes in megabytes.
    pub megabytes: Vec<u8>,
    /// The throughput in gigabytes per second.
    pub gigabytes_per_second: Vec<u8>,
}

/// The renderings of one line, as byte sequences.
pub struct Numbers {
    pub percent_exclusive: Seq<u8>,
    pub percent_inclusive: Seq<u8>,
    pub megabytes: Seq<u8>,
    pub gigabytes_per_second: Seq<u8>,
}

impl View for RowNumbers {
    type V = Numbers;

    open spec fn view(&self) -> Numbers {
        Numbers {
            percent_exclusive: self.percent_exclusive@,
            percent_inclusive: self.percent_inclusive@,
            megabytes: self.megabytes@,
            gigabytes_per_second: self.gigabytes_per_second@,
        }
    }
}

/// The line mentions the inclusive share: the anchor had children.
pub open spec fn shows_children(anchor: Anchor) -> bool {
    anchor.exclusive != anchor.inclusive
}

/// The line mentions throughput: bytes were reported and a rate can be
/// derived.
pub open spec fn shows_bandwidth(anchor: Anchor, totals: Totals) -> bool {
    anchor.bytes > 0 && totals.has_rate()
}

/// The part of a line that mentions the inclusive share, where it is shown.
pub open spec fn children_clause(anchor: Anchor, numbers: Numbers) -> Seq<u8> {
    if shows_children(anchor) {
        ", ".spec_bytes() + numbers.percent_inclusive + "% w/children".spec_bytes()
    } else {
        Seq::empty()
    }
}

/// The part of a line that mentions throughput, where it is shown.
pub open spec fn bandwidth_clause(anchor: Anchor, totals: Totals, numbers: Numbers) -> Seq<u8> {
    if shows_bandwidth(anchor, totals) {
        " ".spec_bytes() + numbers.megabytes + "mb at ".spec_bytes()
            + numbers.gigabytes_per_second + "gb/s".spec_bytes()
    } else {
        Seq::empty()
    }
}

/// The line of the report for one anchor.
pub open spec fn line_text(anchor: Anchor, totals: Totals, numbers: Numbers) -> Seq<u8> {
    "\t".spec_bytes() + label_text(anchor.label) + "[".spec_bytes() + decimal(anchor.hits as nat)
        + "]: ".spec_bytes() + decimal(anchor.exclusive as nat) + ", (".spec_bytes()
        + numbers.percent_exclusive + "%".spec_bytes() + children_clause(anchor, numbers)
        + ")".spec_bytes() + bandwidth_clause(anchor, totals, numbers) + "\n".spec_bytes()
}

/// The two lines at the head of the report.
pub open spec fn header_text(total_ms: Seq<u8>, cpu_freq: Seq<u8>) -> Seq<u8> {
    "\n______________________________________________________\n".spec_bytes()
        + "Total time: ".spec_bytes() + total_ms + "ms (CPU freq ".spec_bytes() + cpu_freq
        + ")\n".spec_bytes()
}

/// The lines for the first `n` of `rows`, one after the other.
pub open spec fn lines_text(rows: Seq<Row>, totals: Totals, numbers: Seq<Numbers>, n: int) -> Seq<u8>
    decreases n,
{
    if n <= 0 {
        Seq::empty()
    } else {
        lines_text(rows, totals, numbers, n - 1) + line_text(
            rows[n - 1].anchor,
            totals,
            numbers[n - 1],
        )
    }
}

/// The whole report: the head, then one line for each row.
pub open spec fn report_text(
    rows: Seq<Row>,
    totals: Totals,
    total_ms: Seq<u8>,
    cpu_freq: Seq<u8>,
    numbers: Seq<Numbers>,
) -> Seq<u8> {
    header_text(total_ms, cpu_freq) + lines_text(rows, totals, numbers, rows.len() as int)
}

/// Writes the part of a line that mentions the inclusive share, where it is
/// shown.
fn children_part(block: &TimedBlock, numbers: &RowNumbers) -> (part: Vec<u8>)
    ensures
        part@ == children_clause(block@, numbers@),
{
    if block.elapsed_exclusive != block.elapsed_inclusive {
        let mut part = slice_to_vec(", ".as_bytes());
        append_bytes(&mut part, numbers.percent_inclusive.as_slice());
        append_bytes(&mut part, "% w/children".as_bytes());
        part
    } else {
        Vec::new()
    }
}

/// Writes the part of a line that mentions throughput, where it is shown.
fn bandwidth_part(block: &TimedBlock, totals: &Totals, numbers: &RowNumbers) -> (part: Vec<u8>)
    ensures
        part@ == bandwidth_clause(block@, *totals, numbers@),
{
    if block.processed_byte_count > 0 && totals.rate_known() {
        let mut part = slice_to_vec(" ".as_bytes());
        append_bytes(&mut part, numbers.megabytes.as_slice());
        append_bytes(&mut part, "mb at ".as_bytes());
        append_bytes(&mut part, numbers.gigabytes_per_second.as_slice());
        append_bytes(&mut part, "gb/s".as_bytes());
        part
    } else {
        Vec::new()
    }
}

/// Writes the line of the report for one row.
pub fn report_line(row: &ReportRow, totals: &Totals, numbers: &RowNumbers) -> (line: Vec<u8>)
    ensures
        line@ == line_text(row@.anchor, *totals, numbers@),
{
    let text = label_display(row.block.label.as_slice());
    let children = children_part(&row.block, numbers);
    let bandwidth = bandwidth_part(&row.block, totals, numbers);
    let mut line = slice_to_vec("\t".as_bytes());
    append_bytes(&mut line, text.as_slice());
    append_bytes(&mut line, "[".as_bytes());
    append_decimal(&mut line, row.block.hit_count);
    append_bytes(&mut line, "]: ".as_bytes());
    append_decimal(&mut line, row.block.elapsed_exclusive);
    append_bytes(&mut line, ", (".as_bytes());
    append_bytes(&mut line, numbers.percent_exclusive.as_slice());
    append_bytes(&mut line, "%".as_bytes());
    append_bytes(&mut line, children.as_slice());
    append_bytes(&mut line, ")".as_bytes());
    append_bytes(&mut line, bandwidth.as_slice());
    append_bytes(&mut line, "\n".as_bytes());
    line
}

/// Writes the two lines at the head of the report.
pub fn report_header(total_ms: &[u8], cpu_freq: &[u8]) -> (head: Vec<u8>)
    ensures
        head@ == header_text(total_ms@, cpu_freq@),
{
    let mut head = slice_to_vec(
        "\n______________________________________________________\n".as_bytes(),
    );
    append_bytes(&mut head, "Total time: ".as_bytes());
    append_bytes(&mut head, total_ms);
    append_bytes(&mut head, "ms (CPU freq ".as_bytes());
    append_bytes(&mut head, cpu_freq);
    append_bytes(&mut head, ")\n".as_bytes());
    head
}

/// The renderings in `numbers`, in their order.
pub open spec fn numbers_view(numbers: Seq<RowNumbers>) -> Seq<Numbers> {
    Seq::new(numbers.len(), |j: int| numbers[j]@)
}

/// Writes the whole report: the head, then the rows in their order, each
/// with its own renderings.
#[verifier::rlimit(50)]
pub fn report(
    rows: &Vec<ReportRow>,
    totals: &Totals,
    total_ms: &[u8],
    cpu_freq: &[u8],
    numbers: &Vec<RowNumbers>,
) -> (text: Vec<u8>)
    requires
        numbers.len() == rows.len(),
    ensures
        text@ == report_text(
            rows_view(rows@),
            *totals,
            total_ms@,
            cpu_freq@,
            numbers_view(numbers@),
        ),
{
    let mut text = report_header(total_ms, cpu_freq);
    let mut i: usize = 0;
    while i < rows.len()
        invariant
            i <= rows.len(),
            numbers.len() == rows.len(),
            text@ == header_text(total_ms@, cpu_freq@) + lines_text(
                rows_view(rows@),
                *totals,
                numbers_view(numbers@),
                i as int,
            ),
        decreases rows.len() - i,
    {
        let line = report_line(&rows[i], totals, &numbers[i]);
        append_bytes(&mut text, line.as_slice());
        proof {
            let shown = rows_view(rows@);
            let rendered = numbers_view(numbers@);
            let so_far = lines_text(shown, *totals, rendered, i as int);
            assert(shown[i as int] == rows[i as int]@);
            assert(rendered[i as int] == numbers[i as int]@);
            assert(lines_text(shown, *totals, rendered, i + 1) == so_far + line@);
            assert(text@ =~= header_text(total_ms@, cpu_freq@) + (so_far + line@));
        }
        i += 1;
    }
    text
}

} // verus!
