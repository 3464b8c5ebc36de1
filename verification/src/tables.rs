//! The two result tables: which columns they have and what a row holds.
use vstd::prelude::*;
use crate::bench::{Measured, Timestamp};
use crate::jobs::{JobResult, JobResultView};
use crate::text::{decimal, decimal_string, digit_char, push_decimal};

verus! {

/// The columns of the table of single alignments.
pub open spec fn single_header() -> Seq<Seq<char>> {
    seq![
        "dataset"@,
        "algorithm"@,
        "graph_nodes"@,
        "graph_edges"@,
        "item_name"@,
        "item_length"@,
        "score"@,
        "visited"@,
        "runtime"@,
        "memory_baseline"@,
        "memory_peak"@,
        "memory_delta"@,
        "time_start"@,
        "time_end"@,
    ]
}

/// The columns of the table of whole-set alignments.
pub open spec fn full_msa_header() -> Seq<Seq<char>> {
    seq![
        "dataset"@,
        "algorithm"@,
        "runtime"@,
        "memory_baseline"@,
        "memory_peak"@,
        "memory_delta"@,
        "time_start"@,
        "time_end"@,
    ]
}

/// The texts of a sequence of cells.
pub open spec fn cell_texts(cells: Seq<String>) -> Seq<Seq<char>> {
    Seq::new(cells.len(), |i: int| cells[i]@)
}

/// The texts of a sequence of column names.
pub open spec fn name_texts(names: Seq<&'static str>) -> Seq<Seq<char>> {
    Seq::new(names.len(), |i: int| names[i]@)
}

/// The column names of the table of single alignments.
pub fn single_columns() -> (names: Vec<&'static str>)
    ensures
        name_texts(names@) == single_header(),
{
    let names = vec![
        "dataset",
        "algorithm",
        "graph_nodes",
        "graph_edges",
        "item_name",
        "item_length",
        "score",
        "visited",
        "runtime",
        "memory_baseline",
        "memory_peak",
        "memory_delta",
        "time_start",
        "time_end",
    ];
    assert(name_texts(names@) =~= single_header());
    names
}

/// The column names of the table of whole-set alignments.
pub fn full_msa_columns() -> (names: Vec<&'static str>)
    ensures
        name_texts(names@) == full_msa_header(),
{
    let names = vec![
        "dataset",
        "algorithm",
        "runtime",
        "memory_baseline",
        "memory_peak",
        "memory_delta",
        "time_start",
        "time_end",
    ];
    assert(name_texts(names@) =~= full_msa_header());
    names
}

/// The last `width` digits of `n`, with zeros in front where `n` has fewer.
pub open spec fn fixed_digits(n: nat, width: nat) -> Seq<char>
    decreases width,
{
    if width == 0 {
        Seq::empty()
    } else {
        fixed_digits(n / 10, (width - 1) as nat).push(digit_char((n % 10) as int))
    }
}

/// A time span of `nanos` nanoseconds, written in seconds with nine places
/// behind the point.
pub open spec fn seconds_text(nanos: nat) -> Seq<char> {
    decimal(nanos / 1_000_000_000) + seq!['.'] + fixed_digits(nanos % 1_000_000_000, 9)
}

fn push_fixed_digits(out: &mut String, n: u64, width: u32)
    ensures
        final(out)@ == old(out)@ + fixed_digits(n as nat, width as nat),
    decreases width,
{
    if width == 0 {
        assert(old(out)@ + Seq::<char>::empty() == old(out)@);
    } else {
        push_fixed_digits(out, n / 10, width - 1);
        let d: u8 = (n % 10) as u8;
        let unit: u8 = 48 + d;
        out.push(unit as char);
        assert(old(out)@ + fixed_digits(n as nat / 10, (width - 1) as nat).push(
            digit_char(d as int),
        ) == (old(out)@ + fixed_digits(n as nat / 10, (width - 1) as nat)).push(
            digit_char(d as int),
        ));
    }
}

/// The cell for a run time of `nanos` nanoseconds.
pub fn seconds_cell(nanos: u64) -> (cell: String)
    ensures
        cell@ == seconds_text(nanos as nat),
{
    let mut cell = String::new();
    push_decimal(&mut cell, (nanos / 1_000_000_000) as u128);
    cell.push('.');
    push_fixed_digits(&mut cell, nanos % 1_000_000_000, 9);
    assert(cell@ == seconds_text(nanos as nat)) by {
        let whole = decimal(nanos as nat / 1_000_000_000);
        assert((Seq::<char>::empty() + whole).push('.') == whole + seq!['.']);
    }
    cell
}

/// An amount of memory that may be unknown: its numeral, or nothing.
pub open spec fn amount_text(amount: Option<u64>) -> Seq<char> {
    match amount {
        Some(bytes) => decimal(bytes as nat),
        None => Seq::empty(),
    }
}

/// The cell for an amount of memory that may be unknown.
pub fn amount_cell(amount: Option<u64>) -> (cell: String)
    ensures
        cell@ == amount_text(amount),
{
    match amount {
        Some(bytes) => decimal_string(bytes),
        None => String::new(),
    }
}

/// What chrono shows for the moment that lies `millis` milliseconds after
/// the beginning of 1970 in UTC: the date, the time of day and the letters
/// `UTC`. Nothing where the moment lies outside the years chrono reckons
/// with.
pub uninterp spec fn utc_text(millis: int) -> Option<Seq<char>>;

/// The text of a formatted moment that may be absent.
pub open spec fn shown(text: Option<String>) -> Option<Seq<char>> {
    match text {
        Some(s) => Some(s@),
        None => None,
    }
}

/// `chrono::DateTime::from_timestamp_millis`, which gives the moment in UTC
/// or nothing where `millis` is out of range, and then the moment's
/// `to_string`. Both depend on `millis` alone; the contract gives the
/// outcome its name and claims nothing else of it.
#[verifier::external_body]
fn format_utc(millis: i64) -> (text: Option<String>)
    ensures
        shown(text) == utc_text(millis as int),
{
    match chrono::DateTime::from_timestamp_millis(millis) {
        Some(moment) => Some(moment.to_string()),
        None => None,
    }
}

/// The cell for a formatted moment: the text, or nothing where there is none.
pub open spec fn moment_text(formatted: Option<Seq<char>>) -> Seq<char> {
    match formatted {
        Some(text) => text,
        None => Seq::empty(),
    }
}

/// The cell for a formatted moment that may be absent.
pub fn moment_cell(formatted: Option<String>) -> (cell: String)
    ensures
        cell@ == moment_text(shown(formatted)),
{
    match formatted {
        Some(text) => text,
        None => String::new(),
    }
}

/// The cell for a moment: what chrono shows for it, or nothing where the
/// moment lies outside chrono's calendar.
pub fn time_cell(moment: Timestamp) -> (cell: String)
    ensures
        cell@ == moment_text(utc_text(moment.millis as int)),
{
    moment_cell(format_utc(moment.millis))
}

/// The cells of a measurement: run time in seconds, memory before, memory
/// at the end, the increase, and when the work began and ended.
pub open spec fn measured_cells(m: Measured) -> Seq<Seq<char>> {
    seq![
        seconds_text(m.runtime as nat),
        amount_text(m.memory_initial),
        amount_text(m.memory_total),
        decimal(m.memory as nat),
        moment_text(utc_text(m.time_start.millis as int)),
        moment_text(utc_text(m.time_end.millis as int)),
    ]
}

/// The row of a result in its table; a message that is no measurement has
/// no cells.
pub open spec fn row(message: JobResultView) -> Seq<Seq<char>> {
    match message {
        JobResultView::SingleSeqMeasurement(
            algorithm,
            dataset,
            score,
            nodes,
            edges,
            name,
            length,
            visited,
            measured,
        ) => seq![
            dataset,
            algorithm.name(),
            decimal(nodes as nat),
            decimal(edges as nat),
            name,
            decimal(length as nat),
            decimal(score as nat),
            decimal(visited as nat),
        ] + measured_cells(measured),
        JobResultView::FullMSAMeasurement(algorithm, dataset, measured) => seq![
            dataset,
            algorithm.name(),
        ] + measured_cells(measured),
        _ => Seq::empty(),
    }
}

/// Every row has one cell for each column of its table.
pub proof fn law_row_fits_header(message: JobResultView)
    ensures
        message is SingleSeqMeasurement ==> row(message).len() == single_header().len(),
        message is FullMSAMeasurement ==> row(message).len() == full_msa_header().len(),
        message is Finished || message is Error ==> row(message).len() == 0,
{
}

fn push_measured_cells(cells: &mut Vec<String>, m: &Measured)
    ensures
        cell_texts(final(cells)@) == cell_texts(old(cells)@) + measured_cells(*m),
{
    let ghost before = cell_texts(cells@);
    cells.push(seconds_cell(m.runtime));
    cells.push(amount_cell(m.memory_initial));
    cells.push(amount_cell(m.memory_total));
    cells.push(decimal_string(m.memory));
    cells.push(time_cell(m.time_start));
    cells.push(time_cell(m.time_end));
    assert(cell_texts(cells@) =~= before + measured_cells(*m));
}

/// The cells of the row that `message` adds to its table.
pub fn row_of(message: &JobResult) -> (cells: Vec<String>)
    ensures
        cell_texts(cells@) == row(message@),
{
    let mut cells: Vec<String> = Vec::new();
    match message {
        JobResult::SingleSeqMeasurement(
            algorithm,
            dataset,
            score,
            nodes,
            edges,
            name,
            length,
            visited,
            measured,
        ) => {
            cells.push(dataset.clone());
            cells.push(algorithm.to_str().to_owned());
            cells.push(decimal_string(*nodes as u64));
            cells.push(decimal_string(*edges as u64));
            cells.push(name.clone());
            cells.push(decimal_string(*length as u64));
            cells.push(decimal_string(*score as u64));
            cells.push(decimal_string(*visited as u64));
            assert(cell_texts(cells@) =~= row(message@).subrange(0, 8));
            push_measured_cells(&mut cells, measured);
            assert(cell_texts(cells@) =~= row(message@));
        },
        JobResult::FullMSAMeasurement(algorithm, dataset, measured) => {
            cells.push(dataset.clone());
            cells.push(algorithm.to_str().to_owned());
            assert(cell_texts(cells@) =~= row(message@).subrange(0, 2));
            push_measured_cells(&mut cells, measured);
            assert(cell_texts(cells@) =~= row(message@));
        },
        _ => {
            assert(cell_texts(cells@) =~= row(message@));
        },
    }
    cells
}

} // verus!
