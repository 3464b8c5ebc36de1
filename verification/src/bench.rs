//! What one measurement records: run time, resident memory, and where and
//! when the work ran.
use vstd::prelude::*;
use crate::errors::POABenchError;
use crate::text::{
    decimal, is_digit, lemma_decimal_injective, lemma_decimal_shape, lemma_numeral_unique,
    scan_decimal, to_chars,
};

verus! {

/// A number of bytes of resident memory.
pub type Bytes = u64;

/// A moment in UTC, in whole milliseconds since 1970-01-01T00:00:00.
#[derive(Debug, Clone, Copy, PartialEq, Eq, Structural)]
pub struct Timestamp {
    pub millis: i64,
}

/// What is read at the beginning and again at the end of a measurement.
#[derive(Debug, Clone, Copy)]
pub struct Sample {
    /// The calendar time.
    pub time: Timestamp,
    /// The logical core the process runs on, where the platform tells.
    pub cpu: Option<i32>,
    /// The clock frequency of that core in kHz, where the platform tells.
    pub cpu_freq: Option<u64>,
}

/// `chrono::Utc::now`, as the whole milliseconds since the beginning of 1970
/// that `DateTime::timestamp_millis` gives. The outcome is the reading of a
/// clock, so nothing is claimed of it.
#[verifier::external_body]
fn utc_now() -> (now: Timestamp) {
    Timestamp { millis: chrono::Utc::now().timestamp_millis() }
}

impl Sample {
    /// A sample taken now: the readings of the core, stamped with the
    /// current time in UTC, cut to the millisecond.
    pub fn take(cpu: Option<i32>, cpu_freq: Option<u64>) -> (sample: Sample)
        ensures
            sample.cpu == cpu,
            sample.cpu_freq == cpu_freq,
    {
        Sample { time: utc_now(), cpu, cpu_freq }
    }
}

/// The record of one measured unit of work.
#[derive(Debug, Clone, Copy, PartialEq, Eq)]
pub struct Measured {
    /// Run time in nanoseconds.
    pub runtime: u64,
    /// Peak resident memory before the work began.
    pub memory_initial: Option<Bytes>,
    /// Peak resident memory after the work ended.
    pub memory_total: Option<Bytes>,
    /// Increase in memory usage: never below zero.
    pub memory: Bytes,
    /// UTC time when the work began and ended.
    pub time_start: Timestamp,
    pub time_end: Timestamp,
    /// Logical core at the beginning and at the end.
    pub cpu_start: Option<i32>,
    pub cpu_end: Option<i32>,
    /// Clock frequency in kHz at the beginning and at the end.
    pub cpu_freq_start: Option<u64>,
    pub cpu_freq_end: Option<u64>,
}

/// By how much `total` lies above `baseline`; zero where it does not.
pub open spec fn memory_delta(baseline: Bytes, total: Bytes) -> Bytes {
    if total >= baseline {
        (total - baseline) as Bytes
    } else {
        0
    }
}

/// Puts together the record of one unit of work from what was read around it.
///
/// `memory_start` is the baseline taken before any measurement, `start` and
/// `end` are the samples taken right before and right after the work,
/// `runtime` is the time the work took in nanoseconds and `memory_total` the
/// peak resident memory read once the work had ended, while its result was
/// still held.
pub fn measure(
    memory_start: Bytes,
    start: Sample,
    end: Sample,
    runtime: u64,
    memory_total: Bytes,
) -> (measured: Measured)
    ensures
        measured == (Measured {
            runtime,
            memory_initial: Some(memory_start),
            memory_total: Some(memory_total),
            memory: memory_delta(memory_start, memory_total),
            time_start: start.time,
            time_end: end.time,
            cpu_start: start.cpu,
            cpu_end: end.cpu,
            cpu_freq_start: start.cpu_freq,
            cpu_freq_end: end.cpu_freq,
        }),
        0 <= measured.memory <= memory_total,
{
    let memory = memory_total.saturating_sub(memory_start);
    Measured {
        runtime,
        memory_initial: Some(memory_start),
        memory_total: Some(memory_total),
        memory,
        time_start: start.time,
        time_end: end.time,
        cpu_start: start.cpu,
        cpu_end: end.cpu,
        cpu_freq_start: start.cpu_freq,
        cpu_freq_end: end.cpu_freq,
    }
}

/// The peak resident memory in bytes, from the figure the operating system
/// reports, which is in kilobytes unless `in_bytes` says otherwise. Nothing
/// where the number of bytes does not fit 64 bits.
pub fn maxrss_bytes(reported: u64, in_bytes: bool) -> (bytes: Option<Bytes>)
    ensures
        bytes == if in_bytes {
            Some(reported)
        } else if reported * 1024 <= u64::MAX {
            Some((reported * 1024) as u64)
        } else {
            None
        },
{
    if in_bytes {
        Some(reported)
    } else {
        reported.checked_mul(1024)
    }
}

/// Blanks and line ends, which may stand around a reading.
pub open spec fn is_blank(c: char) -> bool {
    c == ' ' || c == '\t' || c == '\n' || c == '\r'
}

/// A text of blanks only.
pub open spec fn all_blank(s: Seq<char>) -> bool {
    forall|i: int| 0 <= i < s.len() ==> is_blank(#[trigger] s[i])
}

/// `text` is `before`, the numeral of `value` and `behind`, where `before`
/// and `behind` are blanks only.
pub open spec fn framed(text: Seq<char>, before: Seq<char>, value: u64, behind: Seq<char>) -> bool {
    all_blank(before) && all_blank(behind) && text == before + decimal(value as nat) + behind
}

/// `text` is the numeral of `value`, with nothing but blanks before and behind it.
pub open spec fn reads_as(text: Seq<char>, value: u64) -> bool {
    exists|before: Seq<char>, behind: Seq<char>| framed(text, before, value, behind)
}

/// A reading begins where the blanks at the beginning of its text end.
proof fn lemma_reading_place(
    buf: Seq<char>,
    start: int,
    before: Seq<char>,
    value: u64,
    behind: Seq<char>,
)
    requires
        0 <= start <= buf.len(),
        forall|i: int| 0 <= i < start ==> is_blank(#[trigger] buf[i]),
        start < buf.len() ==> !is_blank(buf[start]),
        framed(buf, before, value, behind),
    ensures
        before.len() == start,
        start + decimal(value as nat).len() <= buf.len(),
        buf.subrange(start, start + decimal(value as nat).len()) == decimal(value as nat),
        behind == buf.subrange(start + decimal(value as nat).len(), buf.len() as int),
{
    let numeral = decimal(value as nat);
    lemma_decimal_shape(value as nat);
    let at = before.len() as int;
    assert(buf[at] == numeral[0]);
    assert(is_digit(numeral[0]));
    if at < start {
        assert(is_blank(buf[at]));
    }
    if at > start {
        assert(buf[start] == before[start]);
        assert(is_blank(before[start]));
    }
    assert(buf.subrange(at, at + numeral.len()) == numeral);
    assert(buf.subrange(at + numeral.len(), buf.len() as int) == behind);
}

/// A text holds at most one reading.
pub proof fn law_one_reading(text: Seq<char>, a: u64, b: u64)
    requires
        reads_as(text, a),
        reads_as(text, b),
    ensures
        a == b,
{
    let (before_a, behind_a) = choose|before: Seq<char>, behind: Seq<char>|
        framed(text, before, a, behind);
    let (before_b, behind_b) = choose|before: Seq<char>, behind: Seq<char>|
        framed(text, before, b, behind);
    let first = decimal(a as nat);
    let second = decimal(b as nat);
    lemma_decimal_shape(a as nat);
    lemma_decimal_shape(b as nat);
    let start = before_a.len() as int;
    assert(text[start] == first[0]);
    assert(text[before_b.len() as int] == second[0]);
    if start < before_b.len() {
        assert(text[start] == before_b[start]);
        assert(is_blank(before_b[start]));
    }
    if before_b.len() < start {
        assert(text[before_b.len() as int] == before_a[before_b.len() as int]);
        assert(is_blank(before_a[before_b.len() as int]));
    }
    if first.len() < second.len() {
        let at = start + first.len();
        assert(text[at] == second[first.len() as int]);
        assert(is_digit(second[first.len() as int]));
        assert(text[at] == behind_a[0]);
        assert(is_blank(behind_a[0]));
    }
    if second.len() < first.len() {
        let at = start + second.len();
        assert(text[at] == first[second.len() as int]);
        assert(is_digit(first[second.len() as int]));
        assert(text[at] == behind_b[0]);
        assert(is_blank(behind_b[0]));
    }
    assert(first =~= second) by {
        assert forall|i: int| 0 <= i < first.len() implies first[i] == second[i] by {
            assert(text[start + i] == first[i]);
            assert(text[start + i] == second[i]);
        }
    }
    lemma_decimal_injective(a as nat, b as nat);
}

fn blank(c: char) -> (yes: bool)
    ensures
        yes == is_blank(c),
{
    c == ' ' || c == '\t' || c == '\n' || c == '\r'
}

/// Reads the clock frequency of a core, in kHz, from what the operating
/// system's file for it holds: one numeral, with a line end behind it.
/// Nothing where the text is anything else.
pub fn parse_cpu_freq(text: &str) -> (khz: Option<u64>)
    ensures
        match khz {
            Some(value) => reads_as(text@, value),
            None => forall|value: u64| !reads_as(text@, value),
        },
{
    let buf = to_chars(text);
    let mut start: usize = 0;
    while start < buf.len() && blank(buf[start])
        invariant
            start <= buf.len(),
            forall|i: int| 0 <= i < start ==> is_blank(#[trigger] buf@[i]),
        decreases buf.len() - start,
    {
        start += 1;
    }
    let (wide, end) = match scan_decimal(&buf, start) {
        Some(found) => found,
        None => {
            proof {
                assert forall|value: u64| !reads_as(text@, value) by {
                    if reads_as(text@, value) {
                        let (before, behind) = choose|before: Seq<char>, behind: Seq<char>|
                            framed(text@, before, value, behind);
                        lemma_reading_place(buf@, start as int, before, value, behind);
                        let e = start + decimal(value as nat).len();
                        assert(buf@.subrange(start as int, e) == decimal(value as nat));
                        if e < buf.len() {
                            assert(buf@[e] == behind[0]);
                            assert(is_blank(behind[0]));
                        }
                    }
                }
            }
            return None;
        },
    };
    if wide > 0xffff_ffff_ffff_ffff {
        proof {
            assert forall|other: u64| !reads_as(text@, other) by {
                if reads_as(text@, other) {
                    let (before, behind) = choose|before: Seq<char>, behind: Seq<char>|
                        framed(text@, before, other, behind);
                    lemma_reading_place(buf@, start as int, before, other, behind);
                    let e = start + decimal(other as nat).len();
                    if e < buf.len() {
                        assert(buf@[e] == behind[0]);
                        assert(is_blank(behind[0]));
                    }
                    lemma_numeral_unique(
                        buf@,
                        start as int,
                        wide as nat,
                        end as int,
                        other as nat,
                        e,
                    );
                }
            }
        }
        return None;
    }
    let value: u64 = wide as u64;
    let mut stop: usize = end;
    while stop < buf.len() && blank(buf[stop])
        invariant
            end <= stop <= buf.len(),
            forall|i: int| end <= i < stop ==> is_blank(#[trigger] buf@[i]),
        decreases buf.len() - stop,
    {
        stop += 1;
    }
    if stop < buf.len() {
        proof {
            assert forall|other: u64| !reads_as(text@, other) by {
                if reads_as(text@, other) {
                    let (before, behind) = choose|before: Seq<char>, behind: Seq<char>|
                        framed(text@, before, other, behind);
                    lemma_reading_place(buf@, start as int, before, other, behind);
                    let numeral = decimal(other as nat);
                    lemma_decimal_shape(other as nat);
                    lemma_decimal_shape(value as nat);
                    let e = start + numeral.len();
                    assert(buf@.subrange(start as int, e) == numeral);
                    if e < end {
                        assert(buf@[e] == behind[0]);
                        assert(is_blank(behind[0]));
                        assert(buf@.subrange(start as int, end as int)[e - start] == buf@[e]);
                        assert(is_digit(decimal(value as nat)[e - start]));
                    }
                    if e > end {
                        assert(buf@.subrange(start as int, e)[end - start] == buf@[end as int]);
                        assert(is_digit(numeral[end - start]));
                    }
                    assert(behind[stop - end] == buf@[stop as int]);
                    assert(is_blank(behind[stop - end]));
                }
            }
        }
        return None;
    }
    proof {
        let before = buf@.subrange(0, start as int);
        let behind = buf@.subrange(end as int, buf@.len() as int);
        assert(all_blank(before));
        assert(all_blank(behind));
        assert(text@ == before + decimal(value as nat) + behind) by {
            assert(buf@ == before + buf@.subrange(start as int, end as int) + behind);
        }
        assert(framed(text@, before, value, behind));
    }
    Some(value)
}

/// Remembers whether the worker has already been told that the memory mark
/// cannot be reset, so that it is told once.
#[derive(Debug, Clone, Copy)]
pub struct ResetLog {
    warned: bool,
}

impl ResetLog {
    pub closed spec fn warned(&self) -> bool {
        self.warned
    }

    pub fn new() -> (log: ResetLog)
        ensures
            !log.warned(),
    {
        ResetLog { warned: false }
    }

    /// Takes note of how the reset before a measurement went. A failed reset
    /// never stops the measurement; the result says whether the worker is to
    /// warn now, which it is on the first failure only.
    pub fn note(&mut self, reset: &Result<(), POABenchError>) -> (warn: bool)
        ensures
            warn == (reset is Err && !old(self).warned()),
            final(self).warned() == (old(self).warned() || reset is Err),
    {
        match reset {
            Ok(_) => false,
            Err(_) => {
                let first = !self.warned;
                self.warned = true;
                first
            },
        }
    }
}

} // verus!
