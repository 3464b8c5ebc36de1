//! The reader of one worker's output: it turns each line into a message for
//! the collector, passes over what is no message, and makes up for a worker
//! that ends without saying so.
use vstd::prelude::*;
use crate::jobs::{JobResult, JobResultView};
use crate::protocol::{decode, decode_spec, encode_spec, law_round_trip, result_view};

verus! {

/// The messages that a stream of lines hands to the collector: one for each
/// line that stands for a result, in the order of the lines. The other
/// lines are passed over.
pub open spec fn forwarded(lines: Seq<Seq<char>>) -> Seq<JobResultView>
    decreases lines.len(),
{
    if lines.len() == 0 {
        Seq::empty()
    } else {
        match decode_spec(lines.last()) {
            Some(message) => forwarded(lines.drop_last()).push(message),
            None => forwarded(lines.drop_last()),
        }
    }
}

/// Whether the last message of a stream said that the worker was done.
pub open spec fn ended_well(lines: Seq<Seq<char>>) -> bool {
    forwarded(lines).len() > 0 && forwarded(lines).last() is Finished
}

/// Everything the collector gets from one worker: the messages of its
/// stream and, unless the last of them said that the worker was done and
/// the process ended with success, one `Error` behind them.
pub open spec fn delivered(lines: Seq<Seq<char>>, success: bool) -> Seq<JobResultView> {
    if ended_well(lines) && success {
        forwarded(lines)
    } else {
        forwarded(lines).push(JobResultView::Error)
    }
}

/// The views of a sequence of results.
pub open spec fn result_views(results: Seq<JobResult>) -> Seq<JobResultView> {
    Seq::new(results.len(), |i: int| results[i]@)
}

/// The texts of a sequence of lines.
pub open spec fn line_texts(lines: Seq<String>) -> Seq<Seq<char>> {
    Seq::new(lines.len(), |i: int| lines[i]@)
}

/// The messages of two streams, one behind the other.
pub proof fn lemma_forwarded_concat(a: Seq<Seq<char>>, b: Seq<Seq<char>>)
    ensures
        forwarded(a + b) == forwarded(a) + forwarded(b),
    decreases b.len(),
{
    if b.len() == 0 {
        assert(a + b == a);
        assert(forwarded(a) + forwarded(b) == forwarded(a));
    } else {
        assert((a + b).drop_last() == a + b.drop_last());
        assert((a + b).last() == b.last());
        lemma_forwarded_concat(a, b.drop_last());
        match decode_spec(b.last()) {
            Some(message) => {
                assert((forwarded(a) + forwarded(b.drop_last())).push(message) == forwarded(a)
                    + forwarded(b.drop_last()).push(message));
            },
            None => {},
        }
    }
}

/// A line that stands for no result changes nothing: wherever it comes in a
/// worker's stream, the collector gets what it would get without it.
pub proof fn law_noise_is_passed_over(
    before: Seq<Seq<char>>,
    noise: Seq<char>,
    after: Seq<Seq<char>>,
    success: bool,
)
    requires
        decode_spec(noise) is None,
    ensures
        forwarded(before + seq![noise] + after) == forwarded(before + after),
        delivered(before + seq![noise] + after, success) == delivered(before + after, success),
{
    let single = seq![noise];
    assert(single.drop_last() == Seq::<Seq<char>>::empty());
    assert(single.last() == noise);
    assert(forwarded(single.drop_last()) == Seq::<JobResultView>::empty());
    assert(forwarded(single) == Seq::<JobResultView>::empty());
    lemma_forwarded_concat(before, single);
    lemma_forwarded_concat(before + single, after);
    lemma_forwarded_concat(before, after);
    assert(forwarded(before) + forwarded(single) == forwarded(before));
}

/// The lines that a worker writes for a sequence of results.
pub open spec fn written(messages: Seq<JobResultView>) -> Seq<Seq<char>> {
    Seq::new(messages.len(), |i: int| encode_spec(messages[i]))
}

/// What a worker writes arrives as it was written: the collector gets the
/// worker's results in their order and equal in every field, and an `Error`
/// behind them only if the last of them is not `Finished` or the process
/// did not end with success.
pub proof fn law_stream_round_trip(messages: Seq<JobResultView>, success: bool)
    ensures
        forwarded(written(messages)) == messages,
        delivered(written(messages), success) == if messages.len() > 0 && messages.last()
            is Finished && success {
            messages
        } else {
            messages.push(JobResultView::Error)
        },
    decreases messages.len(),
{
    let lines = written(messages);
    if messages.len() == 0 {
        assert(forwarded(lines) =~= messages);
    } else {
        law_stream_round_trip(messages.drop_last(), success);
        law_round_trip(messages.last());
        assert(lines.drop_last() =~= written(messages.drop_last()));
        assert(lines.last() == encode_spec(messages.last()));
        assert(forwarded(lines) =~= messages);
    }
}

/// The reader of one worker's output stream.
#[derive(Debug, Clone, Copy)]
pub struct LineReader {
    last_finished: bool,
}

impl LineReader {
    /// Whether the last message handed on said that the worker was done.
    pub closed spec fn last_was_finished(&self) -> bool {
        self.last_finished
    }

    /// A reader that has seen nothing yet.
    pub fn new() -> (reader: LineReader)
        ensures
            !reader.last_was_finished(),
    {
        LineReader { last_finished: false }
    }

    /// Takes one line of the stream. The result is the message to hand to
    /// the collector; `None` says that the line stands for no result and is
    /// to be logged and passed over, which leaves the reader as it was.
    pub fn on_line(&mut self, line: &str) -> (forward: Option<JobResult>)
        ensures
            result_view(forward) == decode_spec(line@),
            final(self).last_was_finished() == match decode_spec(line@) {
                Some(message) => message is Finished,
                None => old(self).last_was_finished(),
            },
    {
        let found = decode(line);
        match &found {
            Some(JobResult::Finished(_)) => {
                self.last_finished = true;
            },
            Some(_) => {
                self.last_finished = false;
            },
            None => {},
        }
        found
    }

    /// Takes note that the stream has ended and the process has exited,
    /// with success or not. The result is the `Error` to hand to the
    /// collector, which is due unless the last message said that the worker
    /// was done and the process ended with success.
    pub fn on_close(&self, success: bool) -> (forward: Option<JobResult>)
        ensures
            forward is None <==> self.last_was_finished() && success,
            forward matches Some(message) ==> message@ is Error,
    {
        if self.last_finished && success {
            None
        } else {
            Some(JobResult::Error)
        }
    }
}

/// Reads the whole output of a worker that has exited: what the collector
/// gets from it, in order.
pub fn read_stream(lines: &Vec<String>, success: bool) -> (messages: Vec<JobResult>)
    ensures
        result_views(messages@) == delivered(line_texts(lines@), success),
{
    let ghost texts = line_texts(lines@);
    let mut reader = LineReader::new();
    let mut messages: Vec<JobResult> = Vec::new();
    let mut i: usize = 0;
    assert(texts.take(0) == Seq::<Seq<char>>::empty());
    while i < lines.len()
        invariant
            i <= lines.len(),
            texts == line_texts(lines@),
            result_views(messages@) == forwarded(texts.take(i as int)),
            reader.last_was_finished() == ended_well(texts.take(i as int)),
        decreases lines.len() - i,
    {
        let ghost sofar = result_views(messages@);
        proof {
            assert(texts.take(i + 1).drop_last() == texts.take(i as int));
            assert(texts.take(i + 1).last() == lines@[i as int]@);
        }
        match reader.on_line(lines[i].as_str()) {
            Some(message) => {
                messages.push(message);
                assert(result_views(messages@) == sofar.push(message@));
            },
            None => {},
        }
        i += 1;
    }
    assert(texts.take(lines.len() as int) == texts);
    let ghost sofar = result_views(messages@);
    match reader.on_close(success) {
        Some(message) => {
            messages.push(message);
            assert(result_views(messages@) == sofar.push(message@));
        },
        None => {},
    }
    messages
}

} // verus!
