//! The messages between a worker and the orchestrator: each result is one
//! line of text, a JSON object whose first member says which kind of result
//! it is. A result has exactly one line, and a line that is not the line of
//! some result is no message.
use vstd::prelude::*;
use crate::bench::{Measured, Timestamp};
use crate::jobs::{law_algorithm_names_differ, Algorithm, JobResult, JobResultView};
use crate::text::to_chars;
use crate::wire::{
    all_wf, field_views, frame_ok, frame_texts, lemma_render_injective, lemma_render_prefix,
    lemma_render_printable, parse_record, printable, render, write_record, Field, FieldView,
};

verus! {

/// The pieces around the fields of a measurement, from behind the run time
/// to the end of the message.
pub open spec fn measured_pieces() -> Seq<Seq<char>> {
    seq![
        ",\"memory_baseline\":"@,
        ",\"memory_peak\":"@,
        ",\"memory_delta\":"@,
        ",\"time_start_ms\":"@,
        ",\"time_end_ms\":"@,
        ",\"cpu_core_start\":"@,
        ",\"cpu_core_end\":"@,
        ",\"cpu_khz_start\":"@,
        ",\"cpu_khz_end\":"@,
        "}}"@,
    ]
}

/// The frame of the result of one single alignment.
pub open spec fn single_item_pieces() -> Seq<Seq<char>> {
    seq![
        "{\"kind\":\"single_item\",\"algorithm\":"@,
        ",\"dataset\":"@,
        ",\"score\":"@,
        ",\"graph_nodes\":"@,
        ",\"graph_edges\":"@,
        ",\"item_name\":"@,
        ",\"item_length\":"@,
        ",\"visited\":"@,
        ",\"measured\":{\"runtime_ns\":"@,
    ] + measured_pieces()
}

/// The frame of the result of a whole-set alignment.
pub open spec fn whole_set_pieces() -> Seq<Seq<char>> {
    seq![
        "{\"kind\":\"whole_set\",\"algorithm\":"@,
        ",\"dataset\":"@,
        ",\"measured\":{\"runtime_ns\":"@,
    ] + measured_pieces()
}

/// The frame of the message that a worker is done.
pub open spec fn finished_pieces() -> Seq<Seq<char>> {
    seq!["{\"kind\":\"finished\",\"core\":"@, "}"@]
}

/// The frame of the message that a worker failed.
pub open spec fn error_pieces() -> Seq<Seq<char>> {
    seq!["{\"kind\":\"error\"}"@]
}

/// The frame of a result, by its kind.
pub open spec fn pieces_of(message: JobResultView) -> Seq<Seq<char>> {
    match message {
        JobResultView::SingleSeqMeasurement(..) => single_item_pieces(),
        JobResultView::FullMSAMeasurement(..) => whole_set_pieces(),
        JobResultView::Finished(_) => finished_pieces(),
        JobResultView::Error => error_pieces(),
    }
}

/// An amount that may be unknown, as a field.
pub open spec fn maybe_u64(value: Option<u64>) -> FieldView {
    match value {
        Some(v) => FieldView::Number(v as int),
        None => FieldView::Null,
    }
}

/// A core number that may be unknown, as a field.
pub open spec fn maybe_i32(value: Option<i32>) -> FieldView {
    match value {
        Some(v) => FieldView::Number(v as int),
        None => FieldView::Null,
    }
}

/// A released core that may be absent, as a field.
pub open spec fn maybe_usize(value: Option<usize>) -> FieldView {
    match value {
        Some(v) => FieldView::Number(v as int),
        None => FieldView::Null,
    }
}

/// The fields of a measurement, in the order of the wire.
pub open spec fn measured_fields(m: Measured) -> Seq<FieldView> {
    seq![
        FieldView::Number(m.runtime as int),
        maybe_u64(m.memory_initial),
        maybe_u64(m.memory_total),
        FieldView::Number(m.memory as int),
        FieldView::Number(m.time_start.millis as int),
        FieldView::Number(m.time_end.millis as int),
        maybe_i32(m.cpu_start),
        maybe_i32(m.cpu_end),
        maybe_u64(m.cpu_freq_start),
        maybe_u64(m.cpu_freq_end),
    ]
}

/// The fields of a result, in the order of the wire.
pub open spec fn fields_of(message: JobResultView) -> Seq<FieldView> {
    match message {
        JobResultView::SingleSeqMeasurement(
            algorithm,
            dataset,
            score,
            nodes,
            edges,
            name,
            length,
            visited,
            measured,
        ) => seq![
            FieldView::Text(algorithm.name()),
            FieldView::Text(dataset),
            FieldView::Number(score as int),
            FieldView::Number(nodes as int),
            FieldView::Number(edges as int),
            FieldView::Text(name),
            FieldView::Number(length as int),
            FieldView::Number(visited as int),
        ] + measured_fields(measured),
        JobResultView::FullMSAMeasurement(algorithm, dataset, measured) => seq![
            FieldView::Text(algorithm.name()),
            FieldView::Text(dataset),
        ] + measured_fields(measured),
        JobResultView::Finished(core) => seq![
            maybe_usize(core),
        ],
        JobResultView::Error => Seq::empty(),
    }
}

/// The line that stands for a result.
pub open spec fn encode_spec(message: JobResultView) -> Seq<char> {
    render(pieces_of(message), fields_of(message))
}

/// The result that a line stands for, if it stands for one.
pub open spec fn decode_spec(line: Seq<char>) -> Option<JobResultView> {
    if exists|message: JobResultView| encode_spec(message) == line {
        Some(choose|message: JobResultView| encode_spec(message) == line)
    } else {
        None
    }
}

/// The view of a result that may be absent.
pub open spec fn result_view(result: Option<JobResult>) -> Option<JobResultView> {
    match result {
        Some(message) => Some(message@),
        None => None,
    }
}

/// Every frame is well formed: behind each field stands a comma or a closing
/// brace.
pub proof fn lemma_frames_ok()
    ensures
        frame_ok(single_item_pieces()),
        frame_ok(whole_set_pieces()),
        frame_ok(finished_pieces()),
        frame_ok(error_pieces()),
        single_item_pieces().len() == 19,
        whole_set_pieces().len() == 13,
{
    reveal_strlit(",\"memory_baseline\":");
    reveal_strlit(",\"memory_peak\":");
    reveal_strlit(",\"memory_delta\":");
    reveal_strlit(",\"time_start_ms\":");
    reveal_strlit(",\"time_end_ms\":");
    reveal_strlit(",\"cpu_core_start\":");
    reveal_strlit(",\"cpu_core_end\":");
    reveal_strlit(",\"cpu_khz_start\":");
    reveal_strlit(",\"cpu_khz_end\":");
    reveal_strlit("}}");
    reveal_strlit(",\"dataset\":");
    reveal_strlit(",\"score\":");
    reveal_strlit(",\"graph_nodes\":");
    reveal_strlit(",\"graph_edges\":");
    reveal_strlit(",\"item_name\":");
    reveal_strlit(",\"item_length\":");
    reveal_strlit(",\"visited\":");
    reveal_strlit(",\"measured\":{\"runtime_ns\":");
    reveal_strlit("}");
    let tail = measured_pieces();
    assert forall|i: int| 0 <= i < tail.len() implies (#[trigger] tail[i]).len() > 0 && tail[i][0]
        != '0' && !crate::text::is_digit(tail[i][0]) by {
        if i == 0 {
        } else if i == 1 {
        } else if i == 2 {
        } else if i == 3 {
        } else if i == 4 {
        } else if i == 5 {
        } else if i == 6 {
        } else if i == 7 {
        } else if i == 8 {
        } else {
        }
    }
    let single = single_item_pieces();
    assert forall|i: int| 1 <= i < single.len() implies (#[trigger] single[i]).len() > 0
        && !crate::text::is_digit(single[i][0]) by {
        if i >= 9 {
            assert(single[i] == tail[i - 9]);
        } else if i == 1 {
        } else if i == 2 {
        } else if i == 3 {
        } else if i == 4 {
        } else if i == 5 {
        } else if i == 6 {
        } else if i == 7 {
        } else {
        }
    }
    let whole = whole_set_pieces();
    assert forall|i: int| 1 <= i < whole.len() implies (#[trigger] whole[i]).len() > 0
        && !crate::text::is_digit(whole[i][0]) by {
        if i >= 3 {
            assert(whole[i] == tail[i - 3]);
        } else if i == 1 {
        } else {
        }
    }
}

/// No piece of a frame holds a control character.
pub proof fn lemma_frames_printable()
    ensures
        forall|i: int| 0 <= i < single_item_pieces().len() ==> printable(
            #[trigger] single_item_pieces()[i],
        ),
        forall|i: int| 0 <= i < whole_set_pieces().len() ==> printable(
            #[trigger] whole_set_pieces()[i],
        ),
        forall|i: int| 0 <= i < finished_pieces().len() ==> printable(
            #[trigger] finished_pieces()[i],
        ),
        forall|i: int| 0 <= i < error_pieces().len() ==> printable(#[trigger] error_pieces()[i]),
{
    reveal_strlit(",\"memory_baseline\":");
    reveal_strlit(",\"memory_peak\":");
    reveal_strlit(",\"memory_delta\":");
    reveal_strlit(",\"time_start_ms\":");
    reveal_strlit(",\"time_end_ms\":");
    reveal_strlit(",\"cpu_core_start\":");
    reveal_strlit(",\"cpu_core_end\":");
    reveal_strlit(",\"cpu_khz_start\":");
    reveal_strlit(",\"cpu_khz_end\":");
    reveal_strlit("}}");
    reveal_strlit(",\"dataset\":");
    reveal_strlit(",\"score\":");
    reveal_strlit(",\"graph_nodes\":");
    reveal_strlit(",\"graph_edges\":");
    reveal_strlit(",\"item_name\":");
    reveal_strlit(",\"item_length\":");
    reveal_strlit(",\"visited\":");
    reveal_strlit(",\"measured\":{\"runtime_ns\":");
    reveal_strlit("}");
    reveal_strlit("{\"kind\":\"single_item\",\"algorithm\":");
    reveal_strlit("{\"kind\":\"whole_set\",\"algorithm\":");
    reveal_strlit("{\"kind\":\"finished\",\"core\":");
    reveal_strlit("{\"kind\":\"error\"}");
    let tail = measured_pieces();
    assert forall|i: int| 0 <= i < tail.len() implies printable(#[trigger] tail[i]) by {
        if i == 0 {
        } else if i == 1 {
        } else if i == 2 {
        } else if i == 3 {
        } else if i == 4 {
        } else if i == 5 {
        } else if i == 6 {
        } else if i == 7 {
        } else if i == 8 {
        } else {
        }
    }
    let single = single_item_pieces();
    assert forall|i: int| 0 <= i < single.len() implies printable(#[trigger] single[i]) by {
        if i >= 9 {
            assert(single[i] == tail[i - 9]);
        } else if i == 0 {
        } else if i == 1 {
        } else if i == 2 {
        } else if i == 3 {
        } else if i == 4 {
        } else if i == 5 {
        } else if i == 6 {
        } else if i == 7 {
        } else {
        }
    }
    let whole = whole_set_pieces();
    assert forall|i: int| 0 <= i < whole.len() implies printable(#[trigger] whole[i]) by {
        if i >= 3 {
            assert(whole[i] == tail[i - 3]);
        } else if i == 0 {
        } else if i == 1 {
        } else {
        }
    }
}

/// The line of a result is one line: it holds no control character, and so
/// no line break.
pub proof fn law_one_line(message: JobResultView)
    ensures
        printable(encode_spec(message)),
{
    lemma_frames_printable();
    lemma_fields_fit(message);
    lemma_render_printable(pieces_of(message), fields_of(message), fields_of(message).len());
}

/// The letter at which the lines of the four kinds of result differ.
pub open spec fn kind_letter(message: JobResultView) -> char {
    match message {
        JobResultView::SingleSeqMeasurement(..) => 's',
        JobResultView::FullMSAMeasurement(..) => 'w',
        JobResultView::Finished(_) => 'f',
        JobResultView::Error => 'e',
    }
}

/// A record in one of the four frames shows its kind in its tenth character.
pub proof fn lemma_kind_letter(message: JobResultView, fields: Seq<FieldView>)
    ensures
        render(pieces_of(message), fields).len() > 9,
        render(pieces_of(message), fields)[9] == kind_letter(message),
{
    reveal_strlit("{\"kind\":\"single_item\",\"algorithm\":");
    reveal_strlit("{\"kind\":\"whole_set\",\"algorithm\":");
    reveal_strlit("{\"kind\":\"finished\",\"core\":");
    reveal_strlit("{\"kind\":\"error\"}");
    let pieces = pieces_of(message);
    let line = render(pieces, fields);
    lemma_render_prefix(pieces, fields, 0, fields.len());
    assert(pieces[0].len() > 9);
    assert(line.subrange(0, pieces[0].len() as int)[9] == line[9]);
}

/// The fields of a result can stand on the wire, and there is one for each
/// gap of the result's frame.
pub proof fn lemma_fields_fit(message: JobResultView)
    ensures
        all_wf(fields_of(message)),
        fields_of(message).len() + 1 == pieces_of(message).len(),
{
    let fields = fields_of(message);
    match message {
        JobResultView::SingleSeqMeasurement(_, _, _, _, _, _, _, _, measured) => {
            let tail = measured_fields(measured);
            assert forall|i: int| 0 <= i < fields.len() implies (#[trigger] fields[i]).wf() by {
                if i >= 8 {
                    assert(fields[i] == tail[i - 8]);
                }
            }
        },
        JobResultView::FullMSAMeasurement(_, _, measured) => {
            let tail = measured_fields(measured);
            assert forall|i: int| 0 <= i < fields.len() implies (#[trigger] fields[i]).wf() by {
                if i >= 2 {
                    assert(fields[i] == tail[i - 2]);
                }
            }
        },
        _ => {},
    }
}

/// A measurement is known by its fields.
pub proof fn lemma_measured_fields_injective(a: Measured, b: Measured)
    requires
        measured_fields(a) == measured_fields(b),
    ensures
        a == b,
{
    let x = measured_fields(a);
    let y = measured_fields(b);
    assert(x[0] == y[0]);
    assert(x[1] == y[1]);
    assert(x[2] == y[2]);
    assert(x[3] == y[3]);
    assert(x[4] == y[4]);
    assert(x[5] == y[5]);
    assert(x[6] == y[6]);
    assert(x[7] == y[7]);
    assert(x[8] == y[8]);
    assert(x[9] == y[9]);
}

/// Two results with the same line are the same result.
pub proof fn law_lines_differ(a: JobResultView, b: JobResultView)
    requires
        encode_spec(a) == encode_spec(b),
    ensures
        a == b,
{
    lemma_kind_letter(a, fields_of(a));
    lemma_kind_letter(b, fields_of(b));
    lemma_fields_fit(a);
    lemma_fields_fit(b);
    lemma_frames_ok();
    assert(pieces_of(a) == pieces_of(b));
    lemma_render_injective(pieces_of(a), fields_of(a), fields_of(b));
    let x = fields_of(a);
    let y = fields_of(b);
    match (a, b) {
        (
            JobResultView::SingleSeqMeasurement(a0, a1, a2, a3, a4, a5, a6, a7, am),
            JobResultView::SingleSeqMeasurement(b0, b1, b2, b3, b4, b5, b6, b7, bm),
        ) => {
            assert(x[0] == y[0]);
            assert(x[1] == y[1]);
            assert(x[2] == y[2]);
            assert(x[3] == y[3]);
            assert(x[4] == y[4]);
            assert(x[5] == y[5]);
            assert(x[6] == y[6]);
            assert(x[7] == y[7]);
            law_algorithm_names_differ(a0, b0);
            assert(measured_fields(am) == x.subrange(8, 18));
            assert(measured_fields(bm) == y.subrange(8, 18));
            lemma_measured_fields_injective(am, bm);
        },
        (
            JobResultView::FullMSAMeasurement(a0, a1, am),
            JobResultView::FullMSAMeasurement(b0, b1, bm),
        ) => {
            assert(x[0] == y[0]);
            assert(x[1] == y[1]);
            law_algorithm_names_differ(a0, b0);
            assert(measured_fields(am) == x.subrange(2, 12));
            assert(measured_fields(bm) == y.subrange(2, 12));
            lemma_measured_fields_injective(am, bm);
        },
        (JobResultView::Finished(c), JobResultView::Finished(d)) => {
            assert(x[0] == y[0]);
        },
        _ => {},
    }
}

/// Writing a result and reading the line back gives the result, equal in
/// every field.
pub proof fn law_round_trip(message: JobResultView)
    ensures
        decode_spec(encode_spec(message)) == Some(message),
{
    let line = encode_spec(message);
    let back = choose|other: JobResultView| encode_spec(other) == line;
    law_lines_differ(back, message);
}

fn single_item_frame() -> (frame: Vec<&'static str>)
    ensures
        frame_texts(frame@) == single_item_pieces(),
{
    let frame = vec![
        "{\"kind\":\"single_item\",\"algorithm\":",
        ",\"dataset\":",
        ",\"score\":",
        ",\"graph_nodes\":",
        ",\"graph_edges\":",
        ",\"item_name\":",
        ",\"item_length\":",
        ",\"visited\":",
        ",\"measured\":{\"runtime_ns\":",
        ",\"memory_baseline\":",
        ",\"memory_peak\":",
        ",\"memory_delta\":",
        ",\"time_start_ms\":",
        ",\"time_end_ms\":",
        ",\"cpu_core_start\":",
        ",\"cpu_core_end\":",
        ",\"cpu_khz_start\":",
        ",\"cpu_khz_end\":",
        "}}",
    ];
    assert(frame_texts(frame@) =~= single_item_pieces());
    frame
}

fn whole_set_frame() -> (frame: Vec<&'static str>)
    ensures
        frame_texts(frame@) == whole_set_pieces(),
{
    let frame = vec![
        "{\"kind\":\"whole_set\",\"algorithm\":",
        ",\"dataset\":",
        ",\"measured\":{\"runtime_ns\":",
        ",\"memory_baseline\":",
        ",\"memory_peak\":",
        ",\"memory_delta\":",
        ",\"time_start_ms\":",
        ",\"time_end_ms\":",
        ",\"cpu_core_start\":",
        ",\"cpu_core_end\":",
        ",\"cpu_khz_start\":",
        ",\"cpu_khz_end\":",
        "}}",
    ];
    assert(frame_texts(frame@) =~= whole_set_pieces());
    frame
}

fn finished_frame() -> (frame: Vec<&'static str>)
    ensures
        frame_texts(frame@) == finished_pieces(),
{
    let frame = vec!["{\"kind\":\"finished\",\"core\":", "}"];
    assert(frame_texts(frame@) =~= finished_pieces());
    frame
}

fn error_frame() -> (frame: Vec<&'static str>)
    ensures
        frame_texts(frame@) == error_pieces(),
{
    let frame = vec!["{\"kind\":\"error\"}"];
    assert(frame_texts(frame@) =~= error_pieces());
    frame
}

fn optional_u64(value: Option<u64>) -> (field: Field)
    ensures
        field@ == maybe_u64(value),
{
    match value {
        Some(v) => Field::Number(v as i128),
        None => Field::Null,
    }
}

fn optional_i32(value: Option<i32>) -> (field: Field)
    ensures
        field@ == maybe_i32(value),
{
    match value {
        Some(v) => Field::Number(v as i128),
        None => Field::Null,
    }
}

fn push_measured(fields: &mut Vec<Field>, m: &Measured)
    ensures
        field_views(final(fields)@) == field_views(old(fields)@) + measured_fields(*m),
{
    let ghost before = field_views(fields@);
    fields.push(Field::Number(m.runtime as i128));
    fields.push(optional_u64(m.memory_initial));
    fields.push(optional_u64(m.memory_total));
    fields.push(Field::Number(m.memory as i128));
    fields.push(Field::Number(m.time_start.millis as i128));
    fields.push(Field::Number(m.time_end.millis as i128));
    fields.push(optional_i32(m.cpu_start));
    fields.push(optional_i32(m.cpu_end));
    fields.push(optional_u64(m.cpu_freq_start));
    fields.push(optional_u64(m.cpu_freq_end));
    assert(field_views(fields@) =~= before + measured_fields(*m));
}

/// The fields of `message`, in the order of the wire.
fn to_fields(message: &JobResult) -> (fields: Vec<Field>)
    ensures
        field_views(fields@) == fields_of(message@),
{
    let mut fields: Vec<Field> = Vec::new();
    match message {
        JobResult::SingleSeqMeasurement(
            algorithm,
            dataset,
            score,
            nodes,
            edges,
            name,
            length,
            visited,
            measured,
        ) => {
            fields.push(Field::Text(algorithm.to_str().to_owned()));
            fields.push(Field::Text(dataset.clone()));
            fields.push(Field::Number(*score as i128));
            fields.push(Field::Number(*nodes as i128));
            fields.push(Field::Number(*edges as i128));
            fields.push(Field::Text(name.clone()));
            fields.push(Field::Number(*length as i128));
            fields.push(Field::Number(*visited as i128));
            let ghost head = field_views(fields@);
            assert(head =~= fields_of(message@).subrange(0, 8));
            push_measured(&mut fields, measured);
            assert(field_views(fields@) =~= fields_of(message@));
        },
        JobResult::FullMSAMeasurement(algorithm, dataset, measured) => {
            fields.push(Field::Text(algorithm.to_str().to_owned()));
            fields.push(Field::Text(dataset.clone()));
            let ghost head = field_views(fields@);
            assert(head =~= fields_of(message@).subrange(0, 2));
            push_measured(&mut fields, measured);
            assert(field_views(fields@) =~= fields_of(message@));
        },
        JobResult::Finished(core) => {
            match core {
                Some(v) => fields.push(Field::Number(*v as i128)),
                None => fields.push(Field::Null),
            }
            assert(field_views(fields@) =~= fields_of(message@));
        },
        JobResult::Error => {
            assert(field_views(fields@) =~= fields_of(message@));
        },
    }
    fields
}

/// Writes `message` as one line of text, without the line break behind it.
pub fn encode(message: &JobResult) -> (line: String)
    ensures
        line@ == encode_spec(message@),
        printable(line@),
{
    let fields = to_fields(message);
    proof {
        lemma_fields_fit(message@);
        law_one_line(message@);
    }
    let frame = match message {
        JobResult::SingleSeqMeasurement(..) => single_item_frame(),
        JobResult::FullMSAMeasurement(..) => whole_set_frame(),
        JobResult::Finished(_) => finished_frame(),
        JobResult::Error => error_frame(),
    };
    match write_record(&frame, &fields) {
        Some(line) => line,
        None => String::new(),
    }
}

fn as_text(field: &Field) -> (text: Option<String>)
    ensures
        match text {
            Some(s) => field@ == FieldView::Text(s@),
            None => !(field@ is Text),
        },
{
    match field {
        Field::Text(s) => Some(s.clone()),
        _ => None,
    }
}

fn as_algorithm(field: &Field) -> (found: Option<Algorithm>)
    ensures
        match found {
            Some(algorithm) => field@ == FieldView::Text(algorithm.name()),
            None => forall|algorithm: Algorithm| field@ != FieldView::Text(algorithm.name()),
        },
{
    match field {
        Field::Text(s) => Algorithm::from_name(s.as_str()),
        _ => None,
    }
}

fn as_u64(field: &Field) -> (value: Option<u64>)
    ensures
        match value {
            Some(v) => field@ == FieldView::Number(v as int),
            None => forall|v: u64| field@ != FieldView::Number(v as int),
        },
{
    match field {
        Field::Number(v) => {
            if 0 <= *v && *v <= 0xffff_ffff_ffff_ffff {
                Some(*v as u64)
            } else {
                None
            }
        },
        _ => None,
    }
}

fn as_usize(field: &Field) -> (value: Option<usize>)
    ensures
        match value {
            Some(v) => field@ == FieldView::Number(v as int),
            None => forall|v: usize| field@ != FieldView::Number(v as int),
        },
{
    match field {
        Field::Number(v) => {
            if 0 <= *v && *v <= usize::MAX as i128 {
                Some(*v as usize)
            } else {
                None
            }
        },
        _ => None,
    }
}

fn as_i64(field: &Field) -> (value: Option<i64>)
    ensures
        match value {
            Some(v) => field@ == FieldView::Number(v as int),
            None => forall|v: i64| field@ != FieldView::Number(v as int),
        },
{
    match field {
        Field::Number(v) => {
            if -0x8000_0000_0000_0000 <= *v && *v <= 0x7fff_ffff_ffff_ffff {
                Some(*v as i64)
            } else {
                None
            }
        },
        _ => None,
    }
}

fn as_optional_u64(field: &Field) -> (value: Option<Option<u64>>)
    ensures
        match value {
            Some(found) => field@ == maybe_u64(found),
            None => forall|other: Option<u64>|
                field@ != #[trigger] maybe_u64(other),
        },
{
    match field {
        Field::Null => Some(None),
        Field::Number(v) => {
            if 0 <= *v && *v <= 0xffff_ffff_ffff_ffff {
                Some(Some(*v as u64))
            } else {
                None
            }
        },
        _ => None,
    }
}

fn as_optional_usize(field: &Field) -> (value: Option<Option<usize>>)
    ensures
        match value {
            Some(found) => field@ == maybe_usize(found),
            None => forall|other: Option<usize>|
                field@ != #[trigger] maybe_usize(other),
        },
{
    match field {
        Field::Null => Some(None),
        Field::Number(v) => {
            if 0 <= *v && *v <= usize::MAX as i128 {
                Some(Some(*v as usize))
            } else {
                None
            }
        },
        _ => None,
    }
}

fn as_optional_i32(field: &Field) -> (value: Option<Option<i32>>)
    ensures
        match value {
            Some(found) => field@ == maybe_i32(found),
            None => forall|other: Option<i32>|
                field@ != #[trigger] maybe_i32(other),
        },
{
    match field {
        Field::Null => Some(None),
        Field::Number(v) => {
            if -0x8000_0000 <= *v && *v <= 0x7fff_ffff {
                Some(Some(*v as i32))
            } else {
                None
            }
        },
        _ => None,
    }
}

/// Reads the ten fields from `at` on as a measurement.
fn measured_from(fields: &Vec<Field>, at: usize) -> (found: Option<Measured>)
    requires
        at + 10 <= fields.len(),
    ensures
        match found {
            Some(m) => field_views(fields@).subrange(at as int, at + 10) == measured_fields(m),
            None => forall|m: Measured|
                field_views(fields@).subrange(at as int, at + 10) != #[trigger] measured_fields(m),
        },
{
    let ghost have = field_views(fields@).subrange(at as int, at + 10);
    let runtime = as_u64(&fields[at]);
    let memory_initial = as_optional_u64(&fields[at + 1]);
    let memory_total = as_optional_u64(&fields[at + 2]);
    let memory = as_u64(&fields[at + 3]);
    let time_start = as_i64(&fields[at + 4]);
    let time_end = as_i64(&fields[at + 5]);
    let cpu_start = as_optional_i32(&fields[at + 6]);
    let cpu_end = as_optional_i32(&fields[at + 7]);
    let cpu_freq_start = as_optional_u64(&fields[at + 8]);
    let cpu_freq_end = as_optional_u64(&fields[at + 9]);
    proof {
        assert forall|m: Measured| have == #[trigger] measured_fields(m) implies {
            &&& fields@[at as int]@ == measured_fields(m)[0]
            &&& fields@[at + 1]@ == measured_fields(m)[1]
            &&& fields@[at + 2]@ == measured_fields(m)[2]
            &&& fields@[at + 3]@ == measured_fields(m)[3]
            &&& fields@[at + 4]@ == measured_fields(m)[4]
            &&& fields@[at + 5]@ == measured_fields(m)[5]
            &&& fields@[at + 6]@ == measured_fields(m)[6]
            &&& fields@[at + 7]@ == measured_fields(m)[7]
            &&& fields@[at + 8]@ == measured_fields(m)[8]
            &&& fields@[at + 9]@ == measured_fields(m)[9]
        } by {
            assert(have[0] == fields@[at as int]@);
            assert(have[1] == fields@[at + 1]@);
            assert(have[2] == fields@[at + 2]@);
            assert(have[3] == fields@[at + 3]@);
            assert(have[4] == fields@[at + 4]@);
            assert(have[5] == fields@[at + 5]@);
            assert(have[6] == fields@[at + 6]@);
            assert(have[7] == fields@[at + 7]@);
            assert(have[8] == fields@[at + 8]@);
            assert(have[9] == fields@[at + 9]@);
        }
    }
    match (
        runtime,
        memory_initial,
        memory_total,
        memory,
        time_start,
        time_end,
        cpu_start,
        cpu_end,
        cpu_freq_start,
        cpu_freq_end,
    ) {
        (
            Some(runtime),
            Some(memory_initial),
            Some(memory_total),
            Some(memory),
            Some(time_start),
            Some(time_end),
            Some(cpu_start),
            Some(cpu_end),
            Some(cpu_freq_start),
            Some(cpu_freq_end),
        ) => {
            let m = Measured {
                runtime,
                memory_initial,
                memory_total,
                memory,
                time_start: Timestamp { millis: time_start },
                time_end: Timestamp { millis: time_end },
                cpu_start,
                cpu_end,
                cpu_freq_start,
                cpu_freq_end,
            };
            assert(have =~= measured_fields(m));
            Some(m)
        },
        _ => None,
    }
}

/// Reads eighteen fields as the result of one single alignment.
fn single_item_from(fields: &Vec<Field>) -> (found: Option<JobResult>)
    requires
        fields.len() == 18,
    ensures
        match found {
            Some(message) => message@ is SingleSeqMeasurement && fields_of(message@)
                == field_views(fields@),
            None => forall|message: JobResultView|
                message is SingleSeqMeasurement ==> #[trigger] fields_of(message) != field_views(
                    fields@,
                ),
        },
{
    let ghost have = field_views(fields@);
    let algorithm = as_algorithm(&fields[0]);
    let dataset = as_text(&fields[1]);
    let score = as_usize(&fields[2]);
    let nodes = as_usize(&fields[3]);
    let edges = as_usize(&fields[4]);
    let name = as_text(&fields[5]);
    let length = as_usize(&fields[6]);
    let visited = as_usize(&fields[7]);
    let measured = measured_from(fields, 8);
    proof {
        assert forall|message: JobResultView|
            message is SingleSeqMeasurement && #[trigger] fields_of(message) == have implies {
            &&& algorithm is Some
            &&& dataset is Some
            &&& score is Some
            &&& nodes is Some
            &&& edges is Some
            &&& name is Some
            &&& length is Some
            &&& visited is Some
            &&& measured is Some
        } by {
            let want = fields_of(message);
            assert(want[0] == fields@[0]@);
            assert(want[1] == fields@[1]@);
            assert(want[2] == fields@[2]@);
            assert(want[3] == fields@[3]@);
            assert(want[4] == fields@[4]@);
            assert(want[5] == fields@[5]@);
            assert(want[6] == fields@[6]@);
            assert(want[7] == fields@[7]@);
            assert(want.subrange(8, 18) == measured_fields(message->SingleSeqMeasurement_8));
        }
    }
    match (algorithm, dataset, score, nodes, edges, name, length, visited, measured) {
        (
            Some(algorithm),
            Some(dataset),
            Some(score),
            Some(nodes),
            Some(edges),
            Some(name),
            Some(length),
            Some(visited),
            Some(measured),
        ) => {
            let message = JobResult::SingleSeqMeasurement(
                algorithm,
                dataset,
                score,
                nodes,
                edges,
                name,
                length,
                visited,
                measured,
            );
            proof {
                let want = fields_of(message@);
                assert(want.subrange(8, 18) == measured_fields(measured));
                assert forall|i: int| 0 <= i < 18 implies want[i] == have[i] by {
                    if i >= 8 {
                        assert(want.subrange(8, 18)[i - 8] == want[i]);
                        assert(have.subrange(8, 18)[i - 8] == have[i]);
                    }
                }
                assert(want =~= have);
            }
            Some(message)
        },
        _ => None,
    }
}

/// Reads twelve fields as the result of a whole-set alignment.
fn whole_set_from(fields: &Vec<Field>) -> (found: Option<JobResult>)
    requires
        fields.len() == 12,
    ensures
        match found {
            Some(message) => message@ is FullMSAMeasurement && fields_of(message@) == field_views(
                fields@,
            ),
            None => forall|message: JobResultView|
                message is FullMSAMeasurement ==> #[trigger] fields_of(message) != field_views(
                    fields@,
                ),
        },
{
    let ghost have = field_views(fields@);
    let algorithm = as_algorithm(&fields[0]);
    let dataset = as_text(&fields[1]);
    let measured = measured_from(fields, 2);
    proof {
        assert forall|message: JobResultView|
            message is FullMSAMeasurement && #[trigger] fields_of(message) == have implies {
            &&& algorithm is Some
            &&& dataset is Some
            &&& measured is Some
        } by {
            let want = fields_of(message);
            assert(want[0] == fields@[0]@);
            assert(want[1] == fields@[1]@);
            assert(want.subrange(2, 12) == measured_fields(message->FullMSAMeasurement_2));
        }
    }
    match (algorithm, dataset, measured) {
        (Some(algorithm), Some(dataset), Some(measured)) => {
            let message = JobResult::FullMSAMeasurement(algorithm, dataset, measured);
            proof {
                let want = fields_of(message@);
                assert(want.subrange(2, 12) == measured_fields(measured));
                assert forall|i: int| 0 <= i < 12 implies want[i] == have[i] by {
                    if i >= 2 {
                        assert(want.subrange(2, 12)[i - 2] == want[i]);
                        assert(have.subrange(2, 12)[i - 2] == have[i]);
                    }
                }
                assert(want =~= have);
            }
            Some(message)
        },
        _ => None,
    }
}

/// Reads one field as the message that a worker is done.
fn finished_from(fields: &Vec<Field>) -> (found: Option<JobResult>)
    requires
        fields.len() == 1,
    ensures
        match found {
            Some(message) => message@ is Finished && fields_of(message@) == field_views(fields@),
            None => forall|message: JobResultView|
                message is Finished ==> #[trigger] fields_of(message) != field_views(fields@),
        },
{
    let ghost have = field_views(fields@);
    match as_optional_usize(&fields[0]) {
        Some(core) => {
            let message = JobResult::Finished(core);
            assert(fields_of(message@) =~= have);
            Some(message)
        },
        None => {
            proof {
                assert forall|message: JobResultView| message is Finished implies #[trigger] fields_of(
                    message,
                ) != have by {
                    let want = fields_of(message);
                    if want == have {
                        assert(want[0] == fields@[0]@);
                        assert(want[0] == maybe_usize(message->Finished_0));
                    }
                }
            }
            None
        },
    }
}

/// A line that is a record in the frame of `sample` stands for results of
/// that kind only, and only for one with exactly the record's fields.
proof fn lemma_only_reading(line: Seq<char>, sample: JobResultView, have: Seq<FieldView>)
    requires
        line == render(pieces_of(sample), have),
        all_wf(have),
        have.len() + 1 == pieces_of(sample).len(),
    ensures
        forall|message: JobResultView|
            line == #[trigger] encode_spec(message) ==> kind_letter(message) == kind_letter(sample)
                && fields_of(message) == have,
{
    lemma_frames_ok();
    lemma_kind_letter(sample, have);
    assert forall|message: JobResultView| line == #[trigger] encode_spec(message) implies kind_letter(
        message,
    ) == kind_letter(sample) && fields_of(message) == have by {
        lemma_kind_letter(message, fields_of(message));
        lemma_fields_fit(message);
        assert(pieces_of(message) == pieces_of(sample));
        lemma_render_injective(pieces_of(sample), fields_of(message), have);
    }
}

/// Reads a line as a result.
///
/// `Some(message)` when `line` is the line that `encode` writes for
/// `message`; `None` when it is the line of no result.
pub fn decode(line: &str) -> (found: Option<JobResult>)
    ensures
        result_view(found) == decode_spec(line@),
        match found {
            Some(message) => line@ == encode_spec(message@),
            None => forall|message: JobResultView| line@ != #[trigger] encode_spec(message),
        },
{
    let buf = to_chars(line);
    proof {
        lemma_frames_ok();
    }
    if let Some(fields) = parse_record(&buf, &single_item_frame()) {
        let found = single_item_from(&fields);
        proof {
            lemma_only_reading(
                line@,
                JobResultView::SingleSeqMeasurement(
                    Algorithm::SPOA,
                    Seq::empty(),
                    0,
                    0,
                    0,
                    Seq::empty(),
                    0,
                    0,
                    arbitrary(),
                ),
                field_views(fields@),
            );
            if let Some(message) = &found {
                law_round_trip(message@);
            }
        }
        return found;
    }
    if let Some(fields) = parse_record(&buf, &whole_set_frame()) {
        let found = whole_set_from(&fields);
        proof {
            lemma_only_reading(
                line@,
                JobResultView::FullMSAMeasurement(Algorithm::SPOA, Seq::empty(), arbitrary()),
                field_views(fields@),
            );
            if let Some(message) = &found {
                law_round_trip(message@);
            }
        }
        return found;
    }
    if let Some(fields) = parse_record(&buf, &finished_frame()) {
        let found = finished_from(&fields);
        proof {
            lemma_only_reading(line@, JobResultView::Finished(None), field_views(fields@));
            if let Some(message) = &found {
                law_round_trip(message@);
            }
        }
        return found;
    }
    if let Some(fields) = parse_record(&buf, &error_frame()) {
        proof {
            assert(fields_of(JobResultView::Error) =~= field_views(fields@));
            law_round_trip(JobResultView::Error);
        }
        return Some(JobResult::Error);
    }
    proof {
        assert forall|message: JobResultView| line@ != #[trigger] encode_spec(message) by {
            lemma_fields_fit(message);
        }
    }
    None
}

} // verus!
