//! Loading the records of a file from its lines.
//!
//! The score fields of a line hold floating-point text, which the caller
//! reads; a line comes here with what that reading gave.
use crate::record::{
    decode, decode_line, lemma_decoded_well_formed, models, numbers_ok, Decoded, Line, LineModel,
    Skip, SourceLine, Stu, StuModel, FIELD_COUNT, NAME_LIMIT, SEX_LIMIT,
};
use crate::text::{fields_of, lemma_pieces_whole, lines_of, pieces, trimmed};
use vstd::prelude::*;
use vstd::string::*;

verus! {

/// The first line of every file of records.
pub const HEADER: &'static str = "ID,Name,Sex,Age,Math,Chinese,English";

/// The content of the file once it has been initialized: what it held
/// before, or the header line alone if there was no file.
pub open spec fn initialized(existing: Option<Seq<char>>) -> Seq<char> {
    match existing {
        Some(content) => content,
        None => HEADER@.push('\n'),
    }
}

/// The content that the file is to have once it has been initialized, given
/// what it holds now, if it is there at all.
pub fn init(existing: Option<String>) -> (r: String)
    ensures
        r@ == initialized(
            match existing {
                Some(content) => Some(content@),
                None => None,
            },
        ),
{
    match existing {
        Some(content) => content,
        None => {
            proof {
                reveal_strlit("\n");
                assert(HEADER@ + "\n"@ =~= HEADER@.push('\n'));
            }
            String::from_str(HEADER).concat("\n")
        },
    }
}

/// Initializing twice leaves what initializing once leaves: a file that is
/// there is neither cut short nor given a second header.
pub proof fn lemma_init_idempotent(existing: Option<Seq<char>>)
    ensures
        initialized(Some(initialized(existing))) == initialized(existing),
{
}

/// A file that has just been created holds its header and nothing to load.
pub proof fn lemma_fresh_file_is_header_alone()
    ensures
        lines_of(initialized(None)) == seq![HEADER@],
{
    reveal_strlit("ID,Name,Sex,Age,Math,Chinese,English");
    let header = HEADER@;
    let content = initialized(None);
    lemma_pieces_whole(header, '\n');
    assert(content.drop_last() =~= header);
    assert(pieces(content, '\n') == seq![header, Seq::<char>::empty()]);
    let p = pieces(content, '\n');
    assert(p.drop_last() =~= seq![header]);
    assert(lines_of(content) =~= seq![header]);
}

/// A numeric field that is not a number ended the load.
#[derive(Clone, Copy, Debug, PartialEq, Eq, Structural)]
pub struct ParseError {
    /// The index of the offending line; the header is line zero.
    pub line: usize,
}

/// The models of a sequence of lines, in order.
pub open spec fn sources(lines: Seq<SourceLine>) -> Seq<LineModel> {
    lines.map_values(|l: SourceLine| l@)
}

/// The lines of a file after its header.
pub open spec fn data_lines(lines: Seq<LineModel>) -> Seq<LineModel> {
    if lines.len() == 0 {
        lines
    } else {
        lines.skip(1)
    }
}

/// The records that `lines` decode to, in the order of the lines. A line
/// that decodes to no record adds nothing.
pub open spec fn records_of(lines: Seq<LineModel>) -> Seq<StuModel>
    decreases lines.len(),
{
    if lines.len() == 0 {
        Seq::empty()
    } else {
        let before = records_of(lines.drop_last());
        match decode(lines.last()) {
            Decoded::Record(r) => before.push(r),
            _ => before,
        }
    }
}

/// Whether some line of `lines` holds a numeric field that is not a number.
pub open spec fn has_invalid(lines: Seq<LineModel>) -> bool {
    exists|i: int| 0 <= i < lines.len() && decode(#[trigger] lines[i]) is Invalid
}

/// Whether `at` is the first line after the header with a numeric field that
/// is not a number.
pub open spec fn first_invalid(lines: Seq<LineModel>, at: int) -> bool {
    &&& 1 <= at < lines.len()
    &&& decode(lines[at]) is Invalid
    &&& forall|j: int| 1 <= j < at ==> !(decode(#[trigger] lines[j]) is Invalid)
}

/// Loads the records of a file from its lines, each with the reading of its
/// score fields.
///
/// The first line is the header and is passed over unread. A malformed line
/// is left out. A line with a numeric field that is not a number ends the
/// load with an error that names the first such line.
pub fn read_student_data(lines: &Vec<SourceLine>) -> (r: Result<Vec<Stu>, ParseError>)
    ensures
        r is Ok <==> !has_invalid(data_lines(sources(lines@))),
        r is Ok ==> models(r.unwrap()@) == records_of(data_lines(sources(lines@))),
        r is Ok ==> forall|i: int|
            0 <= i < r.unwrap()@.len() ==> (#[trigger] r.unwrap()@[i])@.well_formed(),
        r is Err ==> first_invalid(sources(lines@), r.unwrap_err().line as int),
{
    let ghost all = sources(lines@);
    let ghost data = data_lines(all);
    let mut out: Vec<Stu> = Vec::new();
    let n: usize = lines.len();
    if n == 0 {
        return Ok(out);
    }
    let mut i: usize = 1;
    proof {
        assert(data.take(0) =~= Seq::<LineModel>::empty());
        assert(models(out@) =~= records_of(data.take(0)));
    }
    while i < n
        invariant
            1 <= i <= n == lines@.len(),
            all == sources(lines@),
            data == all.skip(1),
            models(out@) == records_of(data.take(i - 1)),
            forall|k: int| 0 <= k < out@.len() ==> (#[trigger] out@[k])@.well_formed(),
            forall|j: int| 1 <= j < i ==> !(decode(#[trigger] all[j]) is Invalid),
        decreases n - i,
    {
        let decoded = decode_line(lines[i].text.as_str(), lines[i].scores);
        proof {
            assert(all[i as int] == lines@[i as int]@);
            assert(data.take(i as int).drop_last() =~= data.take(i - 1));
            assert(data.take(i as int).last() == all[i as int]);
        }
        match decoded {
            Line::Record(stu) => {
                let ghost before = out@;
                out.push(stu);
                proof {
                    assert(models(out@) =~= models(before).push(stu@));
                }
            },
            Line::Skipped(_) => {},
            Line::Invalid => {
                proof {
                    assert(data[i - 1] == all[i as int]);
                }
                return Err(ParseError { line: i });
            },
        }
        i += 1;
    }
    proof {
        assert(data.take(n - 1) =~= data);
        assert forall|k: int| 0 <= k < data.len() implies !(decode(#[trigger] data[k]) is Invalid) by {
            assert(data[k] == all[k + 1]);
        }
    }
    Ok(out)
}

/// A line that a load passed over, and why.
#[derive(Clone, Copy, Debug, PartialEq, Eq, Structural)]
pub struct Skipped {
    /// The index of the line; the header is line zero.
    pub line: usize,
    /// Why the line was passed over.
    pub reason: Skip,
}

/// The lines among `lines[1..upto]` that a load passes over, in order.
pub open spec fn skipped_of(lines: Seq<LineModel>, upto: int) -> Seq<Skipped>
    decreases upto,
{
    if upto <= 1 {
        Seq::empty()
    } else {
        let before = skipped_of(lines, upto - 1);
        match decode(lines[upto - 1]) {
            Decoded::Skipped(reason) => before.push(
                Skipped { line: (upto - 1) as usize, reason },
            ),
            _ => before,
        }
    }
}

/// How far a load reads: up to the first line after the header with a
/// numeric field that is not a number, or to the end if there is none.
pub open spec fn read_up_to(lines: Seq<LineModel>, end: int) -> bool {
    ||| first_invalid(lines, end)
    ||| (end == lines.len() && !has_invalid(data_lines(lines)))
}

/// Lists the lines that a load of `lines` passes over, for a report: those
/// that it meets before it ends, each with the reason.
pub fn skipped_lines(lines: &Vec<SourceLine>) -> (r: Vec<Skipped>)
    ensures
        exists|end: int| read_up_to(sources(lines@), end) && r@ == skipped_of(sources(lines@), end),
{
    let ghost all = sources(lines@);
    let mut out: Vec<Skipped> = Vec::new();
    let n: usize = lines.len();
    if n == 0 {
        proof {
            assert(read_up_to(all, 0) && out@ == skipped_of(all, 0));
        }
        return out;
    }
    let mut i: usize = 1;
    while i < n
        invariant
            1 <= i <= n == lines@.len(),
            all == sources(lines@),
            out@ == skipped_of(all, i as int),
            forall|j: int| 1 <= j < i ==> !(decode(#[trigger] all[j]) is Invalid),
        decreases n - i,
    {
        let decoded = decode_line(lines[i].text.as_str(), lines[i].scores);
        proof {
            assert(all[i as int] == lines@[i as int]@);
        }
        match decoded {
            Line::Record(_) => {},
            Line::Skipped(reason) => {
                out.push(Skipped { line: i, reason });
            },
            Line::Invalid => {
                proof {
                    assert(read_up_to(all, i as int));
                }
                return out;
            },
        }
        i += 1;
    }
    proof {
        let data = data_lines(all);
        assert forall|k: int| 0 <= k < data.len() implies !(decode(#[trigger] data[k]) is Invalid) by {
            assert(data[k] == all[k + 1]);
        }
        assert(read_up_to(all, n as int));
    }
    out
}

/// The records of two runs of lines, one after the other, are the records of
/// the first run followed by those of the second: a load keeps the order of
/// the lines.
pub proof fn lemma_records_concat(a: Seq<LineModel>, b: Seq<LineModel>)
    ensures
        records_of(a + b) == records_of(a) + records_of(b),
    decreases b.len(),
{
    if b.len() == 0 {
        assert(a + b =~= a);
        assert(records_of(a) + records_of(b) =~= records_of(a));
    } else {
        lemma_records_concat(a, b.drop_last());
        assert((a + b).drop_last() =~= a + b.drop_last());
        assert((a + b).last() == b.last());
        match decode(b.last()) {
            Decoded::Record(r) => {
                assert((records_of(a) + records_of(b.drop_last())).push(r) =~= records_of(a)
                    + records_of(b.drop_last()).push(r));
            },
            _ => {},
        }
    }
}

/// When every line decodes to a record, a load yields one record for each
/// line, and the record at each position is the one that the line at that
/// position decodes to.
pub proof fn lemma_records_follow_lines(lines: Seq<LineModel>)
    requires
        forall|i: int| 0 <= i < lines.len() ==> decode(#[trigger] lines[i]) is Record,
    ensures
        !has_invalid(lines),
        records_of(lines).len() == lines.len(),
        forall|i: int|
            0 <= i < lines.len() ==> decode(#[trigger] lines[i]) == Decoded::Record(
                records_of(lines)[i],
            ),
    decreases lines.len(),
{
    if lines.len() > 0 {
        let before = lines.drop_last();
        assert forall|i: int| 0 <= i < before.len() implies decode(
            #[trigger] before[i],
        ) is Record by {
            assert(before[i] == lines[i]);
        }
        lemma_records_follow_lines(before);
        assert(decode(lines[lines.len() - 1]) is Record);
        assert forall|i: int| 0 <= i < lines.len() implies decode(#[trigger] lines[i])
            == Decoded::Record(records_of(lines)[i]) by {
            if i < before.len() {
                assert(before[i] == lines[i]);
            }
        }
    }
}

/// A line that is passed over leaves no trace: the load of the lines around
/// it yields the same records, and fails or succeeds, as if the line were not
/// there.
pub proof fn lemma_skipped_line_leaves_no_trace(
    before: Seq<LineModel>,
    line: LineModel,
    after: Seq<LineModel>,
)
    requires
        decode(line) is Skipped,
    ensures
        records_of(before.push(line) + after) == records_of(before + after),
        has_invalid(before.push(line) + after) == has_invalid(before + after),
{
    let with = before.push(line) + after;
    let without = before + after;
    lemma_records_concat(before.push(line), after);
    lemma_records_concat(before, after);
    assert(before.push(line).drop_last() =~= before);
    if has_invalid(with) {
        let i = choose|i: int| 0 <= i < with.len() && decode(#[trigger] with[i]) is Invalid;
        if i < before.len() {
            assert(without[i] == with[i]);
        } else {
            assert(i > before.len());
            assert(without[i - 1] == with[i]);
        }
    }
    if has_invalid(without) {
        let i = choose|i: int| 0 <= i < without.len() && decode(#[trigger] without[i]) is Invalid;
        if i < before.len() {
            assert(with[i] == without[i]);
        } else {
            assert(with[i + 1] == without[i]);
        }
    }
}

/// A line with fewer or more than seven fields is passed over.
pub proof fn lemma_wrong_shape_is_skipped(line: LineModel)
    requires
        fields_of(line.text).len() != FIELD_COUNT,
    ensures
        decode(line) == Decoded::Skipped(Skip::FieldCount),
{
}

/// A line of seven fields whose numbers are numbers, but whose trimmed name
/// or sex column is too long, is passed over.
pub proof fn lemma_long_text_is_skipped(line: LineModel)
    requires
        fields_of(line.text).len() == FIELD_COUNT,
        numbers_ok(line),
        trimmed(fields_of(line.text)[1]).len() > NAME_LIMIT || trimmed(fields_of(line.text)[2]).len()
            > SEX_LIMIT,
    ensures
        decode(line) is Skipped,
        decode(line) != Decoded::Skipped(Skip::FieldCount),
{
}

/// A line of seven fields with a numeric field that is not a number makes
/// every load that meets it fail, whatever stands around it.
pub proof fn lemma_bad_number_ends_load(
    before: Seq<LineModel>,
    line: LineModel,
    after: Seq<LineModel>,
)
    requires
        fields_of(line.text).len() == FIELD_COUNT,
        !numbers_ok(line),
    ensures
        decode(line) is Invalid,
        has_invalid(before.push(line) + after),
{
    let with = before.push(line) + after;
    assert(with[before.len() as int] == line);
}

/// Every record that a load yields respects the limits on its texts.
pub proof fn lemma_records_well_formed(lines: Seq<LineModel>)
    ensures
        forall|i: int|
            0 <= i < records_of(lines).len() ==> (#[trigger] records_of(lines)[i]).well_formed(),
    decreases lines.len(),
{
    if lines.len() > 0 {
        let before = records_of(lines.drop_last());
        lemma_records_well_formed(lines.drop_last());
        lemma_decoded_well_formed(lines.last());
        assert forall|i: int| 0 <= i < records_of(lines).len() implies (#[trigger] records_of(
            lines,
        )[i]).well_formed() by {
            if i < before.len() {
                assert(records_of(lines)[i] == before[i]);
            }
        }
    }
}

} // verus!
