//! The student record and the decoding of one line of text into it.
use crate::score::{Score, ScoreField};
use crate::text::{
    fields_of, i32_of_text, lemma_trim_idempotent, parse_i32, split_fields, trim, trimmed,
};
use vstd::prelude::*;
use vstd::string::*;

verus! {

/// The number of fields of a well-shaped line.
pub const FIELD_COUNT: usize = 7;

/// The most characters a name may have.
pub const NAME_LIMIT: usize = 19;

/// The most characters the sex column may have.
pub const SEX_LIMIT: usize = 9;

/// One student.
#[derive(Debug, PartialEq, Eq)]
pub struct Stu {
    pub id: i32,
    pub name: String,
    pub sex: String,
    pub age: i32,
    pub math: Score,
    pub cn: Score,
    pub en: Score,
}

/// What a `Stu` holds, with its texts as sequences of characters.
pub struct StuModel {
    pub id: i32,
    pub name: Seq<char>,
    pub sex: Seq<char>,
    pub age: i32,
    pub math: Score,
    pub cn: Score,
    pub en: Score,
}

impl StuModel {
    /// The score in the column `field`.
    pub open spec fn score(self, field: ScoreField) -> Score {
        match field {
            ScoreField::Math => self.math,
            ScoreField::Chinese => self.cn,
            ScoreField::English => self.en,
        }
    }

    /// Whether the texts respect their limits and carry no white space at
    /// either end.
    pub open spec fn well_formed(self) -> bool {
        &&& self.name.len() <= NAME_LIMIT
        &&& self.sex.len() <= SEX_LIMIT
        &&& trimmed(self.name) == self.name
        &&& trimmed(self.sex) == self.sex
    }
}

impl View for Stu {
    type V = StuModel;

    open spec fn view(&self) -> StuModel {
        StuModel {
            id: self.id,
            name: self.name@,
            sex: self.sex@,
            age: self.age,
            math: self.math,
            cn: self.cn,
            en: self.en,
        }
    }
}

impl Clone for Stu {
    fn clone(&self) -> (r: Self)
        ensures
            r == *self,
    {
        Stu {
            id: self.id,
            name: self.name.clone(),
            sex: self.sex.clone(),
            age: self.age,
            math: self.math,
            cn: self.cn,
            en: self.en,
        }
    }
}

impl Stu {
    /// The score in the column `field`.
    pub fn score(&self, field: ScoreField) -> (r: Score)
        ensures
            r == self@.score(field),
    {
        match field {
            ScoreField::Math => self.math,
            ScoreField::Chinese => self.cn,
            ScoreField::English => self.en,
        }
    }
}

/// The models of a sequence of records, in order.
pub open spec fn models(v: Seq<Stu>) -> Seq<StuModel> {
    v.map_values(|s: Stu| s@)
}

/// Why a line was left out of a load without ending it.
#[derive(Clone, Copy, Debug, PartialEq, Eq, Structural)]
pub enum Skip {
    /// The line does not have seven fields.
    FieldCount,
    /// The trimmed name is longer than `NAME_LIMIT`.
    NameTooLong,
    /// The trimmed sex column is longer than `SEX_LIMIT`.
    SexTooLong,
}

/// What one line of text decodes to.
pub enum Decoded {
    /// A record.
    Record(StuModel),
    /// Nothing: the line is malformed and is passed over.
    Skipped(Skip),
    /// Nothing: a numeric field of a well-shaped line is not a number.
    Invalid,
}

/// What one line of text decodes to.
#[derive(Debug, PartialEq, Eq)]
pub enum Line {
    /// A record.
    Record(Stu),
    /// Nothing: the line is malformed and is passed over.
    Skipped(Skip),
    /// Nothing: a numeric field of a well-shaped line is not a number.
    Invalid,
}

impl View for Line {
    type V = Decoded;

    open spec fn view(&self) -> Decoded {
        match self {
            Line::Record(s) => Decoded::Record(s@),
            Line::Skipped(k) => Decoded::Skipped(*k),
            Line::Invalid => Decoded::Invalid,
        }
    }
}

/// What the reader of floating-point numbers made of the three score fields
/// of a line: for each the number, or nothing if the field is no number.
#[derive(Clone, Copy, Debug, PartialEq, Eq)]
pub struct Scores {
    pub math: Option<Score>,
    pub cn: Option<Score>,
    pub en: Option<Score>,
}

/// A line of the file together with the reading of its score fields.
#[derive(Clone, Debug, PartialEq, Eq)]
pub struct SourceLine {
    pub text: String,
    pub scores: Scores,
}

/// What a `SourceLine` holds, with its text as a sequence of characters.
pub struct LineModel {
    pub text: Seq<char>,
    pub scores: Scores,
}

impl View for SourceLine {
    type V = LineModel;

    open spec fn view(&self) -> LineModel {
        LineModel { text: self.text@, scores: self.scores }
    }
}

/// Whether the five numeric fields of a seven-field line are all numbers.
pub open spec fn numbers_ok(line: LineModel) -> bool {
    &&& i32_of_text(fields_of(line.text)[0]) is Some
    &&& i32_of_text(fields_of(line.text)[3]) is Some
    &&& line.scores.math is Some
    &&& line.scores.cn is Some
    &&& line.scores.en is Some
}

/// The decoding of one line. The shape is judged first, then the numbers,
/// then the lengths of the trimmed texts.
pub open spec fn decode(line: LineModel) -> Decoded {
    let f = fields_of(line.text);
    if f.len() != FIELD_COUNT {
        Decoded::Skipped(Skip::FieldCount)
    } else if !numbers_ok(line) {
        Decoded::Invalid
    } else if trimmed(f[1]).len() > NAME_LIMIT {
        Decoded::Skipped(Skip::NameTooLong)
    } else if trimmed(f[2]).len() > SEX_LIMIT {
        Decoded::Skipped(Skip::SexTooLong)
    } else {
        Decoded::Record(
            StuModel {
                id: i32_of_text(f[0]).unwrap(),
                name: trimmed(f[1]),
                sex: trimmed(f[2]),
                age: i32_of_text(f[3]).unwrap(),
                math: line.scores.math.unwrap(),
                cn: line.scores.cn.unwrap(),
                en: line.scores.en.unwrap(),
            },
        )
    }
}

/// The three score fields of a line of seven fields, for the caller to read
/// as numbers; nothing for a line of another shape.
pub fn score_texts<'a>(line: &'a str) -> (r: Option<(&'a str, &'a str, &'a str)>)
    ensures
        r is Some <==> fields_of(line@).len() == FIELD_COUNT,
        r is Some ==> r.unwrap().0@ == fields_of(line@)[4] && r.unwrap().1@ == fields_of(
            line@,
        )[5] && r.unwrap().2@ == fields_of(line@)[6],
{
    let f = split_fields(line);
    if f.len() != FIELD_COUNT {
        None
    } else {
        Some((f[4], f[5], f[6]))
    }
}

/// Decodes one line of text, given the reading of its score fields.
pub fn decode_line(line: &str, scores: Scores) -> (r: Line)
    ensures
        r@ == decode(LineModel { text: line@, scores }),
        r matches Line::Record(s) ==> s@.well_formed(),
{
    proof {
        lemma_decoded_well_formed(LineModel { text: line@, scores });
    }
    let f = split_fields(line);
    if f.len() != FIELD_COUNT {
        return Line::Skipped(Skip::FieldCount);
    }
    let id = parse_i32(f[0]);
    let age = parse_i32(f[3]);
    match (id, age, scores.math, scores.cn, scores.en) {
        (Some(id), Some(age), Some(math), Some(cn), Some(en)) => {
            let name = trim(f[1]);
            if name.unicode_len() > NAME_LIMIT {
                return Line::Skipped(Skip::NameTooLong);
            }
            let sex = trim(f[2]);
            if sex.unicode_len() > SEX_LIMIT {
                return Line::Skipped(Skip::SexTooLong);
            }
            Line::Record(
                Stu {
                    id,
                    name: String::from_str(name),
                    sex: String::from_str(sex),
                    age,
                    math,
                    cn,
                    en,
                },
            )
        },
        _ => Line::Invalid,
    }
}

/// A record that a line decodes to respects the limits on its texts.
pub proof fn lemma_decoded_well_formed(line: LineModel)
    ensures
        decode(line) is Record ==> decode(line)->Record_0.well_formed(),
{
    let f = fields_of(line.text);
    if decode(line) is Record {
        lemma_trim_idempotent(f[1]);
        lemma_trim_idempotent(f[2]);
    }
}

} // verus!
