use student_records::record::{decode_line, score_texts, Line, Scores, Skip, Stu};
use student_records::score::{Score, ScoreField};

fn score(v: f32) -> Score {
    Score { bits: v.to_bits() }
}

fn number(text: &str) -> Option<Score> {
    text.parse::<f32>().ok().map(score)
}

fn scores_of(line: &str) -> Scores {
    match score_texts(line) {
        Some((math, cn, en)) => Scores { math: number(math), cn: number(cn), en: number(en) },
        None => Scores { math: None, cn: None, en: None },
    }
}

fn decode(line: &str) -> Line {
    decode_line(line, scores_of(line))
}

fn alice() -> Stu {
    Stu {
        id: 1,
        name: "Alice".to_string(),
        sex: "F".to_string(),
        age: 20,
        math: score(88.5),
        cn: score(91.0),
        en: score(76.0),
    }
}

#[test]
fn decodes_a_well_formed_line() {
    assert_eq!(decode("1,Alice,F,20,88.5,91.0,76.0"), Line::Record(alice()));
}

#[test]
fn scores_are_those_handed_in() {
    let scores = Scores { math: Some(score(1.0)), cn: Some(score(2.0)), en: Some(score(3.0)) };
    match decode_line("1,Alice,F,20,x,y,z", scores) {
        Line::Record(stu) => {
            assert_eq!(stu.math, score(1.0));
            assert_eq!(stu.cn, score(2.0));
            assert_eq!(stu.en, score(3.0));
        }
        other => panic!("{:?}", other),
    }
    let none = Scores { math: Some(score(1.0)), cn: None, en: Some(score(3.0)) };
    assert_eq!(decode_line("1,Alice,F,20,88.5,91.0,76.0", none), Line::Invalid);
}

#[test]
fn score_texts_are_the_last_three_of_seven_fields() {
    assert_eq!(score_texts("1,Alice,F,20,88.5, 91.0,"), Some(("88.5", " 91.0", "")));
    assert_eq!(score_texts("1,Alice,F,20,88.5,91.0"), None);
    assert_eq!(score_texts("1,Alice,F,20,88.5,91.0,76.0,"), None);
    assert_eq!(score_texts(""), None);
}

#[test]
fn every_floating_point_text_is_a_score() {
    for text in ["1e2", "2.5E-1", "inf", "-infinity", "nan", "NaN", "12345678901234567", ".5", "5.", "+3"] {
        let line = format!("1,Alice,F,20,{},1,1", text);
        match decode(&line) {
            Line::Record(stu) => {
                assert_eq!(stu.math.bits, text.parse::<f32>().unwrap().to_bits(), "{}", text)
            }
            other => panic!("{}: {:?}", text, other),
        }
    }
}

#[test]
fn trims_name_and_sex_but_not_the_numbers() {
    assert_eq!(decode("1,  Alice ,\tF ,20,88.5,91.0,76.0"), Line::Record(alice()));
    assert_eq!(decode(" 1,Alice,F,20,88.5,91.0,76.0"), Line::Invalid);
    assert_eq!(decode("1,Alice,F,20 ,88.5,91.0,76.0"), Line::Invalid);
    assert_eq!(decode("1,Alice,F,20,88.5, 91.0,76.0"), Line::Invalid);
}

#[test]
fn wrong_field_count_is_skipped() {
    assert_eq!(decode("bad,line,here"), Line::Skipped(Skip::FieldCount));
    assert_eq!(decode(""), Line::Skipped(Skip::FieldCount));
    assert_eq!(decode("1,Alice,F,20,88.5,91.0"), Line::Skipped(Skip::FieldCount));
    assert_eq!(decode("1,Alice,F,20,88.5,91.0,76.0,"), Line::Skipped(Skip::FieldCount));
    assert_eq!(decode("x,Alice,F,20,88.5,91.0,76.0,9"), Line::Skipped(Skip::FieldCount));
    assert_eq!(decode("1,Smith, Alice,F,20,88.5,91.0,76.0"), Line::Skipped(Skip::FieldCount));
    let scores = Scores { math: Some(score(1.0)), cn: Some(score(2.0)), en: Some(score(3.0)) };
    assert_eq!(decode_line("bad,line,here", scores), Line::Skipped(Skip::FieldCount));
}

#[test]
fn each_numeric_field_must_be_a_number() {
    assert_eq!(decode("one,Alice,F,20,88.5,91.0,76.0"), Line::Invalid);
    assert_eq!(decode("4,Alice,F,twenty,80,80,80"), Line::Invalid);
    assert_eq!(decode("1,Alice,F,20,high,91.0,76.0"), Line::Invalid);
    assert_eq!(decode("1,Alice,F,20,88.5,,76.0"), Line::Invalid);
    assert_eq!(decode("1,Alice,F,20,88.5,91.0,7x"), Line::Invalid);
    assert_eq!(decode("1.5,Alice,F,20,88.5,91.0,76.0"), Line::Invalid);
    assert_eq!(decode(",,,,,,"), Line::Invalid);
}

#[test]
fn name_may_have_nineteen_characters() {
    let name = "abcdefghijklmnopqrs";
    assert_eq!(name.len(), 19);
    let line = format!("1,{},F,20,1,2,3", name);
    match decode(&line) {
        Line::Record(stu) => assert_eq!(stu.name, name),
        other => panic!("{:?}", other),
    }
    let line = format!("1,{}t,F,20,1,2,3", name);
    assert_eq!(decode(&line), Line::Skipped(Skip::NameTooLong));
    let line = format!("1,   {}   ,F,20,1,2,3", name);
    assert!(matches!(decode(&line), Line::Record(_)));
}

#[test]
fn sex_may_have_nine_characters() {
    let line = "1,Alice,undefined,20,1,2,3";
    match decode(line) {
        Line::Record(stu) => assert_eq!(stu.sex, "undefined"),
        other => panic!("{:?}", other),
    }
    assert_eq!(decode("1,Alice,undefined!,20,1,2,3"), Line::Skipped(Skip::SexTooLong));
    assert!(matches!(decode("1,Alice, undefined ,20,1,2,3"), Line::Record(_)));
}

#[test]
fn lengths_count_characters() {
    let name = "李".repeat(19);
    let line = format!("1,{},女,20,1,2,3", name);
    match decode(&line) {
        Line::Record(stu) => {
            assert_eq!(stu.name, name);
            assert_eq!(stu.sex, "女");
        }
        other => panic!("{:?}", other),
    }
    let line = format!("1,{},女,20,1,2,3", "李".repeat(20));
    assert_eq!(decode(&line), Line::Skipped(Skip::NameTooLong));
}

#[test]
fn numbers_are_judged_before_lengths() {
    let long = "x".repeat(30);
    assert_eq!(decode(&format!("1,{},F,twenty,1,2,3", long)), Line::Invalid);
    assert_eq!(decode(&format!("1,{},{},20,1,2,3", long, long)), Line::Skipped(Skip::NameTooLong));
    assert_eq!(decode(&format!("1,A,{},20,1,2,zz", long)), Line::Invalid);
}

#[test]
fn score_picks_the_column() {
    let stu = alice();
    assert_eq!(stu.score(ScoreField::Math), score(88.5));
    assert_eq!(stu.score(ScoreField::Chinese), score(91.0));
    assert_eq!(stu.score(ScoreField::English), score(76.0));
}

#[test]
fn clone_copies_every_field() {
    let stu = alice();
    assert_eq!(stu.clone(), stu);
}
