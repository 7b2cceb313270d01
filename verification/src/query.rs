//! Queries over loaded records.
use crate::record::{models, Stu, StuModel};
use crate::score::{in_range, lemma_range_needs_order, Score, ScoreField};
use crate::text::{int_text, write_i32};
use vstd::prelude::*;
use vstd::string::*;

verus! {

/// The test that a record's score in `field` lies between `lo` and `hi`,
/// both included.
pub open spec fn range_test(field: ScoreField, lo: Score, hi: Score) -> spec_fn(StuModel) -> bool {
    |m: StuModel| in_range(m.score(field), lo, hi)
}

/// The records whose score in `field` lies between `lo` and `hi`, both
/// included, in the order in which `records` holds them.
pub open spec fn matching(records: Seq<StuModel>, field: ScoreField, lo: Score, hi: Score) -> Seq<
    StuModel,
> {
    records.filter(range_test(field, lo, hi))
}

/// Selects the records whose score in `field` lies between `lo` and `hi`,
/// both included, keeping their order.
pub fn find_stu_by_scores(records: &Vec<Stu>, field: ScoreField, lo: Score, hi: Score) -> (r: Vec<
    Stu,
>)
    ensures
        models(r@) == matching(models(records@), field, lo, hi),
{
    let ghost all = models(records@);
    let mut out: Vec<Stu> = Vec::new();
    let mut i: usize = 0;
    proof {
        reveal(Seq::filter);
        assert(all.take(0) =~= Seq::<StuModel>::empty());
        assert(models(out@) =~= matching(all.take(0), field, lo, hi));
    }
    while i < records.len()
        invariant
            i <= records@.len(),
            all == models(records@),
            models(out@) == matching(all.take(i as int), field, lo, hi),
        decreases records@.len() - i,
    {
        let stu = &records[i];
        proof {
            reveal(Seq::filter);
            assert(all.take(i + 1).drop_last() =~= all.take(i as int));
            assert(all.take(i + 1).last() == stu@);
        }
        if stu.score(field).within(lo, hi) {
            let ghost before = out@;
            let copy = stu.clone();
            out.push(copy);
            proof {
                assert(models(out@) =~= models(before).push(stu@));
            }
        }
        i += 1;
    }
    proof {
        assert(all.take(i as int) =~= all);
    }
    out
}

/// A query selects exactly the records in range: each record it yields is
/// one of the input with its score in range, and each such record of the
/// input is among those it yields.
pub proof fn lemma_matching_exact(
    records: Seq<StuModel>,
    field: ScoreField,
    lo: Score,
    hi: Score,
    m: StuModel,
)
    ensures
        matching(records, field, lo, hi).contains(m) <==> records.contains(m) && in_range(
            m.score(field),
            lo,
            hi,
        ),
    decreases records.len(),
{
    reveal(Seq::filter);
    let test = range_test(field, lo, hi);
    if records.len() > 0 {
        let before = records.drop_last();
        let last = records.last();
        lemma_matching_exact(before, field, lo, hi, m);
        let found = matching(records, field, lo, hi);
        let found_before = matching(before, field, lo, hi);
        if records.contains(m) {
            let i = choose|i: int| 0 <= i < records.len() && records[i] == m;
            if i < before.len() {
                assert(before[i] == m);
            }
        }
        if before.contains(m) {
            let i = choose|i: int| 0 <= i < before.len() && before[i] == m;
            assert(records[i] == m);
        }
        assert(records[records.len() - 1] == last);
        if test(last) {
            assert(found == found_before.push(last));
            assert(found[found.len() - 1] == last);
            if found.contains(m) {
                let i = choose|i: int| 0 <= i < found.len() && found[i] == m;
                if i < found_before.len() {
                    assert(found_before[i] == m);
                }
            }
            if found_before.contains(m) {
                let i = choose|i: int| 0 <= i < found_before.len() && found_before[i] == m;
                assert(found[i] == m);
            }
        }
    }
}

/// A query keeps the order of its input: over two runs of records, one after
/// the other, it yields what it yields over the first, followed by what it
/// yields over the second.
pub proof fn lemma_matching_concat(
    a: Seq<StuModel>,
    b: Seq<StuModel>,
    field: ScoreField,
    lo: Score,
    hi: Score,
)
    ensures
        matching(a + b, field, lo, hi) == matching(a, field, lo, hi) + matching(b, field, lo, hi),
{
    Seq::filter_distributes_over_add(a, b, range_test(field, lo, hi));
}

/// A query whose lower bound is not at most its upper bound yields nothing:
/// so when the lower bound lies above the upper one, and when either is a
/// NaN.
pub proof fn lemma_empty_range(records: Seq<StuModel>, field: ScoreField, lo: Score, hi: Score)
    requires
        !lo.at_most(hi),
    ensures
        matching(records, field, lo, hi) == Seq::<StuModel>::empty(),
    decreases records.len(),
{
    reveal(Seq::filter);
    if records.len() > 0 {
        lemma_empty_range(records.drop_last(), field, lo, hi);
        if in_range(records.last().score(field), lo, hi) {
            lemma_range_needs_order(records.last().score(field), lo, hi);
        }
    }
}

/// A query over no records yields nothing.
pub proof fn lemma_matching_nothing(field: ScoreField, lo: Score, hi: Score)
    ensures
        matching(Seq::<StuModel>::empty(), field, lo, hi) == Seq::<StuModel>::empty(),
{
    reveal(Seq::filter);
}

/// The first row of a printed table: the names of the columns.
pub const TABLE_HEADER: &'static str = "ID\tName\tSex\tAge\tMath\tChinese\tEnglish";

/// The second row of a printed table: a rule under the names.
pub const TABLE_RULE: &'static str = "-----------------------------------------------------";

/// The texts of the three scores of a record, as a table shows them.
#[derive(Clone, Debug, PartialEq, Eq)]
pub struct ScoreCells {
    pub math: String,
    pub cn: String,
    pub en: String,
}

/// `row` with a tab and then `cell` behind it.
pub open spec fn with_cell(row: Seq<char>, cell: Seq<char>) -> Seq<char> {
    row + seq!['\t'] + cell
}

/// The row of a table that shows one record: its seven columns in order,
/// with a tab between neighbours and the scores as the given texts.
pub open spec fn row_text(m: StuModel, math: Seq<char>, cn: Seq<char>, en: Seq<char>) -> Seq<
    char,
> {
    with_cell(
        with_cell(
            with_cell(
                with_cell(
                    with_cell(with_cell(int_text(m.id as int), m.name), m.sex),
                    int_text(m.age as int),
                ),
                math,
            ),
            cn,
        ),
        en,
    )
}

/// Puts a tab and then `cell` behind what `row` holds.
fn push_cell(row: &mut String, cell: &str)
    ensures
        final(row)@ == with_cell(old(row)@, cell@),
{
    proof {
        reveal_strlit("\t");
        assert("\t"@ =~= seq!['\t']);
    }
    row.append("\t");
    row.append(cell);
}

/// The row of a table that shows `stu`, with the texts of its scores.
pub fn show_stu(stu: &Stu, cells: &ScoreCells) -> (r: String)
    ensures
        r@ == row_text(stu@, cells.math@, cells.cn@, cells.en@),
{
    let mut row = write_i32(stu.id);
    push_cell(&mut row, stu.name.as_str());
    push_cell(&mut row, stu.sex.as_str());
    push_cell(&mut row, write_i32(stu.age).as_str());
    push_cell(&mut row, cells.math.as_str());
    push_cell(&mut row, cells.cn.as_str());
    push_cell(&mut row, cells.en.as_str());
    row
}

/// The rows of a table that shows `records`: one row for each record, in
/// order, and none for no records. `cells` holds the texts of the scores,
/// record by record; with more or fewer of them than records there is no
/// table.
pub fn show_all_stu(records: &Vec<Stu>, cells: &Vec<ScoreCells>) -> (r: Option<Vec<String>>)
    ensures
        r is Some <==> cells@.len() == records@.len(),
        r is Some ==> r.unwrap()@.len() == records@.len(),
        r is Some ==> forall|i: int|
            0 <= i < records@.len() ==> (#[trigger] r.unwrap()@[i])@ == row_text(
                records@[i]@,
                cells@[i].math@,
                cells@[i].cn@,
                cells@[i].en@,
            ),
{
    if cells.len() != records.len() {
        return None;
    }
    let mut rows: Vec<String> = Vec::new();
    let mut i: usize = 0;
    while i < records.len()
        invariant
            i <= records@.len(),
            cells@.len() == records@.len(),
            rows@.len() == i,
            forall|k: int|
                0 <= k < i ==> (#[trigger] rows@[k])@ == row_text(
                    records@[k]@,
                    cells@[k].math@,
                    cells@[k].cn@,
                    cells@[k].en@,
                ),
        decreases records@.len() - i,
    {
        rows.push(show_stu(&records[i], &cells[i]));
        i += 1;
    }
    Some(rows)
}

} // verus!
