//! The layout of the export workbooks: the names of the two files, the seal
//! sheet of each carton, and the grade sheets and the defect-photo sheet of
//! the inspection report. Each body line of a sheet stands for one piece, so
//! a record of quantity `q` takes `q` lines; a run of such lines is given by
//! its first row and its count.

use vstd::prelude::*;
use crate::models::{Carton, CartonSummary, PhotoRow, PhotoRowModel, RecordRow, RecordRowModel};
use crate::text::{chars_of, format_i64, format_u128, int_decimal, nat_digits, push_str, string_of};
use crate::schema::lemma_filter_take_step;

verus! {

// ---------------------------------------------------------------- file names

pub open spec fn not_dash(c: char) -> bool {
    c != '-'
}

/// The inspection date without its dashes.
pub open spec fn compact_date(date: Seq<char>) -> Seq<char> {
    date.filter(|c: char| not_dash(c))
}

pub open spec fn seal_file_name(batch_no: Seq<char>, date: Seq<char>) -> Seq<char> {
    "封箱单 "@ + batch_no + " "@ + compact_date(date) + ".xlsx"@
}

pub open spec fn report_file_name(batch_no: Seq<char>, date: Seq<char>) -> Seq<char> {
    "入库质检报告 "@ + batch_no + " "@ + compact_date(date) + ".xlsx"@
}

fn compact_date_exec(date: &str) -> (r: String)
    ensures
        r@ == compact_date(date@),
{
    let v = chars_of(date);
    let ghost p = |c: char| not_dash(c);
    let mut out: Vec<char> = Vec::new();
    let mut i: usize = 0;
    assert(out@ =~= v@.take(0).filter(p));
    while i < v.len()
        invariant
            i <= v@.len(),
            v@ == date@,
            p == (|c: char| not_dash(c)),
            out@ == v@.take(i as int).filter(p),
        decreases v@.len() - i,
    {
        proof {
            lemma_filter_take_step(v@, i as int, p);
        }
        if v[i] != '-' {
            out.push(v[i]);
        }
        i = i + 1;
    }
    assert(v@.take(v@.len() as int) =~= v@);
    string_of(out.as_slice())
}

/// The names of the seal workbook and of the report workbook.
pub fn export_file_names(batch_no: &str, date: &str) -> (r: (String, String))
    ensures
        r.0@ == seal_file_name(batch_no@, date@),
        r.1@ == report_file_name(batch_no@, date@),
{
    let d = compact_date_exec(date);
    let mut seal = String::from_str("封箱单 ");
    push_str(&mut seal, batch_no);
    push_str(&mut seal, " ");
    push_str(&mut seal, d.as_str());
    push_str(&mut seal, ".xlsx");
    let mut report = String::from_str("入库质检报告 ");
    push_str(&mut report, batch_no);
    push_str(&mut report, " ");
    push_str(&mut report, d.as_str());
    push_str(&mut report, ".xlsx");
    (seal, report)
}

// ---------------------------------------------------------------- quantities

pub open spec fn grade_is(r: RecordRowModel, g: char) -> bool {
    r.grade == seq![g]
}

pub open spec fn positive_quantities(rs: Seq<RecordRowModel>) -> bool {
    forall|k: int| 0 <= k < rs.len() ==> (#[trigger] rs[k]).quantity > 0
}

/// The pieces of the records of `rs` that are not graded D.
pub open spec fn sealed_sum(rs: Seq<RecordRowModel>) -> int
    decreases rs.len(),
{
    if rs.len() == 0 {
        0
    } else {
        sealed_sum(rs.drop_last()) + if grade_is(rs.last(), 'D') {
            0
        } else {
            rs.last().quantity as int
        }
    }
}

/// The pieces of the records of `rs` graded `g`.
pub open spec fn graded_sum(rs: Seq<RecordRowModel>, g: char) -> int
    decreases rs.len(),
{
    if rs.len() == 0 {
        0
    } else {
        graded_sum(rs.drop_last(), g) + if grade_is(rs.last(), g) {
            rs.last().quantity as int
        } else {
            0
        }
    }
}

/// The lines a record takes on the defect sheet: one for grade B (which
/// shows its quantity), one per piece otherwise.
pub open spec fn defect_copies(r: RecordRowModel) -> int {
    if grade_is(r, 'B') {
        1
    } else {
        r.quantity as int
    }
}

/// The lines of the records of `rs` on the defect sheet (grade A is left
/// out).
pub open spec fn defect_sum(rs: Seq<RecordRowModel>) -> int
    decreases rs.len(),
{
    if rs.len() == 0 {
        0
    } else {
        defect_sum(rs.drop_last()) + if grade_is(rs.last(), 'A') {
            0
        } else {
            defect_copies(rs.last())
        }
    }
}

// ---------------------------------------------------------------- seal sheets

/// `count` lines from row `first_row`, numbered from `first_no`.
pub struct SealLines {
    pub first_row: u128,
    pub first_no: u128,
    pub count: u128,
    pub barcode: String,
    pub grade: String,
    pub reason: String,
}

pub struct SealLinesModel {
    pub first_row: int,
    pub first_no: int,
    pub count: int,
    pub barcode: Seq<char>,
    pub grade: Seq<char>,
    pub reason: Seq<char>,
}

impl View for SealLines {
    type V = SealLinesModel;

    open spec fn view(&self) -> SealLinesModel {
        SealLinesModel {
            first_row: self.first_row as int,
            first_no: self.first_no as int,
            count: self.count as int,
            barcode: self.barcode@,
            grade: self.grade@,
            reason: self.reason@,
        }
    }
}

pub open spec fn seal_lines_views(s: Seq<SealLines>) -> Seq<SealLinesModel> {
    s.map_values(|l: SealLines| l@)
}

/// The seal sheet of a carton: its name, its body lines, its total line
/// (row and pieces), the note of the total line, and the last row hidden.
pub struct SealSheet {
    pub carton_no: String,
    pub lines: Vec<SealLines>,
    pub total: u128,
    pub total_row: u128,
    pub note: String,
    pub hide_to: u128,
}

pub struct SealSheetModel {
    pub carton_no: Seq<char>,
    pub lines: Seq<SealLinesModel>,
    pub total: int,
    pub total_row: int,
    pub note: Seq<char>,
    pub hide_to: int,
}

impl View for SealSheet {
    type V = SealSheetModel;

    open spec fn view(&self) -> SealSheetModel {
        SealSheetModel {
            carton_no: self.carton_no@,
            lines: seal_lines_views(self.lines@),
            total: self.total as int,
            total_row: self.total_row as int,
            note: self.note@,
            hide_to: self.hide_to as int,
        }
    }
}

/// The body lines of the first `n` records of a carton: those not graded D
/// take one line per piece from row 3, numbered from 1.
pub open spec fn seal_lines_spec(rs: Seq<RecordRowModel>, n: int) -> Seq<SealLinesModel>
    decreases n,
{
    if n <= 0 {
        seq![]
    } else {
        let prev = seal_lines_spec(rs, n - 1);
        let r = rs[n - 1];
        if grade_is(r, 'D') {
            prev
        } else {
            let before = sealed_sum(rs.take(n - 1));
            prev.push(
                SealLinesModel {
                    first_row: before + 3,
                    first_no: before + 1,
                    count: r.quantity as int,
                    barcode: r.barcode,
                    grade: r.grade,
                    reason: r.exception_reason,
                },
            )
        }
    }
}

/// The note of the total line: the pieces the carton held as packed (its
/// reference quantity, else those inspected) and those taken out as D.
pub open spec fn seal_note(c: CartonSummary) -> Seq<char> {
    let packed = match c.reference_qty {
        Some(q) => q,
        None => c.inspected_qty,
    };
    "原箱共"@ + int_decimal(packed as int) + "件，取出"@ + int_decimal(c.grade_d as int) + "件D"@
}

/// The seal sheet of carton `c` with records `rs`: the total line follows
/// the body, and the rows after it are hidden up to row 34 at least.
pub open spec fn seal_sheet_spec(c: CartonSummary, rs: Seq<RecordRowModel>) -> SealSheetModel {
    let total = sealed_sum(rs);
    SealSheetModel {
        carton_no: c.carton_no,
        lines: seal_lines_spec(rs, rs.len() as int),
        total,
        total_row: total + 3,
        note: seal_note(c),
        hide_to: if total + 4 > 34 {
            total + 4
        } else {
            34
        },
    }
}

pub open spec fn record_row_views_of(s: Seq<RecordRow>) -> Seq<RecordRowModel> {
    s.map_values(|r: RecordRow| r@)
}

fn is_grade_exec(r: &RecordRow, g: char) -> (b: bool)
    ensures
        b == grade_is(r@, g),
{
    let v = chars_of(r.grade.as_str());
    let b = v.len() == 1 && v[0] == g;
    proof {
        if b {
            assert(v@ =~= seq![g]);
        } else if v@ == seq![g] {
            assert(v@[0] == g);
        }
    }
    b
}

/// The seal sheet of carton `c`, whose records in order are `rs`.
pub fn seal_sheet(c: &Carton, rs: &Vec<RecordRow>) -> (s: SealSheet)
    requires
        positive_quantities(record_row_views_of(rs@)),
    ensures
        s@ == seal_sheet_spec(c@, record_row_views_of(rs@)),
{
    let ghost rv = record_row_views_of(rs@);
    let mut lines: Vec<SealLines> = Vec::new();
    let mut sum: u128 = 0;
    let mut i: usize = 0;
    let n = rs.len();
    assert(rv.take(0) =~= Seq::<RecordRowModel>::empty());
    while i < n
        invariant
            i <= n == rs@.len() == rv.len(),
            rv == record_row_views_of(rs@),
            positive_quantities(rv),
            sum == sealed_sum(rv.take(i as int)),
            0 <= sum <= i * 9223372036854775807,
            seal_lines_views(lines@) == seal_lines_spec(rv, i as int),
        decreases n - i,
    {
        let r = &rs[i];
        assert(rv[i as int] == r@);
        assert(rv.take(i + 1).drop_last() =~= rv.take(i as int));
        assert(rv.take(i + 1).last() == rv[i as int]);
        assert(r.quantity > 0);
        if !is_grade_exec(r, 'D') {
            let ghost prev = lines@;
            lines.push(
                SealLines {
                    first_row: sum + 3,
                    first_no: sum + 1,
                    count: r.quantity as u128,
                    barcode: r.barcode.clone(),
                    grade: r.grade.clone(),
                    reason: r.exception_reason.clone(),
                },
            );
            assert(seal_lines_views(lines@) =~= seal_lines_views(prev).push(lines@[prev.len() as int]@));
            sum = sum + r.quantity as u128;
        }
        i = i + 1;
    }
    assert(rv.take(n as int) =~= rv);
    let packed = match c.reference_qty {
        Some(q) => q,
        None => c.inspected_qty,
    };
    let mut note = String::from_str("原箱共");
    let a = format_i64(packed);
    push_str(&mut note, a.as_str());
    push_str(&mut note, "件，取出");
    let b = format_i64(c.grade_d);
    push_str(&mut note, b.as_str());
    push_str(&mut note, "件D");
    let hide_to: u128 = if sum + 4 > 34 {
        sum + 4
    } else {
        34
    };
    SealSheet { carton_no: c.carton_no.clone(), lines, total: sum, total_row: sum + 3, note, hide_to }
}

/// The last row the seal template's body is cleared to.
pub fn seal_cleared_to(highest_row: u32) -> (r: u32)
    ensures
        r == if highest_row > 34 { highest_row } else { 34 },
{
    if highest_row > 34 {
        highest_row
    } else {
        34
    }
}

/// The last row a report sheet's body is cleared to: its highest row, row 2
/// at least.
pub fn report_cleared_to(highest_row: u32) -> (r: u32)
    ensures
        r == if highest_row > 2 { highest_row } else { 2 },
{
    if highest_row > 2 {
        highest_row
    } else {
        2
    }
}

/// The names of the sheets added to a seal template of `template_count`
/// sheets for `carton_count` cartons: copies of its first sheet, named
/// `__AUTO_<k>` for each position `k` (from 1) beyond the template's.
pub open spec fn auto_sheet_names_spec(template_count: nat, carton_count: nat) -> Seq<Seq<char>> {
    if carton_count <= template_count {
        seq![]
    } else {
        Seq::new((carton_count - template_count) as nat, |i: int| "__AUTO_"@ + nat_digits((template_count + i + 1) as nat))
    }
}

pub fn auto_sheet_names(template_count: usize, carton_count: usize) -> (r: Vec<String>)
    ensures
        crate::schema::string_views(r@) == auto_sheet_names_spec(template_count as nat, carton_count as nat),
{
    let mut r: Vec<String> = Vec::new();
    if carton_count <= template_count {
        assert(crate::schema::string_views(r@) =~= seq![]);
        return r;
    }
    let ghost want = auto_sheet_names_spec(template_count as nat, carton_count as nat);
    let mut i: usize = template_count;
    while i < carton_count
        invariant
            template_count <= i <= carton_count,
            want == auto_sheet_names_spec(template_count as nat, carton_count as nat),
            crate::schema::string_views(r@) == want.take(i - template_count),
        decreases carton_count - i,
    {
        let mut name = String::from_str("__AUTO_");
        let k = format_u128((i as u128) + 1);
        push_str(&mut name, k.as_str());
        let ghost prev = r@;
        let ghost nv = name@;
        assert(nv == want[i - template_count]);
        r.push(name);
        assert(crate::schema::string_views(r@) =~= crate::schema::string_views(prev).push(nv));
        assert(want.take(i + 1 - template_count) =~= want.take(i - template_count).push(nv));
        i = i + 1;
    }
    assert(want.take(carton_count - template_count) =~= want);
    r
}

// ---------------------------------------------------------------- seal workbook sheets

/// One step of turning the sheets of the seal template into the sheets of
/// the cartons, each sheet addressed by its position.
pub enum SheetStep {
    /// Appends a copy of the first sheet under this name.
    AddCopy(String),
    /// Renames the sheet at `sheet` to the carton number of seal sheet
    /// `seal` and fills it with that seal sheet.
    Fill { sheet: usize, seal: usize },
    /// Removes the sheet at this position.
    Remove(usize),
}

pub enum SheetStepModel {
    AddCopy(Seq<char>),
    Fill { sheet: int, seal: int },
    Remove(int),
}

impl View for SheetStep {
    type V = SheetStepModel;

    open spec fn view(&self) -> SheetStepModel {
        match self {
            SheetStep::AddCopy(name) => SheetStepModel::AddCopy(name@),
            SheetStep::Fill { sheet, seal } => SheetStepModel::Fill { sheet: *sheet as int, seal: *seal as int },
            SheetStep::Remove(i) => SheetStepModel::Remove(*i as int),
        }
    }
}

pub open spec fn sheet_step_views(s: Seq<SheetStep>) -> Seq<SheetStepModel> {
    s.map_values(|x: SheetStep| x@)
}

/// A sheet of the workbook: its name, and the seal sheet it was filled with
/// (none for a sheet as the template has it).
pub struct WorkSheetModel {
    pub name: Seq<char>,
    pub seal: Option<int>,
}

/// The sheets of a template, none of them filled.
pub open spec fn template_sheets(names: Seq<Seq<char>>) -> Seq<WorkSheetModel> {
    names.map_values(|n: Seq<char>| WorkSheetModel { name: n, seal: None })
}

/// One step applied to the sheets, `cartons` being the carton numbers of
/// the seal sheets; none where it names no sheet (or no seal sheet), or
/// there is no first sheet to copy.
pub open spec fn apply_sheet_step(sheets: Seq<WorkSheetModel>, step: SheetStepModel, cartons: Seq<Seq<char>>) -> Option<
    Seq<WorkSheetModel>,
> {
    match step {
        SheetStepModel::AddCopy(name) => if sheets.len() == 0 {
            None
        } else {
            Some(sheets.push(WorkSheetModel { name, seal: None }))
        },
        SheetStepModel::Fill { sheet, seal } => if 0 <= sheet < sheets.len() && 0 <= seal < cartons.len() {
            Some(sheets.update(sheet, WorkSheetModel { name: cartons[seal], seal: Some(seal) }))
        } else {
            None
        },
        SheetStepModel::Remove(i) => if 0 <= i < sheets.len() {
            Some(sheets.remove(i))
        } else {
            None
        },
    }
}

/// The steps applied in order.
pub open spec fn apply_sheet_steps(sheets: Seq<WorkSheetModel>, steps: Seq<SheetStepModel>, cartons: Seq<Seq<char>>) -> Option<
    Seq<WorkSheetModel>,
>
    decreases steps.len(),
{
    if steps.len() == 0 {
        Some(sheets)
    } else {
        match apply_sheet_steps(sheets, steps.drop_last(), cartons) {
            None => None,
            Some(s) => apply_sheet_step(s, steps.last(), cartons),
        }
    }
}

/// The steps for a template of `t` sheets and `n` cartons: the missing
/// sheets added as copies of the first, sheet `k` filled with seal sheet
/// `k`, then the sheets left over removed from the last.
pub open spec fn seal_steps_spec(t: nat, n: nat) -> Seq<SheetStepModel> {
    let total: int = if n > t { n as int } else { t as int };
    auto_sheet_names_spec(t, n).map_values(|name: Seq<char>| SheetStepModel::AddCopy(name))
        + Seq::new(n, |k: int| SheetStepModel::Fill { sheet: k, seal: k })
        + Seq::new((total - n) as nat, |i: int| SheetStepModel::Remove(total - 1 - i))
}

/// The steps that turn a seal template of `template_count` sheets into one
/// sheet per seal sheet, for `seal_count` of them; none where sheets are
/// missing and the template has none to copy.
pub fn seal_sheet_steps(template_count: usize, seal_count: usize) -> (r: Option<Vec<SheetStep>>)
    ensures
        r is None <==> template_count == 0 && seal_count > 0,
        r matches Some(v) ==> sheet_step_views(v@) == seal_steps_spec(template_count as nat, seal_count as nat),
{
    if template_count == 0 && seal_count > 0 {
        return None;
    }
    let ghost want = seal_steps_spec(template_count as nat, seal_count as nat);
    let names = auto_sheet_names(template_count, seal_count);
    let ghost adds = auto_sheet_names_spec(template_count as nat, seal_count as nat).map_values(
        |name: Seq<char>| SheetStepModel::AddCopy(name),
    );
    let mut v: Vec<SheetStep> = Vec::new();
    let mut i: usize = 0;
    while i < names.len()
        invariant
            i <= names@.len(),
            crate::schema::string_views(names@) == auto_sheet_names_spec(template_count as nat, seal_count as nat),
            adds == auto_sheet_names_spec(template_count as nat, seal_count as nat).map_values(
                |name: Seq<char>| SheetStepModel::AddCopy(name),
            ),
            sheet_step_views(v@) == adds.take(i as int),
        decreases names@.len() - i,
    {
        let ghost prev = v@;
        assert(crate::schema::string_views(names@)[i as int] == names@[i as int]@);
        v.push(SheetStep::AddCopy(names[i].clone()));
        assert(sheet_step_views(v@) =~= sheet_step_views(prev).push(v@[i as int]@));
        assert(adds.take(i + 1) =~= adds.take(i as int).push(adds[i as int]));
        i = i + 1;
    }
    assert(adds.take(names@.len() as int) =~= adds);
    let ghost fills = Seq::new(seal_count as nat, |k: int| SheetStepModel::Fill { sheet: k, seal: k });
    let mut k: usize = 0;
    while k < seal_count
        invariant
            k <= seal_count,
            sheet_step_views(v@) == adds + fills.take(k as int),
            fills == Seq::new(seal_count as nat, |k: int| SheetStepModel::Fill { sheet: k, seal: k }),
        decreases seal_count - k,
    {
        let ghost prev = v@;
        v.push(SheetStep::Fill { sheet: k, seal: k });
        assert(sheet_step_views(v@) =~= sheet_step_views(prev).push(v@[prev.len() as int]@));
        assert(fills.take(k + 1) =~= fills.take(k as int).push(fills[k as int]));
        assert(adds + fills.take(k + 1) =~= (adds + fills.take(k as int)).push(fills[k as int]));
        k = k + 1;
    }
    assert(fills.take(seal_count as int) =~= fills);
    let total: usize = if seal_count > template_count { seal_count } else { template_count };
    let ghost removes = Seq::new((total - seal_count) as nat, |i: int| SheetStepModel::Remove(total - 1 - i));
    let mut j: usize = total;
    while j > seal_count
        invariant
            seal_count <= j <= total,
            sheet_step_views(v@) == adds + fills + removes.take(total - j),
            removes == Seq::new((total - seal_count) as nat, |i: int| SheetStepModel::Remove(total - 1 - i)),
        decreases j,
    {
        let ghost prev = v@;
        v.push(SheetStep::Remove(j - 1));
        assert(sheet_step_views(v@) =~= sheet_step_views(prev).push(v@[prev.len() as int]@));
        assert(removes.take(total - j + 1) =~= removes.take(total - j).push(removes[total - j]));
        assert(adds + fills + removes.take(total - j + 1) =~= (adds + fills + removes.take(total - j)).push(
            removes[total - j],
        ));
        j = j - 1;
    }
    assert(removes.take(total - seal_count) =~= removes);
    Some(v)
}

// ---------------------------------------------------------------- grade sheets

/// `count` lines from row `first_row` for one record on a grade sheet.
pub struct GradeLines {
    pub first_row: u128,
    pub count: u128,
    pub carton_no: String,
    pub barcode: String,
    pub grade: String,
    pub reason: String,
}

pub struct GradeLinesModel {
    pub first_row: int,
    pub count: int,
    pub carton_no: Seq<char>,
    pub barcode: Seq<char>,
    pub grade: Seq<char>,
    pub reason: Seq<char>,
}

impl View for GradeLines {
    type V = GradeLinesModel;

    open spec fn view(&self) -> GradeLinesModel {
        GradeLinesModel {
            first_row: self.first_row as int,
            count: self.count as int,
            carton_no: self.carton_no@,
            barcode: self.barcode@,
            grade: self.grade@,
            reason: self.reason@,
        }
    }
}

pub open spec fn grade_lines_views(s: Seq<GradeLines>) -> Seq<GradeLinesModel> {
    s.map_values(|l: GradeLines| l@)
}

/// A grade sheet of the report: its name, its grade and its lines.
pub struct GradeSheet {
    pub name: String,
    pub grade: char,
    pub lines: Vec<GradeLines>,
}

pub struct GradeSheetModel {
    pub name: Seq<char>,
    pub grade: char,
    pub lines: Seq<GradeLinesModel>,
}

impl View for GradeSheet {
    type V = GradeSheetModel;

    open spec fn view(&self) -> GradeSheetModel {
        GradeSheetModel { name: self.name@, grade: self.grade, lines: grade_lines_views(self.lines@) }
    }
}

pub open spec fn grade_sheet_views(s: Seq<GradeSheet>) -> Seq<GradeSheetModel> {
    s.map_values(|g: GradeSheet| g@)
}

/// The lines of the first `n` records graded `g`, one per piece from row 2.
pub open spec fn grade_lines_spec(rs: Seq<RecordRowModel>, g: char, n: int) -> Seq<GradeLinesModel>
    decreases n,
{
    if n <= 0 {
        seq![]
    } else {
        let prev = grade_lines_spec(rs, g, n - 1);
        let r = rs[n - 1];
        if grade_is(r, g) {
            prev.push(
                GradeLinesModel {
                    first_row: graded_sum(rs.take(n - 1), g) + 2,
                    count: r.quantity as int,
                    carton_no: r.carton_no,
                    barcode: r.barcode,
                    grade: r.grade,
                    reason: r.exception_reason,
                },
            )
        } else {
            prev
        }
    }
}

/// The four grade sheets of the report, in order A, B, C, D.
pub open spec fn grade_sheets_spec(rs: Seq<RecordRowModel>) -> Seq<GradeSheetModel> {
    seq![
        GradeSheetModel { name: "A 良品"@, grade: 'A', lines: grade_lines_spec(rs, 'A', rs.len() as int) },
        GradeSheetModel { name: "B 可增值"@, grade: 'B', lines: grade_lines_spec(rs, 'B', rs.len() as int) },
        GradeSheetModel { name: "C 可修復"@, grade: 'C', lines: grade_lines_spec(rs, 'C', rs.len() as int) },
        GradeSheetModel { name: "D 不可修復"@, grade: 'D', lines: grade_lines_spec(rs, 'D', rs.len() as int) },
    ]
}

fn grade_sheet(rs: &Vec<RecordRow>, name: &str, g: char) -> (s: GradeSheet)
    requires
        positive_quantities(record_row_views_of(rs@)),
    ensures
        s@ == (GradeSheetModel { name: name@, grade: g, lines: grade_lines_spec(record_row_views_of(rs@), g, rs@.len() as int) }),
{
    let ghost rv = record_row_views_of(rs@);
    let mut lines: Vec<GradeLines> = Vec::new();
    let mut sum: u128 = 0;
    let mut i: usize = 0;
    let n = rs.len();
    assert(rv.take(0) =~= Seq::<RecordRowModel>::empty());
    while i < n
        invariant
            i <= n == rs@.len() == rv.len(),
            rv == record_row_views_of(rs@),
            positive_quantities(rv),
            sum == graded_sum(rv.take(i as int), g),
            0 <= sum <= i * 9223372036854775807,
            grade_lines_views(lines@) == grade_lines_spec(rv, g, i as int),
        decreases n - i,
    {
        let r = &rs[i];
        assert(rv[i as int] == r@);
        assert(rv.take(i + 1).drop_last() =~= rv.take(i as int));
        assert(rv.take(i + 1).last() == rv[i as int]);
        assert(r.quantity > 0);
        if is_grade_exec(r, g) {
            let ghost prev = lines@;
            lines.push(
                GradeLines {
                    first_row: sum + 2,
                    count: r.quantity as u128,
                    carton_no: r.carton_no.clone(),
                    barcode: r.barcode.clone(),
                    grade: r.grade.clone(),
                    reason: r.exception_reason.clone(),
                },
            );
            assert(grade_lines_views(lines@) =~= grade_lines_views(prev).push(lines@[prev.len() as int]@));
            sum = sum + r.quantity as u128;
        }
        i = i + 1;
    }
    GradeSheet { name: String::from_str(name), grade: g, lines }
}

/// The grade sheets of the report for the records `rs` of a batch in order.
pub fn grade_sheets(rs: &Vec<RecordRow>) -> (v: Vec<GradeSheet>)
    requires
        positive_quantities(record_row_views_of(rs@)),
    ensures
        grade_sheet_views(v@) == grade_sheets_spec(record_row_views_of(rs@)),
{
    let mut v: Vec<GradeSheet> = Vec::new();
    v.push(grade_sheet(rs, "A 良品", 'A'));
    v.push(grade_sheet(rs, "B 可增值", 'B'));
    v.push(grade_sheet(rs, "C 可修復", 'C'));
    v.push(grade_sheet(rs, "D 不可修復", 'D'));
    assert(grade_sheet_views(v@) =~= grade_sheets_spec(record_row_views_of(rs@)));
    v
}

// ---------------------------------------------------------------- the defect sheet

/// An image placed over one cell of a line: from `column` to `next_column`
/// one row down.
pub struct PhotoImage {
    pub column: char,
    pub next_column: char,
    pub path: String,
}

pub struct PhotoImageModel {
    pub column: char,
    pub next_column: char,
    pub path: Seq<char>,
}

impl View for PhotoImage {
    type V = PhotoImageModel;

    open spec fn view(&self) -> PhotoImageModel {
        PhotoImageModel { column: self.column, next_column: self.next_column, path: self.path@ }
    }
}

pub open spec fn image_views(s: Seq<PhotoImage>) -> Seq<PhotoImageModel> {
    s.map_values(|p: PhotoImage| p@)
}

/// The column of image number `order`: G, H, then I for any other number.
pub open spec fn image_column(order: i64) -> char {
    if order == 1 {
        'G'
    } else if order == 2 {
        'H'
    } else {
        'I'
    }
}

/// The column after that of image number `order`, where its anchor ends.
pub open spec fn image_next_column(order: i64) -> char {
    if order == 1 {
        'H'
    } else if order == 2 {
        'I'
    } else {
        'J'
    }
}

pub open spec fn image_of(p: PhotoRowModel) -> PhotoImageModel {
    PhotoImageModel {
        column: image_column(p.photo_order),
        next_column: image_next_column(p.photo_order),
        path: p.file_path,
    }
}

/// `count` lines from row `first_row` for one record on the defect sheet.
pub struct DefectLines {
    pub first_row: u128,
    pub count: u128,
    pub reason: String,
    pub grade: String,
    pub quantity: i64,
    pub carton_no: String,
    pub barcode: String,
    pub seal_no: String,
    pub record_id: i64,
    pub images: Vec<PhotoImage>,
}

pub struct DefectLinesModel {
    pub first_row: int,
    pub count: int,
    pub reason: Seq<char>,
    pub grade: Seq<char>,
    pub quantity: i64,
    pub carton_no: Seq<char>,
    pub barcode: Seq<char>,
    pub seal_no: Seq<char>,
    pub record_id: i64,
    pub images: Seq<PhotoImageModel>,
}

impl View for DefectLines {
    type V = DefectLinesModel;

    open spec fn view(&self) -> DefectLinesModel {
        DefectLinesModel {
            first_row: self.first_row as int,
            count: self.count as int,
            reason: self.reason@,
            grade: self.grade@,
            quantity: self.quantity,
            carton_no: self.carton_no@,
            barcode: self.barcode@,
            seal_no: self.seal_no@,
            record_id: self.record_id,
            images: image_views(self.images@),
        }
    }
}

pub open spec fn defect_lines_views(s: Seq<DefectLines>) -> Seq<DefectLinesModel> {
    s.map_values(|l: DefectLines| l@)
}

/// The pieces of the records of `rs` that come before record `r` in its
/// carton (by id) and are not graded D.
pub open spec fn pieces_before(rs: Seq<RecordRowModel>, r: RecordRowModel) -> int
    decreases rs.len(),
{
    if rs.len() == 0 {
        0
    } else {
        let x = rs.last();
        pieces_before(rs.drop_last(), r) + if x.carton_id == r.carton_id && !grade_is(x, 'D') && x.id < r.id {
            x.quantity as int
        } else {
            0
        }
    }
}

/// The seal number of a record: its place among the sealed pieces of its
/// carton where it is a single piece not graded D, else `N/A`.
pub open spec fn seal_no_spec(rs: Seq<RecordRowModel>, r: RecordRowModel) -> Seq<char> {
    if r.quantity > 1 || grade_is(r, 'D') {
        "N/A"@
    } else {
        int_decimal(pieces_before(rs, r) + 1)
    }
}

/// The defect lines of the first `n` records of `rs` (those not graded A),
/// `photos[k]` being the images of record `k` in order.
pub open spec fn defect_lines_spec(rs: Seq<RecordRowModel>, photos: Seq<Seq<PhotoRowModel>>, n: int) -> Seq<
    DefectLinesModel,
>
    decreases n,
{
    if n <= 0 {
        seq![]
    } else {
        let prev = defect_lines_spec(rs, photos, n - 1);
        let r = rs[n - 1];
        if grade_is(r, 'A') {
            prev
        } else {
            prev.push(
                DefectLinesModel {
                    first_row: defect_sum(rs.take(n - 1)) + 2,
                    count: defect_copies(r),
                    reason: r.exception_reason,
                    grade: r.grade,
                    quantity: if grade_is(r, 'B') {
                        r.quantity
                    } else {
                        1
                    },
                    carton_no: r.carton_no,
                    barcode: r.barcode,
                    seal_no: seal_no_spec(rs, r),
                    record_id: r.id,
                    images: photos[n - 1].map_values(|p: PhotoRowModel| image_of(p)),
                },
            )
        }
    }
}

pub open spec fn photo_lists_views(s: Seq<Vec<PhotoRow>>) -> Seq<Seq<PhotoRowModel>> {
    s.map_values(|v: Vec<PhotoRow>| v@.map_values(|p: PhotoRow| p@))
}

fn pieces_before_exec(rs: &Vec<RecordRow>, r: &RecordRow) -> (s: u128)
    requires
        positive_quantities(record_row_views_of(rs@)),
    ensures
        s == pieces_before(record_row_views_of(rs@), r@),
{
    let ghost rv = record_row_views_of(rs@);
    let mut s: u128 = 0;
    let mut i: usize = 0;
    assert(rv.take(0) =~= Seq::<RecordRowModel>::empty());
    while i < rs.len()
        invariant
            i <= rs@.len() == rv.len(),
            rv == record_row_views_of(rs@),
            positive_quantities(rv),
            s == pieces_before(rv.take(i as int), r@),
            0 <= s <= i * 9223372036854775807,
        decreases rs@.len() - i,
    {
        let x = &rs[i];
        assert(rv[i as int] == x@);
        assert(rv.take(i + 1).drop_last() =~= rv.take(i as int));
        assert(rv.take(i + 1).last() == rv[i as int]);
        assert(x.quantity > 0);
        if x.carton_id == r.carton_id && !is_grade_exec(x, 'D') && x.id < r.id {
            s = s + x.quantity as u128;
        }
        i = i + 1;
    }
    assert(rv.take(rs@.len() as int) =~= rv);
    s
}

fn images_exec(ps: &Vec<PhotoRow>) -> (v: Vec<PhotoImage>)
    ensures
        image_views(v@) == ps@.map_values(|p: PhotoRow| p@).map_values(|p: PhotoRowModel| image_of(p)),
{
    let ghost want = ps@.map_values(|p: PhotoRow| p@).map_values(|p: PhotoRowModel| image_of(p));
    let mut v: Vec<PhotoImage> = Vec::new();
    let mut i: usize = 0;
    while i < ps.len()
        invariant
            i <= ps@.len(),
            want == ps@.map_values(|p: PhotoRow| p@).map_values(|p: PhotoRowModel| image_of(p)),
            image_views(v@) == want.take(i as int),
        decreases ps@.len() - i,
    {
        let p = &ps[i];
        let (c, d) = if p.photo_order == 1 {
            ('G', 'H')
        } else if p.photo_order == 2 {
            ('H', 'I')
        } else {
            ('I', 'J')
        };
        let ghost prev = v@;
        assert(image_views(prev).len() == prev.len());
        assert(prev.len() == i);
        v.push(PhotoImage { column: c, next_column: d, path: p.file_path.clone() });
        assert(want[i as int] == image_of(ps@[i as int]@));
        assert(v@[i as int]@ == want[i as int]);
        assert(image_views(v@) =~= image_views(prev).push(want[i as int]));
        assert(image_views(v@) =~= want.take(i + 1));
        i = i + 1;
    }
    assert(want.take(ps@.len() as int) =~= want);
    v
}

/// The lines of the defect sheet for the records `rs` of a batch in order,
/// `photos[k]` being the images of record `k`.
pub fn defect_lines(rs: &Vec<RecordRow>, photos: &Vec<Vec<PhotoRow>>) -> (v: Vec<DefectLines>)
    requires
        positive_quantities(record_row_views_of(rs@)),
        photos@.len() == rs@.len(),
    ensures
        defect_lines_views(v@) == defect_lines_spec(record_row_views_of(rs@), photo_lists_views(photos@), rs@.len() as int),
{
    let ghost rv = record_row_views_of(rs@);
    let ghost pv = photo_lists_views(photos@);
    let mut v: Vec<DefectLines> = Vec::new();
    let mut sum: u128 = 0;
    let mut i: usize = 0;
    let n = rs.len();
    assert(rv.take(0) =~= Seq::<RecordRowModel>::empty());
    while i < n
        invariant
            i <= n == rs@.len() == rv.len() == photos@.len(),
            rv == record_row_views_of(rs@),
            pv == photo_lists_views(photos@),
            positive_quantities(rv),
            sum == defect_sum(rv.take(i as int)),
            0 <= sum <= i * 9223372036854775807,
            defect_lines_views(v@) == defect_lines_spec(rv, pv, i as int),
        decreases n - i,
    {
        let r = &rs[i];
        assert(rv[i as int] == r@);
        assert(rv.take(i + 1).drop_last() =~= rv.take(i as int));
        assert(rv.take(i + 1).last() == rv[i as int]);
        assert(r.quantity > 0);
        if !is_grade_exec(r, 'A') {
            let is_b = is_grade_exec(r, 'B');
            let count: u128 = if is_b {
                1
            } else {
                r.quantity as u128
            };
            let seal_no = if r.quantity > 1 || is_grade_exec(r, 'D') {
                String::from_str("N/A")
            } else {
                let before = pieces_before_exec(rs, r);
                proof {
                    lemma_pieces_before_bound(rv, r@);
                }
                format_u128(before + 1)
            };
            let images = images_exec(&photos[i]);
            assert(pv[i as int] == photos@[i as int]@.map_values(|p: PhotoRow| p@));
            let ghost prev = v@;
            v.push(
                DefectLines {
                    first_row: sum + 2,
                    count,
                    reason: r.exception_reason.clone(),
                    grade: r.grade.clone(),
                    quantity: if is_b {
                        r.quantity
                    } else {
                        1
                    },
                    carton_no: r.carton_no.clone(),
                    barcode: r.barcode.clone(),
                    seal_no,
                    record_id: r.id,
                    images,
                },
            );
            assert(defect_lines_views(v@) =~= defect_lines_views(prev).push(v@[prev.len() as int]@));
            sum = sum + count;
        }
        i = i + 1;
    }
    v
}

proof fn lemma_pieces_before_bound(rs: Seq<RecordRowModel>, r: RecordRowModel)
    requires
        positive_quantities(rs),
    ensures
        0 <= pieces_before(rs, r) <= rs.len() * 9223372036854775807,
    decreases rs.len(),
{
    if rs.len() > 0 {
        assert(positive_quantities(rs.drop_last()));
        lemma_pieces_before_bound(rs.drop_last(), r);
        assert(rs.last().quantity > 0);
    }
}

// ---------------------------------------------------------------- the whole export

/// The fixed layout of the export workbooks: the report's sheet that is
/// dropped and its defect sheet, the image columns of the defect sheet and
/// their width, the height of its rows, and the heights of the seal sheets'
/// body rows and total row with the total's label.
pub struct ExportLayout {
    pub dropped_report_sheet: String,
    pub defect_sheet: String,
    pub image_columns: Vec<char>,
    pub image_column_width: u32,
    pub defect_row_height: u32,
    pub seal_row_height: u32,
    pub seal_total_row_height: u32,
    pub seal_total_label: String,
}

pub struct ExportLayoutModel {
    pub dropped_report_sheet: Seq<char>,
    pub defect_sheet: Seq<char>,
    pub image_columns: Seq<char>,
    pub image_column_width: u32,
    pub defect_row_height: u32,
    pub seal_row_height: u32,
    pub seal_total_row_height: u32,
    pub seal_total_label: Seq<char>,
}

impl View for ExportLayout {
    type V = ExportLayoutModel;

    open spec fn view(&self) -> ExportLayoutModel {
        ExportLayoutModel {
            dropped_report_sheet: self.dropped_report_sheet@,
            defect_sheet: self.defect_sheet@,
            image_columns: self.image_columns@,
            image_column_width: self.image_column_width,
            defect_row_height: self.defect_row_height,
            seal_row_height: self.seal_row_height,
            seal_total_row_height: self.seal_total_row_height,
            seal_total_label: self.seal_total_label@,
        }
    }
}

/// Image columns G, H and I 50 wide, defect rows 60 high, seal body rows 24
/// and the seal total row 63 high.
pub open spec fn export_layout_spec() -> ExportLayoutModel {
    ExportLayoutModel {
        dropped_report_sheet: "质检报告"@,
        defect_sheet: "瑕疵照片 Sample"@,
        image_columns: seq!['G', 'H', 'I'],
        image_column_width: 50,
        defect_row_height: 60,
        seal_row_height: 24,
        seal_total_row_height: 63,
        seal_total_label: "小计Total"@,
    }
}

pub fn export_layout() -> (l: ExportLayout)
    ensures
        l@ == export_layout_spec(),
{
    let image_columns = vec!['G', 'H', 'I'];
    assert(image_columns@ =~= seq!['G', 'H', 'I']);
    ExportLayout {
        dropped_report_sheet: String::from_str("质检报告"),
        defect_sheet: String::from_str("瑕疵照片 Sample"),
        image_columns,
        image_column_width: 50,
        defect_row_height: 60,
        seal_row_height: 24,
        seal_total_row_height: 63,
        seal_total_label: String::from_str("小计Total"),
    }
}

/// What exporting a batch writes: the names of the two workbooks, a seal
/// sheet per carton in listing order, the grade sheets, the defect lines and
/// the fixed layout.
pub struct ExportPlan {
    pub seal_file: String,
    pub report_file: String,
    pub seals: Vec<SealSheet>,
    pub grades: Vec<GradeSheet>,
    pub defects: Vec<DefectLines>,
    pub layout: ExportLayout,
}

pub open spec fn seal_sheet_views(s: Seq<SealSheet>) -> Seq<SealSheetModel> {
    s.map_values(|x: SealSheet| x@)
}

} // verus!
