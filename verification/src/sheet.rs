//! Reading carton product lists from the cells of a worksheet: the header row
//! and the columns it names, the numbers in the cells, and the rows below it,
//! a carton number carrying down to the rows that leave it blank.

use vstd::prelude::*;
use crate::error::{ErrorModel, QaError};
use crate::carton_import::import_views;
use crate::models::{CartonProductImport, ProductImportModel};
use crate::schema::lemma_filter_take_step;
use crate::photos::{ascii_lower_seq, lower_extension, raw_extension};
use crate::text::{chars_of, is_whitespace, is_ws, parse_i64, parse_i64_spec, string_of, trim, trim_end_spec, trim_spec, trim_start_spec};

verus! {

/// What reading a text as an `f64` gave: not a number, a number with a
/// fractional part (infinities and NaN among them), or a whole number and the
/// `i64` it converts to.
#[derive(Clone, Copy, Debug, PartialEq, Eq, Structural)]
pub enum FloatReading {
    Invalid,
    Fraction,
    Whole(i64),
}

/// A cell of a worksheet: its formatted text, and the `f64` reading of that
/// text once trimmed and rid of its commas.
pub struct SheetCell {
    pub text: String,
    pub reading: FloatReading,
}

pub struct CellModel {
    pub text: Seq<char>,
    pub reading: FloatReading,
}

impl View for SheetCell {
    type V = CellModel;

    open spec fn view(&self) -> CellModel {
        CellModel { text: self.text@, reading: self.reading }
    }
}

pub open spec fn row_views(row: Seq<SheetCell>) -> Seq<CellModel> {
    row.map_values(|c: SheetCell| c@)
}

pub open spec fn grid_views(grid: Seq<Vec<SheetCell>>) -> Seq<Seq<CellModel>> {
    grid.map_values(|r: Vec<SheetCell>| row_views(r@))
}

// ---------------------------------------------------------------- headers

/// `s` without its leading byte-order marks.
pub open spec fn strip_bom(s: Seq<char>) -> Seq<char>
    decreases s.len(),
{
    if s.len() > 0 && s[0] == '\u{feff}' {
        strip_bom(s.drop_first())
    } else {
        s
    }
}

/// Reading `s` from the left: the words seen so far joined by single
/// spaces, and whether whitespace has followed the last word.
pub open spec fn collapse_state(s: Seq<char>) -> (Seq<char>, bool)
    decreases s.len(),
{
    if s.len() == 0 {
        (seq![], false)
    } else {
        let (out, gap) = collapse_state(s.drop_last());
        let c = s.last();
        if is_ws(c) {
            (out, out.len() > 0)
        } else if gap {
            (out.push(' ').push(c), false)
        } else {
            (out.push(c), false)
        }
    }
}

/// The words of `s` (its runs of non-whitespace) joined by single spaces.
pub open spec fn collapse_ws(s: Seq<char>) -> Seq<char> {
    collapse_state(s).0
}

/// `str::to_uppercase`: each character by its Unicode upper-case mapping.
pub uninterp spec fn upper_text(s: Seq<char>) -> Seq<char>;

/// Whether every character of `s` is ASCII.
pub open spec fn is_ascii_text(s: Seq<char>) -> bool {
    forall|i: int| 0 <= i < s.len() ==> (s[i] as u32) < 128
}

/// `char::to_ascii_uppercase`: `a` to `z` become `A` to `Z`.
pub open spec fn ascii_upper(c: char) -> char {
    if 'a' <= c && c <= 'z' {
        ((c as u32) - 32) as char
    } else {
        c
    }
}

pub open spec fn ascii_upper_seq(s: Seq<char>) -> Seq<char> {
    s.map_values(|c: char| ascii_upper(c))
}

/// Calls `str::to_uppercase`. Claimed: the result is `upper_text` of the
/// input, a function of the input alone; on ASCII text, Unicode's mapping
/// turns `a` to `z` into `A` to `Z` and leaves every other character as it
/// is.
#[verifier::external_body]
fn to_upper(s: &str) -> (r: String)
    ensures
        r@ == upper_text(s@),
        is_ascii_text(s@) ==> r@ == ascii_upper_seq(s@),
{
    s.to_uppercase()
}

/// A header cell's text compared by: trimmed, rid of leading byte-order
/// marks, its words joined by single spaces, in upper case.
pub open spec fn header_key(s: Seq<char>) -> Seq<char> {
    upper_text(collapse_ws(strip_bom(trim_spec(s))))
}

/// The text a header cell is compared by.
pub fn normalize_header(value: &str) -> (r: String)
    ensures
        r@ == header_key(value@),
        is_ascii_text(value@) ==> r@ == ascii_upper_seq(collapse_ws(strip_bom(trim_spec(value@)))),
{
    let t = trim(value);
    proof {
        lemma_trim_keeps_ascii(value@);
    }
    let v = chars_of(t.as_str());
    let mut i: usize = 0;
    assert(v@.skip(0) =~= v@);
    while i < v.len() && v[i] == '\u{feff}'
        invariant
            i <= v@.len(),
            v@ == t@,
            strip_bom(t@) == strip_bom(v@.skip(i as int)),
        decreases v@.len() - i,
    {
        assert(v@.skip(i as int).drop_first() =~= v@.skip(i + 1));
        i = i + 1;
    }
    let ghost b = v@.skip(i as int);
    assert(strip_bom(b) == b);
    let mut out: Vec<char> = Vec::new();
    let mut gap = false;
    let mut k: usize = i;
    assert(b.take(0) =~= Seq::<char>::empty());
    while k < v.len()
        invariant
            i <= k <= v@.len(),
            b == v@.skip(i as int),
            (out@, gap) == collapse_state(b.take(k - i)),
            is_ascii_text(value@) ==> is_ascii_text(v@) && is_ascii_text(out@),
        decreases v@.len() - k,
    {
        let c = v[k];
        proof {
            assert(b.take(k - i + 1).drop_last() =~= b.take(k - i));
            assert(b.take(k - i + 1).last() == c);
        }
        if is_whitespace(c) {
            gap = out.len() > 0;
        } else {
            if gap {
                out.push(' ');
            }
            out.push(c);
            gap = false;
        }
        k = k + 1;
    }
    assert(b.take(v@.len() - i) =~= b);
    let collapsed = string_of(out.as_slice());
    to_upper(collapsed.as_str())
}

proof fn lemma_trim_start_keeps_ascii(s: Seq<char>)
    requires
        is_ascii_text(s),
    ensures
        is_ascii_text(trim_start_spec(s)),
    decreases s.len(),
{
    if s.len() > 0 && is_ws(s[0]) {
        assert forall|i: int| 0 <= i < s.drop_first().len() implies (s.drop_first()[i] as u32) < 128 by {
            assert(s.drop_first()[i] == s[i + 1]);
        }
        lemma_trim_start_keeps_ascii(s.drop_first());
    }
}

proof fn lemma_trim_end_keeps_ascii(s: Seq<char>)
    requires
        is_ascii_text(s),
    ensures
        is_ascii_text(trim_end_spec(s)),
    decreases s.len(),
{
    if s.len() > 0 && is_ws(s.last()) {
        assert forall|i: int| 0 <= i < s.drop_last().len() implies (s.drop_last()[i] as u32) < 128 by {
            assert(s.drop_last()[i] == s[i]);
        }
        lemma_trim_end_keeps_ascii(s.drop_last());
    }
}

proof fn lemma_trim_keeps_ascii(s: Seq<char>)
    ensures
        is_ascii_text(s) ==> is_ascii_text(trim_spec(s)),
{
    if is_ascii_text(s) {
        lemma_trim_start_keeps_ascii(s);
        lemma_trim_end_keeps_ascii(trim_start_spec(s));
    }
}

// ---------------------------------------------------------------- the file

/// A workbook path is accepted when its extension, in ASCII lower case, is
/// `xlsx`; `sep` is the platform's main path separator.
pub open spec fn is_xlsx_path(path: Seq<char>, sep: char) -> bool {
    ascii_lower_seq(raw_extension(path, sep)) == "xlsx"@
}

/// Refuses a path whose extension is not `xlsx`.
pub fn check_import_path(path: &str, sep: char) -> (r: Result<(), QaError>)
    ensures
        r is Ok <==> is_xlsx_path(path@, sep),
        r matches Err(e) ==> e@ == ErrorModel::NotXlsx,
{
    let e = lower_extension(path, sep);
    let x = String::from_str("xlsx");
    if e == x {
        Ok(())
    } else {
        Err(QaError::NotXlsx)
    }
}

/// The headers of the import template, in column order.
pub open spec fn template_headers_spec() -> Seq<Seq<char>> {
    seq![
        "BOX #"@,
        "UPC"@,
        "货号"@,
        "COLOR NAME"@,
        "COLOR#"@,
        "MERCHANDISE DESCRIPTION"@,
        "SIZE or DIMENSION"@,
        "# OF CRTN"@,
        "# OF UNITS PER CRTN"@,
        "TOTAL UNITS"@,
    ]
}

pub fn import_template_headers() -> (v: Vec<String>)
    ensures
        crate::schema::string_views(v@) == template_headers_spec(),
{
    let mut v: Vec<String> = Vec::new();
    v.push(String::from_str("BOX #"));
    v.push(String::from_str("UPC"));
    v.push(String::from_str("货号"));
    v.push(String::from_str("COLOR NAME"));
    v.push(String::from_str("COLOR#"));
    v.push(String::from_str("MERCHANDISE DESCRIPTION"));
    v.push(String::from_str("SIZE or DIMENSION"));
    v.push(String::from_str("# OF CRTN"));
    v.push(String::from_str("# OF UNITS PER CRTN"));
    v.push(String::from_str("TOTAL UNITS"));
    assert(crate::schema::string_views(v@) =~= template_headers_spec());
    v
}

// ---------------------------------------------------------------- numbers

pub open spec fn not_comma(c: char) -> bool {
    c != ','
}

/// The text of a number cell as it is read: trimmed, its commas removed.
pub open spec fn number_text(s: Seq<char>) -> Seq<char> {
    trim_spec(s).filter(|c: char| not_comma(c))
}

/// The text of a number cell as it is read.
pub fn clean_number_text(value: &str) -> (r: String)
    ensures
        r@ == number_text(value@),
{
    let t = trim(value);
    let v = chars_of(t.as_str());
    let ghost p = |c: char| not_comma(c);
    let mut out: Vec<char> = Vec::new();
    let mut i: usize = 0;
    assert(out@ =~= v@.take(0).filter(p));
    while i < v.len()
        invariant
            i <= v@.len(),
            v@ == trim_spec(value@),
            p == (|c: char| not_comma(c)),
            out@ == v@.take(i as int).filter(p),
        decreases v@.len() - i,
    {
        proof {
            lemma_filter_take_step(v@, i as int, p);
        }
        if v[i] != ',' {
            out.push(v[i]);
        }
        i = i + 1;
    }
    assert(v@.take(v@.len() as int) =~= v@);
    string_of(out.as_slice())
}

/// An optional integer cell: nothing where blank once trimmed and rid of
/// commas; else the integer that `i64::from_str` reads; else what reading
/// it as an `f64` gave: refused where not a number or not whole.
pub open spec fn parse_optional_integer_spec(value: Seq<char>, reading: FloatReading) -> Result<
    Option<i64>,
    ErrorModel,
> {
    let t = number_text(value);
    if t.len() == 0 {
        Ok(None)
    } else if let Some(n) = parse_i64_spec(t) {
        Ok(Some(n))
    } else {
        match reading {
            FloatReading::Invalid => Err(ErrorModel::InvalidNumber),
            FloatReading::Fraction => Err(ErrorModel::NotAnInteger),
            FloatReading::Whole(n) => Ok(Some(n)),
        }
    }
}

/// An optional integer cell read, `reading` being the `f64` reading of its
/// trimmed text without commas.
pub fn parse_optional_integer(value: &str, reading: FloatReading) -> (r: Result<Option<i64>, QaError>)
    ensures
        match r {
            Ok(x) => parse_optional_integer_spec(value@, reading) == Ok::<Option<i64>, ErrorModel>(x),
            Err(e) => parse_optional_integer_spec(value@, reading) == Err::<Option<i64>, ErrorModel>(e@),
        },
{
    let t = clean_number_text(value);
    let v = chars_of(t.as_str());
    if v.len() == 0 {
        return Ok(None);
    }
    match parse_i64(v.as_slice()) {
        Some(n) => Ok(Some(n)),
        None => match reading {
            FloatReading::Invalid => Err(QaError::InvalidNumber),
            FloatReading::Fraction => Err(QaError::NotAnInteger),
            FloatReading::Whole(n) => Ok(Some(n)),
        },
    }
}

// ---------------------------------------------------------------- the sheet

pub open spec fn box_header() -> Seq<char> {
    "BOX #"@
}

pub open spec fn upc_header() -> Seq<char> {
    "UPC"@
}

pub open spec fn units_header() -> Seq<char> {
    "# OF UNITS PER CRTN"@
}

pub open spec fn item_header() -> Seq<char> {
    "货号"@
}

pub open spec fn color_name_header() -> Seq<char> {
    "COLOR NAME"@
}

pub open spec fn color_no_header() -> Seq<char> {
    "COLOR#"@
}

pub open spec fn description_header() -> Seq<char> {
    "MERCHANDISE DESCRIPTION"@
}

pub open spec fn size_header() -> Seq<char> {
    "SIZE OR DIMENSION"@
}

pub open spec fn carton_count_header() -> Seq<char> {
    "# OF CRTN"@
}

pub open spec fn total_units_header() -> Seq<char> {
    "TOTAL UNITS"@
}

/// The column of header row `row` named `name`: the last one whose key is
/// `name`.
pub open spec fn header_col(row: Seq<CellModel>, name: Seq<char>) -> Option<int>
    decreases row.len(),
{
    if row.len() == 0 {
        None
    } else if header_key(row.last().text) == name {
        Some(row.len() - 1)
    } else {
        header_col(row.drop_last(), name)
    }
}

/// A row that names the carton, UPC and units columns.
pub open spec fn is_header_row(row: Seq<CellModel>) -> bool {
    &&& header_col(row, box_header()) is Some
    &&& header_col(row, upc_header()) is Some
    &&& header_col(row, units_header()) is Some
}

/// The first header row at or after row `r` among the first thirty.
pub open spec fn find_header(grid: Seq<Seq<CellModel>>, r: int) -> Option<int>
    decreases 30 - r,
{
    if r < 0 || r >= grid.len() || r >= 30 {
        None
    } else if is_header_row(grid[r]) {
        Some(r)
    } else {
        find_header(grid, r + 1)
    }
}

/// The cell in row `r`, column `c`: an empty one outside the sheet.
pub open spec fn cell_at(grid: Seq<Seq<CellModel>>, r: int, c: int) -> CellModel {
    if 0 <= r < grid.len() && 0 <= c < grid[r].len() {
        grid[r][c]
    } else {
        CellModel { text: seq![], reading: FloatReading::Invalid }
    }
}

/// The trimmed text of row `r` in the column that `header` names `name`,
/// empty where there is no such column.
pub open spec fn value_at(grid: Seq<Seq<CellModel>>, header: Seq<CellModel>, r: int, name: Seq<char>) -> Seq<char> {
    match header_col(header, name) {
        Some(c) => trim_spec(cell_at(grid, r, c).text),
        None => seq![],
    }
}

pub open spec fn reading_at(grid: Seq<Seq<CellModel>>, header: Seq<CellModel>, r: int, name: Seq<char>) -> FloatReading {
    match header_col(header, name) {
        Some(c) => cell_at(grid, r, c).reading,
        None => FloatReading::Invalid,
    }
}

pub open spec fn number_at(grid: Seq<Seq<CellModel>>, header: Seq<CellModel>, r: int, name: Seq<char>) -> Result<
    Option<i64>,
    ErrorModel,
> {
    parse_optional_integer_spec(value_at(grid, header, r, name), reading_at(grid, header, r, name))
}

/// Row `r` (counted from 0) read after the rows before it gave `rows` and
/// the carton number `current`: skipped where it has neither UPC nor units;
/// refused where no carton number is known yet, the UPC is blank, the units
/// are not a positive integer, the UPC repeats in the carton or a count is
/// not an integer.
pub open spec fn sheet_row(
    grid: Seq<Seq<CellModel>>,
    header: Seq<CellModel>,
    r: int,
    rows: Seq<ProductImportModel>,
    current: Seq<char>,
) -> Result<(Seq<ProductImportModel>, Seq<char>), ErrorModel> {
    let row_no = (r + 1) as u64;
    let carton = value_at(grid, header, r, box_header());
    let cur = if carton.len() > 0 {
        carton
    } else {
        current
    };
    let upc = value_at(grid, header, r, upc_header());
    let units_raw = value_at(grid, header, r, units_header());
    if upc.len() == 0 && units_raw.len() == 0 {
        Ok((rows, cur))
    } else if cur.len() == 0 {
        Err(ErrorModel::RowWithoutCarton(row_no))
    } else if upc.len() == 0 {
        Err(ErrorModel::EmptyUpc(row_no))
    } else {
        match number_at(grid, header, r, units_header()) {
            Err(_) => Err(ErrorModel::InvalidUnits(row_no)),
            Ok(None) => Err(ErrorModel::UnitsNotPositive(row_no)),
            Ok(Some(q)) => if q <= 0 {
                Err(ErrorModel::UnitsNotPositive(row_no))
            } else if exists|k: int| 0 <= k < rows.len() && #[trigger] rows[k].carton_no == cur && rows[k].upc == upc {
                Err(ErrorModel::DuplicateUpc(upc, cur))
            } else {
                match number_at(grid, header, r, carton_count_header()) {
                    Err(_) => Err(ErrorModel::InvalidCartonCount(row_no)),
                    Ok(carton_count) => match number_at(grid, header, r, total_units_header()) {
                        Err(_) => Err(ErrorModel::InvalidTotalUnits(row_no)),
                        Ok(total_units) => Ok(
                            (
                                rows.push(
                                    ProductImportModel {
                                        carton_no: cur,
                                        upc,
                                        item_no: value_at(grid, header, r, item_header()),
                                        color_name: value_at(grid, header, r, color_name_header()),
                                        color_no: value_at(grid, header, r, color_no_header()),
                                        description: value_at(grid, header, r, description_header()),
                                        size_dimension: value_at(grid, header, r, size_header()),
                                        carton_count,
                                        units_per_carton: q,
                                        total_units,
                                    },
                                ),
                                cur,
                            ),
                        ),
                    },
                }
            },
        }
    }
}

/// The rows after header row `h` and before row `end`, read in order.
pub open spec fn sheet_rows(grid: Seq<Seq<CellModel>>, h: int, end: int) -> Result<
    (Seq<ProductImportModel>, Seq<char>),
    ErrorModel,
>
    decreases end - h,
{
    if end <= h + 1 {
        Ok((seq![], seq![]))
    } else {
        match sheet_rows(grid, h, end - 1) {
            Err(e) => Err(e),
            Ok((rows, current)) => sheet_row(grid, grid[h], end - 1, rows, current),
        }
    }
}

/// The product rows of a worksheet: the header row is the first of the
/// first thirty rows that names the carton, UPC and units columns; the rows
/// below it are read in order.
pub open spec fn parse_carton_sheet_spec(grid: Seq<Seq<CellModel>>) -> Result<Seq<ProductImportModel>, ErrorModel> {
    match find_header(grid, 0) {
        None => Err(ErrorModel::InvalidHeader),
        Some(h) => match sheet_rows(grid, h, grid.len() as int) {
            Err(e) => Err(e),
            Ok((rows, _)) => Ok(rows),
        },
    }
}

/// The keys of the cells of a row.
fn header_keys(row: &Vec<SheetCell>) -> (keys: Vec<String>)
    ensures
        keys@.len() == row@.len(),
        forall|c: int| 0 <= c < row@.len() ==> (#[trigger] keys@[c])@ == header_key(row@[c].text@),
{
    let mut keys: Vec<String> = Vec::new();
    let mut i: usize = 0;
    while i < row.len()
        invariant
            i <= row@.len(),
            keys@.len() == i,
            forall|c: int| 0 <= c < i ==> (#[trigger] keys@[c])@ == header_key(row@[c].text@),
        decreases row@.len() - i,
    {
        keys.push(normalize_header(row[i].text.as_str()));
        i = i + 1;
    }
    keys
}

/// The column that the keys of header row `row` name `name`.
fn find_col(keys: &Vec<String>, Ghost(row): Ghost<Seq<CellModel>>, name: &str) -> (r: Option<usize>)
    requires
        keys@.len() == row.len(),
        forall|c: int| 0 <= c < row.len() ==> (#[trigger] keys@[c])@ == header_key(row[c].text),
    ensures
        match r {
            Some(c) => header_col(row, name@) == Some(c as int),
            None => header_col(row, name@) is None,
        },
{
    let name_s = String::from_str(name);
    let mut i: usize = keys.len();
    assert(row.take(i as int) =~= row);
    while i > 0
        invariant
            i <= keys@.len() == row.len(),
            name_s@ == name@,
            forall|c: int| 0 <= c < row.len() ==> (#[trigger] keys@[c])@ == header_key(row[c].text),
            header_col(row, name@) == header_col(row.take(i as int), name@),
        decreases i,
    {
        let ghost t = row.take(i as int);
        assert(t.last() == row[i - 1]);
        assert(t.drop_last() =~= row.take(i - 1));
        if keys[i - 1] == name_s {
            return Some(i - 1);
        }
        i = i - 1;
    }
    None
}

/// The columns a header row names.
struct Columns {
    carton: Option<usize>,
    upc: Option<usize>,
    units: Option<usize>,
    item: Option<usize>,
    color_name: Option<usize>,
    color_no: Option<usize>,
    description: Option<usize>,
    size: Option<usize>,
    carton_count: Option<usize>,
    total_units: Option<usize>,
}

spec fn col_is(c: Option<usize>, header: Seq<CellModel>, name: Seq<char>) -> bool {
    match c {
        Some(x) => header_col(header, name) == Some(x as int),
        None => header_col(header, name) is None,
    }
}

spec fn columns_of(cols: Columns, header: Seq<CellModel>) -> bool {
    &&& col_is(cols.carton, header, box_header())
    &&& col_is(cols.upc, header, upc_header())
    &&& col_is(cols.units, header, units_header())
    &&& col_is(cols.item, header, item_header())
    &&& col_is(cols.color_name, header, color_name_header())
    &&& col_is(cols.color_no, header, color_no_header())
    &&& col_is(cols.description, header, description_header())
    &&& col_is(cols.size, header, size_header())
    &&& col_is(cols.carton_count, header, carton_count_header())
    &&& col_is(cols.total_units, header, total_units_header())
}

/// The trimmed text of row `r` in column `col`.
fn value_exec(grid: &Vec<Vec<SheetCell>>, r: usize, col: Option<usize>, Ghost(header): Ghost<Seq<CellModel>>, Ghost(name): Ghost<Seq<char>>) -> (v: String)
    requires
        col_is(col, header, name),
    ensures
        v@ == value_at(grid_views(grid@), header, r as int, name),
{
    let ghost gv = grid_views(grid@);
    match col {
        Some(c) => {
            if r < grid.len() && c < grid[r].len() {
                assert(gv[r as int] == row_views(grid@[r as int]@));
                assert(gv[r as int][c as int] == grid@[r as int]@[c as int]@);
                trim(grid[r][c].text.as_str())
            } else {
                assert(r < gv.len() ==> gv[r as int].len() == grid@[r as int]@.len());
                String::new()
            }
        },
        None => String::new(),
    }
}

/// The reading of row `r` in column `col`.
fn reading_exec(grid: &Vec<Vec<SheetCell>>, r: usize, col: Option<usize>, Ghost(header): Ghost<Seq<CellModel>>, Ghost(name): Ghost<Seq<char>>) -> (v: FloatReading)
    requires
        col_is(col, header, name),
    ensures
        v == reading_at(grid_views(grid@), header, r as int, name),
{
    let ghost gv = grid_views(grid@);
    match col {
        Some(c) => {
            if r < grid.len() && c < grid[r].len() {
                assert(gv[r as int] == row_views(grid@[r as int]@));
                assert(gv[r as int][c as int] == grid@[r as int]@[c as int]@);
                grid[r][c].reading
            } else {
                assert(r < gv.len() ==> gv[r as int].len() == grid@[r as int]@.len());
                FloatReading::Invalid
            }
        },
        None => FloatReading::Invalid,
    }
}

/// An optional integer in row `r`, column `col`.
fn number_exec(grid: &Vec<Vec<SheetCell>>, r: usize, col: Option<usize>, Ghost(header): Ghost<Seq<CellModel>>, Ghost(name): Ghost<Seq<char>>) -> (v: Result<Option<i64>, QaError>)
    requires
        col_is(col, header, name),
    ensures
        match v {
            Ok(x) => number_at(grid_views(grid@), header, r as int, name) == Ok::<Option<i64>, ErrorModel>(x),
            Err(e) => number_at(grid_views(grid@), header, r as int, name) == Err::<Option<i64>, ErrorModel>(e@),
        },
{
    let text = value_exec(grid, r, col, Ghost(header), Ghost(name));
    let reading = reading_exec(grid, r, col, Ghost(header), Ghost(name));
    parse_optional_integer(text.as_str(), reading)
}

proof fn lemma_sheet_rows_err(grid: Seq<Seq<CellModel>>, h: int, end: int, last: int)
    requires
        h + 1 <= end <= last,
        sheet_rows(grid, h, end) is Err,
    ensures
        sheet_rows(grid, h, last) == sheet_rows(grid, h, end),
    decreases last - end,
{
    if end < last {
        lemma_sheet_rows_err(grid, h, end, last - 1);
    }
}

/// Whether `rows` already has UPC `upc` in carton `carton`.
fn upc_in_carton(rows: &Vec<CartonProductImport>, carton: &String, upc: &String) -> (r: bool)
    ensures
        r == exists|k: int| 0 <= k < rows@.len() && #[trigger] import_views(rows@)[k].carton_no == carton@
            && import_views(rows@)[k].upc == upc@,
{
    let mut k: usize = 0;
    while k < rows.len()
        invariant
            k <= rows@.len(),
            forall|t: int| 0 <= t < k ==> !(#[trigger] import_views(rows@)[t].carton_no == carton@ && import_views(rows@)[t].upc == upc@),
        decreases rows@.len() - k,
    {
        if rows[k].carton_no == *carton && rows[k].upc == *upc {
            assert(import_views(rows@)[k as int].carton_no == carton@);
            return true;
        }
        k = k + 1;
    }
    false
}

/// The header row of the sheet.
fn find_header_exec(grid: &Vec<Vec<SheetCell>>) -> (r: Option<usize>)
    ensures
        match r {
            Some(h) => find_header(grid_views(grid@), 0) == Some(h as int),
            None => find_header(grid_views(grid@), 0) is None,
        },
{
    let ghost gv = grid_views(grid@);
    let n = grid.len();
    let mut h: usize = 0;
    while h < n && h < 30
        invariant
            h <= n == grid@.len() == gv.len(),
            gv == grid_views(grid@),
            h <= 30,
            find_header(gv, 0) == find_header(gv, h as int),
        decreases 30 - h,
    {
        let keys = header_keys(&grid[h]);
        let ghost row = gv[h as int];
        assert(row == row_views(grid@[h as int]@));
        assert forall|c: int| 0 <= c < row.len() implies (#[trigger] keys@[c])@ == header_key(row[c].text) by {
            assert(row[c] == grid@[h as int]@[c]@);
        }
        let a = find_col(&keys, Ghost(row), "BOX #");
        let b = find_col(&keys, Ghost(row), "UPC");
        let c = find_col(&keys, Ghost(row), "# OF UNITS PER CRTN");
        if a.is_some() && b.is_some() && c.is_some() {
            return Some(h);
        }
        h = h + 1;
    }
    None
}

/// The columns that header row `h` names.
fn columns_exec(grid: &Vec<Vec<SheetCell>>, h: usize) -> (cols: Columns)
    requires
        h < grid@.len(),
    ensures
        columns_of(cols, grid_views(grid@)[h as int]),
{
    let ghost gv = grid_views(grid@);
    let keys = header_keys(&grid[h]);
    let ghost row = gv[h as int];
    assert(row == row_views(grid@[h as int]@));
    assert forall|c: int| 0 <= c < row.len() implies (#[trigger] keys@[c])@ == header_key(row[c].text) by {
        assert(row[c] == grid@[h as int]@[c]@);
    }
    Columns {
        carton: find_col(&keys, Ghost(row), "BOX #"),
        upc: find_col(&keys, Ghost(row), "UPC"),
        units: find_col(&keys, Ghost(row), "# OF UNITS PER CRTN"),
        item: find_col(&keys, Ghost(row), "货号"),
        color_name: find_col(&keys, Ghost(row), "COLOR NAME"),
        color_no: find_col(&keys, Ghost(row), "COLOR#"),
        description: find_col(&keys, Ghost(row), "MERCHANDISE DESCRIPTION"),
        size: find_col(&keys, Ghost(row), "SIZE OR DIMENSION"),
        carton_count: find_col(&keys, Ghost(row), "# OF CRTN"),
        total_units: find_col(&keys, Ghost(row), "TOTAL UNITS"),
    }
}

/// The product rows of a worksheet given as its cells, row by row.
pub fn parse_carton_sheet(grid: &Vec<Vec<SheetCell>>) -> (r: Result<Vec<CartonProductImport>, QaError>)
    ensures
        match r {
            Ok(rows) => parse_carton_sheet_spec(grid_views(grid@)) == Ok::<Seq<ProductImportModel>, ErrorModel>(
                import_views(rows@),
            ),
            Err(e) => parse_carton_sheet_spec(grid_views(grid@)) == Err::<Seq<ProductImportModel>, ErrorModel>(e@),
        },
{
    let ghost gv = grid_views(grid@);
    let h = match find_header_exec(grid) {
        None => {
            return Err(QaError::InvalidHeader);
        },
        Some(h) => h,
    };
    proof {
        lemma_find_header_bounds(gv, 0);
    }
    let cols = columns_exec(grid, h);
    let ghost hd = gv[h as int];
    let n = grid.len();
    let mut rows: Vec<CartonProductImport> = Vec::new();
    let mut current = String::new();
    let mut r: usize = h + 1;
    assert(import_views(rows@) =~= Seq::<ProductImportModel>::empty());
    assert(current@ =~= Seq::<char>::empty());
    while r < n
        invariant
            h < r <= n == grid@.len() == gv.len(),
            gv == grid_views(grid@),
            hd == gv[h as int],
            columns_of(cols, hd),
            find_header(gv, 0) == Some(h as int),
            sheet_rows(gv, h as int, r as int) == Ok::<(Seq<ProductImportModel>, Seq<char>), ErrorModel>(
                (import_views(rows@), current@),
            ),
        decreases n - r,
    {
        match sheet_row_exec(grid, r, &cols, &rows, &current, Ghost(hd)) {
            Err(e) => {
                proof {
                    lemma_sheet_rows_err(gv, h as int, r + 1, n as int);
                }
                return Err(e);
            },
            Ok((row, cur)) => {
                match row {
                    Some(x) => {
                        let ghost prev = rows@;
                        rows.push(x);
                        assert(import_views(rows@) =~= import_views(prev).push(rows@[prev.len() as int]@));
                    },
                    None => {},
                }
                current = cur;
            },
        }
        r = r + 1;
    }
    Ok(rows)
}

proof fn lemma_find_header_bounds(grid: Seq<Seq<CellModel>>, r: int)
    ensures
        find_header(grid, r) matches Some(h) ==> 0 <= h < grid.len(),
    decreases 30 - r,
{
    if !(r < 0 || r >= grid.len() || r >= 30) && !is_header_row(grid[r]) {
        lemma_find_header_bounds(grid, r + 1);
    }
}

/// Row `r` read: the product row it gives, if any, and the carton number
/// in force after it.
#[verifier::rlimit(40)]
fn sheet_row_exec(
    grid: &Vec<Vec<SheetCell>>,
    r: usize,
    cols: &Columns,
    rows: &Vec<CartonProductImport>,
    current: &String,
    Ghost(hd): Ghost<Seq<CellModel>>,
) -> (out: Result<(Option<CartonProductImport>, String), QaError>)
    requires
        r < grid@.len(),
        columns_of(*cols, hd),
    ensures
        match out {
            Ok((row, cur)) => sheet_row(grid_views(grid@), hd, r as int, import_views(rows@), current@) == Ok::<
                (Seq<ProductImportModel>, Seq<char>),
                ErrorModel,
            >(
                (
                    match row {
                        Some(x) => import_views(rows@).push(x@),
                        None => import_views(rows@),
                    },
                    cur@,
                ),
            ),
            Err(e) => sheet_row(grid_views(grid@), hd, r as int, import_views(rows@), current@) == Err::<
                (Seq<ProductImportModel>, Seq<char>),
                ErrorModel,
            >(e@),
        },
{
    let n = grid.len();
    assert(r < n);
    let row_no: u64 = (r + 1) as u64;
    let carton = value_exec(grid, r, cols.carton, Ghost(hd), Ghost(box_header()));
    let cur = if !carton.as_str().is_empty() {
        carton
    } else {
        current.clone()
    };
    let upc = value_exec(grid, r, cols.upc, Ghost(hd), Ghost(upc_header()));
    let units_raw = value_exec(grid, r, cols.units, Ghost(hd), Ghost(units_header()));
    if upc.as_str().is_empty() && units_raw.as_str().is_empty() {
        return Ok((None, cur));
    }
    if cur.as_str().is_empty() {
        return Err(QaError::RowWithoutCarton(row_no));
    }
    if upc.as_str().is_empty() {
        return Err(QaError::EmptyUpc(row_no));
    }
    let q = match number_exec(grid, r, cols.units, Ghost(hd), Ghost(units_header())) {
        Err(_) => {
            return Err(QaError::InvalidUnits(row_no));
        },
        Ok(None) => {
            return Err(QaError::UnitsNotPositive(row_no));
        },
        Ok(Some(q)) => q,
    };
    if q <= 0 {
        return Err(QaError::UnitsNotPositive(row_no));
    }
    if upc_in_carton(rows, &cur, &upc) {
        return Err(QaError::DuplicateUpc(upc, cur));
    }
    let carton_count = match number_exec(grid, r, cols.carton_count, Ghost(hd), Ghost(carton_count_header())) {
        Err(_) => {
            return Err(QaError::InvalidCartonCount(row_no));
        },
        Ok(x) => x,
    };
    let total_units = match number_exec(grid, r, cols.total_units, Ghost(hd), Ghost(total_units_header())) {
        Err(_) => {
            return Err(QaError::InvalidTotalUnits(row_no));
        },
        Ok(x) => x,
    };
    let row = CartonProductImport {
        carton_no: cur.clone(),
        upc,
        item_no: value_exec(grid, r, cols.item, Ghost(hd), Ghost(item_header())),
        color_name: value_exec(grid, r, cols.color_name, Ghost(hd), Ghost(color_name_header())),
        color_no: value_exec(grid, r, cols.color_no, Ghost(hd), Ghost(color_no_header())),
        description: value_exec(grid, r, cols.description, Ghost(hd), Ghost(description_header())),
        size_dimension: value_exec(grid, r, cols.size, Ghost(hd), Ghost(size_header())),
        carton_count,
        units_per_carton: q,
        total_units,
    };
    Ok((Some(row), cur))
}

} // verus!
