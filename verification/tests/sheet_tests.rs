use clothes_qa::error::QaError;
use clothes_qa::sheet::{
    check_import_path, clean_number_text, normalize_header, parse_carton_sheet, parse_optional_integer, FloatReading,
    SheetCell,
};

fn cell(text: &str) -> SheetCell {
    SheetCell { text: text.to_string(), reading: FloatReading::Invalid }
}

fn number(text: &str, value: i64) -> SheetCell {
    SheetCell { text: text.to_string(), reading: FloatReading::Whole(value) }
}

fn row(cells: &[&str]) -> Vec<SheetCell> {
    cells.iter().map(|t| cell(t)).collect()
}

fn template_header() -> Vec<SheetCell> {
    row(&[
        "BOX #",
        "UPC",
        "货号",
        "COLOR NAME",
        "COLOR#",
        "MERCHANDISE DESCRIPTION",
        "SIZE or DIMENSION",
        "# OF CRTN",
        "# OF UNITS PER CRTN",
        "TOTAL UNITS",
    ])
}

#[test]
fn reads_p_xlsx_and_carries_box_number_to_following_upc_rows() {
    let mut r2 = row(&["10", "623555783008", "", "", "", "", "", "", "6", ""]);
    r2[8] = number("6", 6);
    let mut r3 = row(&["", "623555783022", "", "", "", "", "", "", "19", ""]);
    r3[8] = number("19", 19);
    let grid = vec![template_header(), r2, r3];
    let rows = parse_carton_sheet(&grid).unwrap();
    let box_ten: Vec<_> = rows.iter().filter(|row| row.carton_no == "10").collect();
    assert!(box_ten.len() >= 2);
    assert_eq!(box_ten[0].upc, "623555783008");
    assert_eq!(box_ten[0].units_per_carton, 6);
    assert_eq!(box_ten[1].upc, "623555783022");
    assert_eq!(box_ten[1].units_per_carton, 19);
}

#[test]
fn header_may_stand_below_a_title_and_columns_are_found_by_name() {
    let grid = vec![
        row(&["Packing list"]),
        row(&["\u{feff} upc ", "x", "box  #", "# of units per crtn", "total units", "# OF CRTN"]),
        row(&[" 7 ", " A1 ", " 3 ", "1,200", " 2 ", ""]),
        row(&["", "", "", "", "", ""]),
        row(&["B2", "", "4", "5", "", ""]),
    ];
    let rows = parse_carton_sheet(&grid).unwrap();
    assert_eq!(rows.len(), 2);
    assert_eq!(rows[0].carton_no, "3");
    assert_eq!(rows[0].upc, "7");
    assert_eq!(rows[0].units_per_carton, 1200);
    assert_eq!(rows[0].total_units, Some(2));
    assert_eq!(rows[0].carton_count, None);
    assert_eq!(rows[0].item_no, "");
    assert_eq!(rows[1].carton_no, "4");
    assert_eq!(rows[1].upc, "B2");
}

#[test]
fn sheet_refusals_name_the_row() {
    let header = row(&["BOX #", "UPC", "# OF UNITS PER CRTN", "# OF CRTN", "TOTAL UNITS"]);
    let bad = |cells: &[&str]| vec![header.iter().map(|c| cell(&c.text)).collect(), row(cells)];
    assert_eq!(parse_carton_sheet(&vec![row(&["UPC"])]).err(), Some(QaError::InvalidHeader));
    assert_eq!(parse_carton_sheet(&bad(&["", "U", "1", "", ""])).err(), Some(QaError::RowWithoutCarton(2)));
    assert_eq!(parse_carton_sheet(&bad(&["1", "", "1", "", ""])).err(), Some(QaError::EmptyUpc(2)));
    assert_eq!(parse_carton_sheet(&bad(&["1", "U", "x", "", ""])).err(), Some(QaError::InvalidUnits(2)));
    assert_eq!(parse_carton_sheet(&bad(&["1", "U", "0", "", ""])).err(), Some(QaError::UnitsNotPositive(2)));
    assert_eq!(parse_carton_sheet(&bad(&["1", "U", "1", "z", ""])).err(), Some(QaError::InvalidCartonCount(2)));
    assert_eq!(parse_carton_sheet(&bad(&["1", "U", "1", "", "z"])).err(), Some(QaError::InvalidTotalUnits(2)));
    let mut dup = bad(&["1", "U", "1", "", ""]);
    dup.push(row(&["", "U", "2", "", ""]));
    assert_eq!(
        parse_carton_sheet(&dup).err(),
        Some(QaError::DuplicateUpc("U".to_string(), "1".to_string()))
    );
    assert_eq!(QaError::InvalidUnits(2).message(), "Invalid # OF UNITS PER CRTN on row 2");
    assert_eq!(QaError::DuplicateUpc("U".into(), "1".into()).message(), "Duplicate UPC U in carton 1");
}

#[test]
fn header_search_stops_after_thirty_rows() {
    let mut grid: Vec<Vec<SheetCell>> = (0..30).map(|_| row(&["title"])).collect();
    grid.push(row(&["BOX #", "UPC", "# OF UNITS PER CRTN"]));
    assert_eq!(parse_carton_sheet(&grid).err(), Some(QaError::InvalidHeader));
    grid.remove(0);
    assert_eq!(parse_carton_sheet(&grid).map(|r| r.len()), Ok(0));
}

#[test]
fn headers_are_normalized() {
    assert_eq!(normalize_header("  \u{feff}\u{feff}size   or\tdimension "), "SIZE OR DIMENSION");
    assert_eq!(normalize_header("货号"), "货号");
    assert_eq!(normalize_header("   "), "");
}

#[test]
fn optional_integers() {
    assert_eq!(parse_optional_integer("  ", FloatReading::Invalid), Ok(None));
    assert_eq!(parse_optional_integer(" 1,234 ", FloatReading::Invalid), Ok(Some(1234)));
    assert_eq!(parse_optional_integer("-7", FloatReading::Invalid), Ok(Some(-7)));
    assert_eq!(parse_optional_integer("6.0", FloatReading::Whole(6)), Ok(Some(6)));
    assert_eq!(parse_optional_integer("6.5", FloatReading::Fraction), Err(QaError::NotAnInteger));
    assert_eq!(parse_optional_integer("abc", FloatReading::Invalid), Err(QaError::InvalidNumber));
    assert_eq!(clean_number_text(" 1,2,3 "), "123");
    assert_eq!(QaError::NotAnInteger.message(), "Value is not an integer");
}

#[test]
fn only_xlsx_files_are_read() {
    assert_eq!(check_import_path("/tmp/p.xlsx", '/'), Ok(()));
    assert_eq!(check_import_path("/tmp/P.XLSX", '/'), Ok(()));
    assert_eq!(check_import_path("/tmp/p.xls", '/'), Err(QaError::NotXlsx));
    assert_eq!(check_import_path("/tmp/.xlsx", '/'), Err(QaError::NotXlsx));
    assert_eq!(check_import_path("C:\\in\\p.Xlsx", '\\'), Ok(()));
    assert_eq!(check_import_path("C:\\in.xlsx\\p", '\\'), Err(QaError::NotXlsx));
    assert_eq!(
        QaError::NotXlsx.message(),
        "Use an Excel file in p.xlsx format (.xlsx)"
    );
}

fn read_back(grid: &Vec<Vec<SheetCell>>) -> Vec<(String, String, String, Option<i64>, i64, Option<i64>)> {
    parse_carton_sheet(grid)
        .unwrap()
        .into_iter()
        .map(|r| (r.carton_no, r.upc, r.item_no, r.carton_count, r.units_per_carton, r.total_units))
        .collect()
}

fn data_rows(order: &[usize], header: Vec<SheetCell>) -> Vec<Vec<SheetCell>> {
    let mut a = row(&["7", "111", "K-1", "", "", "", "", "2", "5", "10"]);
    a[7] = number("2", 2);
    a[8] = number("5", 5);
    a[9] = number("10", 10);
    let mut b = row(&["", "222", "K-2", "", "", "", "", "", "3", ""]);
    b[8] = number("3", 3);
    let grid = vec![header, a, b];
    grid.into_iter()
        .map(|r| {
            let mut cells: Vec<Option<SheetCell>> = r.into_iter().map(Some).collect();
            order.iter().map(|&c| cells[c].take().unwrap()).collect()
        })
        .collect()
}

#[test]
fn reordered_columns_read_the_same() {
    let identity: Vec<usize> = (0..10).collect();
    let reordered = [9, 2, 8, 0, 5, 1, 7, 3, 6, 4];
    let first = read_back(&data_rows(&identity, template_header()));
    let second = read_back(&data_rows(&reordered, template_header()));
    assert_eq!(first.len(), 2);
    assert_eq!(first, second);
    assert_eq!(first[1], ("7".to_string(), "222".to_string(), "K-2".to_string(), None, 3, None));
}

#[test]
fn header_cells_with_the_same_key_read_the_same() {
    let identity: Vec<usize> = (0..10).collect();
    let plain = read_back(&data_rows(&identity, template_header()));
    let other_header = row(&[
        "\u{feff}box   #",
        " upc ",
        "货号",
        "color name",
        "Color#",
        "merchandise\tdescription",
        "size or dimension",
        "# of crtn",
        "#  OF UNITS PER CRTN ",
        "total units",
    ]);
    let relabeled = read_back(&data_rows(&identity, other_header));
    assert_eq!(plain, relabeled);
    assert_eq!(plain[0], ("7".to_string(), "111".to_string(), "K-1".to_string(), Some(2), 5, Some(10)));
}

#[test]
fn rows_read_name_a_carton_and_upc_once() {
    let mut a = row(&["7", "111", "", "", "", "", "", "", "5", ""]);
    a[8] = number("5", 5);
    let mut b = row(&["", "111", "", "", "", "", "", "", "2", ""]);
    b[8] = number("2", 2);
    let grid = vec![template_header(), a, b];
    assert!(matches!(parse_carton_sheet(&grid), Err(QaError::DuplicateUpc(_, _))));
}

#[test]
fn integer_text_reads_back() {
    for n in [0i64, 7, -7, 1200, i64::MAX, i64::MIN] {
        assert_eq!(parse_optional_integer(&n.to_string(), FloatReading::Invalid), Ok(Some(n)));
        assert_eq!(parse_optional_integer(&n.to_string(), FloatReading::Fraction), Ok(Some(n)));
    }
}
