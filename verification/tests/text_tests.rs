use clothes_qa::error::QaError;
use clothes_qa::models::{BatchInput, RecordInput};
use clothes_qa::order::{sql_cast_int_exec, text_le_exec};
use clothes_qa::photos::{extension_for, join_path_exec, lower_extension, photo_path_exec};
use clothes_qa::store::Database;
use clothes_qa::text::{format_i64, format_u128, is_blank, parse_i64, trim};
use clothes_qa::validate::{is_valid_grade, validate_record};

#[test]
fn trimming_and_numbers() {
    assert_eq!(trim("\u{3000} a b \n"), "a b");
    assert!(is_blank(" \t\u{a0}"));
    assert!(!is_blank(" x "));
    assert_eq!(format_i64(i64::MIN), "-9223372036854775808");
    assert_eq!(format_i64(0), "0");
    assert_eq!(format_u128(1234567890123456789012345), "1234567890123456789012345");
    let chars = |s: &str| s.chars().collect::<Vec<char>>();
    assert_eq!(parse_i64(&chars("+42")), Some(42));
    assert_eq!(parse_i64(&chars("-9223372036854775808")), Some(i64::MIN));
    assert_eq!(parse_i64(&chars("9223372036854775808")), None);
    assert_eq!(parse_i64(&chars("4 2")), None);
    assert_eq!(parse_i64(&chars("-")), None);
}

#[test]
fn ordering_of_carton_numbers() {
    assert!(text_le_exec("10", "9"));
    assert!(!text_le_exec("b", "a"));
    assert!(text_le_exec("ab", "ab"));
    assert_eq!(sql_cast_int_exec("  12abc"), 12);
    assert_eq!(sql_cast_int_exec("-7"), -7);
    assert_eq!(sql_cast_int_exec("x1"), 0);
    assert_eq!(sql_cast_int_exec("99999999999999999999"), i64::MAX);
}

#[test]
fn image_paths() {
    assert_eq!(extension_for("a/b.JPEG", '/'), "jpeg");
    assert_eq!(extension_for(".hidden", '/'), "jpg");
    assert_eq!(extension_for("x.", '/'), "");
    assert_eq!(lower_extension("dir/book.XlSx", '/'), "xlsx");
    assert_eq!(lower_extension("dir/book", '/'), "");
    assert_eq!(join_path_exec("/d", "f", '/'), "/d/f");
    assert_eq!(join_path_exec("/d/", "f", '/'), "/d/f");
    assert_eq!(photo_path_exec("/p", '/', 12, 3, "u", "png"), "/p/12/3_u.png");
}

#[test]
fn backslash_separates_only_where_it_is_the_separator() {
    assert_eq!(extension_for("dir\\a.PNG", '\\'), "png");
    assert_eq!(extension_for("c.d\\photo", '\\'), "jpg");
    assert_eq!(extension_for("c.d\\photo", '/'), "d\\photo");
    assert_eq!(extension_for("x/y\\a.Jpg", '\\'), "jpg");
    assert_eq!(lower_extension("C:\\books\\p.XLSX", '\\'), "xlsx");
    assert_eq!(lower_extension("dir.x\\book", '\\'), "");
    assert_eq!(join_path_exec("C:\\p", "f", '\\'), "C:\\p\\f");
    assert_eq!(join_path_exec("C:\\p\\", "f", '\\'), "C:\\p\\f");
    assert_eq!(join_path_exec("C:/p/", "f", '\\'), "C:/p/f");
}

#[test]
fn record_checks() {
    assert!(is_valid_grade("C"));
    assert!(!is_valid_grade("c"));
    assert_eq!(validate_record("b", "A", 1, 3), Ok(()));
    assert_eq!(validate_record("b", "A", 1, 4), Err(QaError::TooManyPhotos));
    assert_eq!(QaError::TooManyPhotos.message(), "Maximum 3 images per record");
}

#[test]
fn summary_totals_add_up() {
    let mut db = Database::new("/p".into(), '/');
    let b = db.create_batch(BatchInput { batch_no: "T".into(), inspection_date: String::new() }).unwrap();
    let c = db.create_carton(b, "1".into()).unwrap();
    for (g, q) in [("A", 2), ("B", 3), ("C", 5), ("D", 7)] {
        db.create_record(RecordInput {
            batch_id: b,
            carton_id: c,
            barcode: "x".into(),
            grade: g.into(),
            quantity: q,
            exception_reason: String::new(),
            photos: vec![],
        })
        .unwrap();
    }
    let carton = db.list_cartons(b).unwrap().remove(0);
    assert_eq!(carton.inspected_qty, carton.grade_a + carton.grade_b + carton.grade_c + carton.grade_d);
    assert_eq!(carton.inspected_qty, 17);
    assert_eq!(carton.sealed_qty, 10);
}
