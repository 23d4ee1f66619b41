use clothes_qa::export::{
    auto_sheet_names, export_file_names, export_layout, report_cleared_to, seal_cleared_to, seal_sheet_steps, SheetStep,
};
use clothes_qa::models::{BatchInput, CartonProductImport, PhotoInput, RecordInput};
use clothes_qa::error::QaError;
use clothes_qa::store::Database;

fn record(batch_id: i64, carton_id: i64, barcode: &str, grade: &str, quantity: i64, reason: &str) -> RecordInput {
    RecordInput {
        batch_id,
        carton_id,
        barcode: barcode.into(),
        grade: grade.into(),
        quantity,
        exception_reason: reason.into(),
        photos: vec![],
    }
}

#[test]
fn exports_current_seal_and_report_mappings() {
    let mut db = Database::new("/data/photos".into(), '/');
    let batch_id = db
        .create_batch(BatchInput { batch_no: "EXPORT-TEST".into(), inspection_date: "2026-07-16".into() })
        .unwrap();
    let carton_id = db.create_carton(batch_id, "001".into()).unwrap();
    db.import_cartons(
        batch_id,
        vec![CartonProductImport {
            carton_no: "001".into(),
            upc: "SKU001".into(),
            item_no: String::new(),
            color_name: String::new(),
            color_no: String::new(),
            description: String::new(),
            size_dimension: String::new(),
            carton_count: None,
            units_per_carton: 1,
            total_units: None,
        }],
    )
    .unwrap();
    let mut b = record(batch_id, carton_id, "SKU-001", "B", 17, "备注内容");
    b.photos.push(PhotoInput {
        name: "sample.png".into(),
        data_base64: "iVBORw0KGgoAAAANSUhEUgAAAAEAAAABCAQAAAC1HAwCAAAAC0lEQVR42mNk+A8AAQUBAScY42YAAAAASUVORK5CYII=".into(),
    });
    db.create_record(b).unwrap();
    db.create_record(record(batch_id, carton_id, "SKU-D", "D", 50, "Cannot repair")).unwrap();
    let plan = db.export_plan(batch_id).unwrap();
    assert_eq!(plan.seal_file, "封箱单 EXPORT-TEST 20260716.xlsx");
    assert_eq!(plan.report_file, "入库质检报告 EXPORT-TEST 20260716.xlsx");
    // seal sheet "001": 17 lines from row 3, the total on row 20
    assert_eq!(plan.seals.len(), 1);
    assert_eq!(plan.layout.image_column_width, 50);
    let seal = &plan.seals[0];
    assert_eq!(seal.carton_no, "001");
    assert_eq!(seal.lines.len(), 1);
    assert_eq!((seal.lines[0].first_row, seal.lines[0].first_no, seal.lines[0].count), (3, 1, 17));
    assert_eq!(seal.lines[0].reason, "备注内容");
    assert_eq!((seal.total, seal.total_row, seal.hide_to), (17, 20, 34));
    assert_eq!(seal.note, "原箱共1件，取出50件D");
    // grade sheets: B from row 2 to 18, D from row 2 to 51
    assert_eq!(plan.grades.len(), 4);
    assert_eq!(plan.grades[1].name, "B 可增值");
    let gb = &plan.grades[1].lines[0];
    assert_eq!((gb.first_row, gb.count, gb.carton_no.as_str(), gb.barcode.as_str()), (2, 17, "001", "SKU-001"));
    assert_eq!(gb.reason, "备注内容");
    assert_eq!(plan.grades[3].name, "D 不可修復");
    let gd = &plan.grades[3].lines[0];
    assert_eq!((gd.first_row, gd.count, gd.barcode.as_str()), (2, 50, "SKU-D"));
    assert!(plan.grades[0].lines.is_empty());
    // defect sheet: B on row 2 with its quantity, then 50 lines of D to row 52
    assert_eq!(plan.defects.len(), 2);
    let d0 = &plan.defects[0];
    assert_eq!((d0.first_row, d0.count, d0.quantity), (2, 1, 17));
    assert_eq!((d0.reason.as_str(), d0.grade.as_str(), d0.carton_no.as_str()), ("备注内容", "B", "001"));
    assert_eq!((d0.barcode.as_str(), d0.seal_no.as_str()), ("SKU-001", "N/A"));
    assert_eq!(d0.images.len(), 1);
    assert_eq!((d0.images[0].column, d0.images[0].next_column), ('G', 'H'));
    let d1 = &plan.defects[1];
    assert_eq!((d1.first_row, d1.count, d1.quantity, d1.grade.as_str()), (3, 50, 1, "D"));
    assert_eq!(d1.first_row + d1.count - 1, 52);
}

#[test]
fn seal_numbers_count_earlier_sealed_pieces_of_the_carton() {
    let mut db = Database::new("/p".into(), '/');
    let batch_id = db.create_batch(BatchInput { batch_no: "S".into(), inspection_date: "2026-01-01".into() }).unwrap();
    let c = db.create_carton(batch_id, "1".into()).unwrap();
    db.create_record(record(batch_id, c, "A1", "A", 3, "")).unwrap();
    db.create_record(record(batch_id, c, "D1", "D", 1, "")).unwrap();
    db.create_record(record(batch_id, c, "C1", "C", 1, "stain")).unwrap();
    db.create_record(record(batch_id, c, "B1", "B", 2, "")).unwrap();
    let plan = db.export_plan(batch_id).unwrap();
    let seals: Vec<&str> = plan.defects.iter().map(|d| d.seal_no.as_str()).collect();
    assert_eq!(seals, vec!["N/A", "4", "N/A"]);
    let seal = &plan.seals[0];
    assert_eq!(seal.lines.len(), 3);
    assert_eq!((seal.lines[1].first_row, seal.lines[1].first_no), (6, 4));
    assert_eq!((seal.total, seal.total_row), (6, 9));
    assert_eq!(seal.note, "原箱共7件，取出1件D");
}

#[test]
fn export_refusals() {
    let db = Database::new("/p".into(), '/');
    assert_eq!(db.export_plan(4).err().map(|e| e.message()), Some("Query returned no rows".to_string()));
    assert_eq!(QaError::IntegerOverflow.message(), "integer overflow");
}

#[test]
fn layout_helpers() {
    let (seal, report) = export_file_names("B-1", "2026-07-16");
    assert_eq!(seal, "封箱单 B-1 20260716.xlsx");
    assert_eq!(report, "入库质检报告 B-1 20260716.xlsx");
    assert_eq!(auto_sheet_names(2, 4), vec!["__AUTO_3".to_string(), "__AUTO_4".to_string()]);
    assert!(auto_sheet_names(3, 2).is_empty());
    assert_eq!(seal_cleared_to(20), 34);
    assert_eq!(seal_cleared_to(40), 40);
}

#[test]
fn report_bodies_are_cleared_from_row_two() {
    assert_eq!(report_cleared_to(0), 2);
    assert_eq!(report_cleared_to(2), 2);
    assert_eq!(report_cleared_to(57), 57);
}

#[test]
fn export_layout_follows_the_workbook_rules() {
    let l = export_layout();
    assert_eq!(l.image_columns, vec!['G', 'H', 'I']);
    assert_eq!(l.image_column_width, 50);
    assert_eq!(l.defect_row_height, 60);
    assert_eq!((l.seal_row_height, l.seal_total_row_height), (24, 63));
    assert_eq!(l.dropped_report_sheet, "质检报告");
    assert_eq!(l.defect_sheet, "瑕疵照片 Sample");
    assert_eq!(l.seal_total_label, "小计Total");
}

fn describe(steps: &[SheetStep]) -> Vec<String> {
    steps
        .iter()
        .map(|s| match s {
            SheetStep::AddCopy(n) => format!("add {n}"),
            SheetStep::Fill { sheet, seal } => format!("fill {sheet} {seal}"),
            SheetStep::Remove(i) => format!("remove {i}"),
        })
        .collect()
}

#[test]
fn each_carton_gets_its_own_sheet() {
    let more = seal_sheet_steps(2, 4).unwrap();
    assert_eq!(describe(&more), vec!["add __AUTO_3", "add __AUTO_4", "fill 0 0", "fill 1 1", "fill 2 2", "fill 3 3"]);
    let fewer = seal_sheet_steps(4, 2).unwrap();
    assert_eq!(describe(&fewer), vec!["fill 0 0", "fill 1 1", "remove 3", "remove 2"]);
    let many = seal_sheet_steps(42, 43).unwrap();
    assert_eq!(many.iter().filter(|s| matches!(s, SheetStep::Fill { .. })).count(), 43);
    assert!(seal_sheet_steps(0, 1).is_none());
    assert!(seal_sheet_steps(0, 0).unwrap().is_empty());
    // Sheets are addressed by place: a carton numbered like a later template
    // sheet still gets the sheet at its own place, and that later sheet is
    // the one removed.
    let mut names = vec!["Sheet1".to_string(), "7".to_string()];
    let cartons = ["7"];
    for step in seal_sheet_steps(names.len(), cartons.len()).unwrap() {
        match step {
            SheetStep::AddCopy(n) => names.push(n),
            SheetStep::Fill { sheet, seal } => names[sheet] = cartons[seal].to_string(),
            SheetStep::Remove(i) => {
                names.remove(i);
            }
        }
    }
    assert_eq!(names, vec!["7".to_string()]);
}
