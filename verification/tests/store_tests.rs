use clothes_qa::error::{result, QaError};
use clothes_qa::models::{
    BatchInput, CartonProductImport, PhotoInput, RecordEditInput, RecordInput, ReplaceCartonRecordsInput,
};
use clothes_qa::store::{import_sums_fit, Database};

fn setup() -> Database {
    Database::new(String::from("/data/photos"), '/')
}

fn batch(db: &mut Database) -> i64 {
    db.create_batch(BatchInput {
        batch_no: format!("BATCH-{}", db.list_batches().unwrap().len() + 1),
        inspection_date: "2026-07-16".into(),
    })
    .unwrap()
}

fn input(batch_id: i64, carton_id: i64, barcode: &str, grade: &str, quantity: i64) -> RecordInput {
    RecordInput {
        batch_id,
        carton_id,
        barcode: barcode.into(),
        grade: grade.into(),
        quantity,
        exception_reason: String::new(),
        photos: vec![],
    }
}

fn imported(carton_no: &str, upc: &str, units: i64) -> CartonProductImport {
    CartonProductImport {
        carton_no: carton_no.into(),
        upc: upc.into(),
        item_no: String::new(),
        color_name: String::new(),
        color_no: String::new(),
        description: String::new(),
        size_dimension: String::new(),
        carton_count: None,
        units_per_carton: units,
        total_units: None,
    }
}

const PNG: &str = "iVBORw0KGgoAAAANSUhEUgAAAAEAAAABCAQAAAC1HAwCAAAAC0lEQVR42mNk+A8AAQUBAScY42YAAAAASUVORK5CYII=";

#[test]
fn supports_multiple_barcodes_and_quantities() {
    let mut db = setup();
    let batch_id = batch(&mut db);
    let carton_id = db.create_carton(batch_id, "351".into()).unwrap();
    db.create_record(input(batch_id, carton_id, "001", "B", 3)).unwrap();
    db.create_record(input(batch_id, carton_id, "002", "D", 1)).unwrap();
    let carton = db.list_cartons(batch_id).unwrap().remove(0);
    assert_eq!((carton.grade_b, carton.grade_d, carton.sealed_qty), (3, 1, 3));
}

#[test]
fn imports_multiple_upcs_and_sums_reference_quantity() {
    let mut db = setup();
    let batch_id = batch(&mut db);
    db.import_cartons(
        batch_id,
        vec![imported("10", "623555783008", 6), imported("10", "623555783022", 19)],
    )
    .unwrap();
    let carton = db.list_cartons(batch_id).unwrap().remove(0);
    assert_eq!(carton.reference_qty, Some(25));
    assert_eq!(db.list_carton_products(carton.id).unwrap().len(), 2);
}

#[test]
fn replaces_carton_records_atomically() {
    let mut db = setup();
    let batch_id = batch(&mut db);
    let carton_id = db.create_carton(batch_id, "1".into()).unwrap();
    let (id, _) = db.create_record(input(batch_id, carton_id, "OLD", "A", 1)).unwrap();
    db.replace_carton_records(ReplaceCartonRecordsInput {
        batch_id,
        carton_id,
        records: vec![RecordEditInput {
            id: Some(id),
            barcode: "NEW".into(),
            grade: "C".into(),
            quantity: 2,
            exception_reason: "污渍".into(),
            photos: vec![],
        }],
    })
    .unwrap();
    let records = db.list_records(batch_id, Some(carton_id)).unwrap();
    assert_eq!((records[0].barcode.as_str(), records[0].quantity), ("NEW", 2));
    assert_eq!(records[0].exception_reason, "污渍");
}

#[test]
fn deletes_batch_and_all_rows() {
    let mut db = setup();
    let batch_id = batch(&mut db);
    let carton_id = db.create_carton(batch_id, "1".into()).unwrap();
    db.create_record(input(batch_id, carton_id, "001", "A", 1)).unwrap();
    db.delete_batch(batch_id).unwrap();
    assert!(db.list_batches().unwrap().is_empty());
    assert!(db.list_records(batch_id, None).unwrap().is_empty());
}

#[test]
fn batches_are_listed_newest_first_and_numbers_are_trimmed() {
    let mut db = setup();
    let a = db.create_batch(BatchInput { batch_no: "  A-1 ".into(), inspection_date: "2026-01-02".into() }).unwrap();
    let b = db.create_batch(BatchInput { batch_no: "B-2".into(), inspection_date: "2026-01-03".into() }).unwrap();
    assert_eq!((a, b), (1, 2));
    let list = db.list_batches().unwrap();
    assert_eq!(list.len(), 2);
    assert_eq!(list[0].id, 2);
    assert_eq!(list[1].batch_no, "A-1");
    assert_eq!(list[1].inspection_date, "2026-01-02");
}

#[test]
fn batch_errors() {
    let mut db = setup();
    assert_eq!(
        db.create_batch(BatchInput { batch_no: "   ".into(), inspection_date: String::new() }),
        Err(QaError::BatchNoRequired)
    );
    db.create_batch(BatchInput { batch_no: "X".into(), inspection_date: String::new() }).unwrap();
    let dup = db.create_batch(BatchInput { batch_no: " X ".into(), inspection_date: String::new() });
    assert_eq!(dup, Err(QaError::DuplicateBatchNo));
    assert_eq!(result::<i64>(dup), Err("UNIQUE constraint failed: batches.batch_no".to_string()));
    assert_eq!(db.delete_batch(99), Err(QaError::BatchNotFound));
    assert_eq!(QaError::BatchNotFound.message(), "Batch not found");
}

#[test]
fn carton_errors() {
    let mut db = setup();
    let batch_id = batch(&mut db);
    assert_eq!(db.create_carton(batch_id, " ".into()), Err(QaError::CartonNoRequired));
    assert_eq!(db.create_carton(batch_id + 7, "5".into()), Err(QaError::ForeignKey));
    assert_eq!(db.create_carton(batch_id, " 5 ".into()), Ok(1));
    assert_eq!(db.create_carton(batch_id, "5".into()), Err(QaError::DuplicateCartonNo));
    let cartons = db.list_cartons(batch_id).unwrap();
    assert_eq!(cartons[0].carton_no, "5");
    assert_eq!(cartons[0].status, "inspecting");
    assert_eq!(cartons[0].reference_qty, None);
}

#[test]
fn cartons_are_listed_by_number_value() {
    let mut db = setup();
    let batch_id = batch(&mut db);
    for no in ["10", "9", "A", "2"] {
        db.create_carton(batch_id, no.into()).unwrap();
    }
    let names: Vec<String> = db.list_cartons(batch_id).unwrap().into_iter().map(|c| c.carton_no).collect();
    assert_eq!(names, vec!["A", "2", "9", "10"]);
}

#[test]
fn record_errors_leave_the_store_unchanged() {
    let mut db = setup();
    let batch_id = batch(&mut db);
    let carton_id = db.create_carton(batch_id, "1".into()).unwrap();
    assert_eq!(db.create_record(input(batch_id, carton_id, " ", "A", 1)).err(), Some(QaError::BarcodeRequired));
    assert_eq!(db.create_record(input(batch_id, carton_id, "X", "E", 1)).err(), Some(QaError::InvalidGrade));
    assert_eq!(db.create_record(input(batch_id, carton_id, "X", "A", 0)).err(), Some(QaError::QuantityNotPositive));
    assert_eq!(db.create_record(input(batch_id, carton_id + 1, "X", "A", 1)).err(), Some(QaError::CartonNotFound));
    let mut many = input(batch_id, carton_id, "X", "A", 1);
    for _ in 0..4 {
        many.photos.push(PhotoInput { name: "a.png".into(), data_base64: PNG.into() });
    }
    assert_eq!(db.create_record(many).err(), Some(QaError::TooManyPhotos));
    let mut gif = input(batch_id, carton_id, "X", "A", 1);
    gif.photos.push(PhotoInput { name: "a.GIF".into(), data_base64: PNG.into() });
    assert_eq!(db.create_record(gif).err(), Some(QaError::UnsupportedImage));
    let mut bad = input(batch_id, carton_id, "X", "A", 1);
    bad.photos.push(PhotoInput { name: "a.png".into(), data_base64: "@@@".into() });
    assert!(matches!(db.create_record(bad), Err(QaError::InvalidBase64(_))));
    assert!(db.list_records(batch_id, Some(carton_id)).unwrap().is_empty());
}

#[test]
fn photos_are_planned_under_the_record_directory() {
    let mut db = setup();
    let batch_id = batch(&mut db);
    let carton_id = db.create_carton(batch_id, "1".into()).unwrap();
    let mut rec = input(batch_id, carton_id, " SKU ", "C", 1);
    rec.photos.push(PhotoInput { name: "dir/Photo.PNG".into(), data_base64: PNG.into() });
    rec.photos.push(PhotoInput { name: "noext".into(), data_base64: PNG.into() });
    let (id, files) = db.create_record(rec).unwrap();
    assert_eq!(files.len(), 2);
    assert!(files[0].path.starts_with("/data/photos/1/1_"));
    assert!(files[0].path.ends_with(".png"));
    assert!(files[1].path.starts_with("/data/photos/1/2_"));
    assert!(files[1].path.ends_with(".jpg"));
    for f in &files {
        let name = &f.path["/data/photos/1/1_".len()..f.path.len() - 4];
        let chars: Vec<char> = name.chars().collect();
        assert_eq!(chars.len(), 36);
        for (i, c) in chars.iter().enumerate() {
            if i == 8 || i == 13 || i == 18 || i == 23 {
                assert_eq!(*c, '-');
            } else {
                assert!(c.is_ascii_digit() || ('a'..='f').contains(c));
            }
        }
        assert_eq!(chars[14], '4');
        assert!(['8', '9', 'a', 'b'].contains(&chars[19]));
    }
    assert_ne!(files[0].path, files[1].path);
    assert_eq!(files[0].bytes.len(), 68);
    assert_eq!(&files[0].bytes[1..4], b"PNG");
    let photos = db.photos_for_record(id).unwrap();
    assert_eq!(photos.len(), 2);
    assert_eq!(photos[0].photo_order, 1);
    assert_eq!(photos[0].file_path, files[0].path);
    let records = db.list_records(batch_id, Some(carton_id)).unwrap();
    assert_eq!(records[0].barcode, "SKU");
    assert_eq!(records[0].carton_no, "1");
}

#[test]
fn deleting_a_batch_names_its_photo_files() {
    let mut db = setup();
    let keep = batch(&mut db);
    let gone = batch(&mut db);
    let c1 = db.create_carton(keep, "1".into()).unwrap();
    let c2 = db.create_carton(gone, "1".into()).unwrap();
    let mut r1 = input(keep, c1, "K", "A", 1);
    r1.photos.push(PhotoInput { name: "k.jpg".into(), data_base64: PNG.into() });
    let mut r2 = input(gone, c2, "G", "B", 1);
    r2.photos.push(PhotoInput { name: "g.jpeg".into(), data_base64: PNG.into() });
    db.create_record(r1).unwrap();
    let (_, files) = db.create_record(r2).unwrap();
    let removed = db.delete_batch(gone).unwrap();
    assert_eq!(removed, vec![files[0].path.clone()]);
    assert_eq!(db.list_batches().unwrap().len(), 1);
    assert_eq!(db.list_records(keep, None).unwrap().len(), 1);
    assert!(db.list_cartons(gone).unwrap().is_empty());
}

#[test]
fn complete_and_reopen() {
    let mut db = setup();
    let batch_id = batch(&mut db);
    let carton_id = db.create_carton(batch_id, "1".into()).unwrap();
    assert_eq!(db.complete_carton(carton_id), Err(QaError::NoInspectionRecords));
    assert_eq!(
        QaError::NoInspectionRecords.message(),
        "This carton has no inspection records"
    );
    db.create_record(input(batch_id, carton_id, "X", "A", 2)).unwrap();
    db.complete_carton(carton_id).unwrap();
    assert_eq!(db.list_cartons(batch_id).unwrap()[0].status, "completed");
    db.reopen_carton(carton_id).unwrap();
    assert_eq!(db.list_cartons(batch_id).unwrap()[0].status, "inspecting");
}

#[test]
fn replace_adds_new_records_and_drops_unnamed_ones() {
    let mut db = setup();
    let batch_id = batch(&mut db);
    let carton_id = db.create_carton(batch_id, "1".into()).unwrap();
    let mut old = input(batch_id, carton_id, "OLD", "B", 1);
    old.photos.push(PhotoInput { name: "o.png".into(), data_base64: PNG.into() });
    let (_, old_files) = db.create_record(old).unwrap();
    let (keep, _) = db.create_record(input(batch_id, carton_id, "KEEP", "A", 4)).unwrap();
    let (written, removed) = db
        .replace_carton_records(ReplaceCartonRecordsInput {
            batch_id,
            carton_id,
            records: vec![
                RecordEditInput {
                    id: Some(keep),
                    barcode: " KEEP2 ".into(),
                    grade: "A".into(),
                    quantity: 5,
                    exception_reason: String::new(),
                    photos: vec![],
                },
                RecordEditInput {
                    id: None,
                    barcode: "FRESH".into(),
                    grade: "D".into(),
                    quantity: 1,
                    exception_reason: "torn".into(),
                    photos: vec![PhotoInput { name: "f.jpg".into(), data_base64: PNG.into() }],
                },
            ],
        })
        .unwrap();
    assert_eq!(removed, vec![old_files[0].path.clone()]);
    assert_eq!(written.len(), 1);
    assert!(written[0].path.starts_with("/data/photos/3/1_"));
    let records = db.list_records(batch_id, Some(carton_id)).unwrap();
    assert_eq!(records.len(), 2);
    assert_eq!((records[0].id, records[0].barcode.as_str(), records[0].quantity), (keep, "KEEP2", 5));
    assert_eq!((records[1].id, records[1].barcode.as_str()), (3, "FRESH"));
    assert_eq!(db.photos_for_record(records[1].id).unwrap().len(), 1);
}

#[test]
fn replace_refusals_change_nothing() {
    let mut db = setup();
    let batch_id = batch(&mut db);
    let carton_id = db.create_carton(batch_id, "1".into()).unwrap();
    let (id, _) = db.create_record(input(batch_id, carton_id, "OLD", "A", 1)).unwrap();
    let edit = |id: Option<i64>, grade: &str| RecordEditInput {
        id,
        barcode: "NEW".into(),
        grade: grade.into(),
        quantity: 1,
        exception_reason: String::new(),
        photos: vec![],
    };
    let refused = db.replace_carton_records(ReplaceCartonRecordsInput {
        batch_id,
        carton_id,
        records: vec![edit(Some(id), "A"), edit(None, "Z")],
    });
    assert_eq!(refused.err(), Some(QaError::InvalidGrade));
    let unknown = db.replace_carton_records(ReplaceCartonRecordsInput {
        batch_id,
        carton_id,
        records: vec![edit(Some(id + 10), "A")],
    });
    assert_eq!(unknown.err(), Some(QaError::InvalidRecord));
    let no_carton = db.replace_carton_records(ReplaceCartonRecordsInput {
        batch_id,
        carton_id: carton_id + 1,
        records: vec![],
    });
    assert_eq!(no_carton.err(), Some(QaError::CartonNotFound));
    let records = db.list_records(batch_id, Some(carton_id)).unwrap();
    assert_eq!(records.len(), 1);
    assert_eq!(records[0].barcode, "OLD");
}

#[test]
fn import_updates_existing_cartons_and_counts() {
    let mut db = setup();
    let batch_id = batch(&mut db);
    db.create_carton(batch_id, "2".into()).unwrap();
    let r = db
        .import_cartons(
            batch_id,
            vec![imported(" 2 ", "U1", 3), imported("1", " U2 ", 4), imported("2", "U3", 5)],
        )
        .unwrap();
    assert_eq!((r.imported, r.created, r.updated, r.products), (2, 1, 1, 3));
    let cartons = db.list_cartons(batch_id).unwrap();
    assert_eq!(cartons[0].carton_no, "1");
    assert_eq!(cartons[0].reference_qty, Some(4));
    assert_eq!(cartons[1].reference_qty, Some(8));
    let products = db.list_carton_products(cartons[1].id).unwrap();
    assert_eq!(products.len(), 2);
    assert_eq!(products[0].upc, "U1");
    assert_eq!(products[1].upc, "U3");
    assert_eq!(db.list_carton_products(cartons[0].id).unwrap()[0].upc, "U2");
}

#[test]
fn import_refusals() {
    let mut db = setup();
    let batch_id = batch(&mut db);
    assert_eq!(db.import_cartons(batch_id, vec![]).map(|r| r.imported), Err(QaError::EmptyImport));
    assert_eq!(
        db.import_cartons(batch_id, vec![imported("1", "U", 0)]).map(|r| r.imported),
        Err(QaError::InvalidImportRow)
    );
    assert_eq!(
        db.import_cartons(batch_id, vec![imported("1", "U", 1), imported("1", " U", 2)]).map(|r| r.imported),
        Err(QaError::DuplicateProductUpc)
    );
    assert_eq!(
        db.import_cartons(batch_id + 5, vec![imported("1", "U", 1)]).map(|r| r.imported),
        Err(QaError::ForeignKey)
    );
    assert!(db.list_cartons(batch_id).unwrap().is_empty());
}

#[test]
fn import_sums_must_fit() {
    assert!(import_sums_fit(&vec![imported("1", "U", i64::MAX), imported("2", "V", i64::MAX)]));
    assert!(!import_sums_fit(&vec![imported("1", "U", i64::MAX), imported(" 1", "V", 1)]));
    assert!(import_sums_fit(&vec![imported("1", "U", 0), imported("1", "V", i64::MAX)]));
}

#[test]
fn totals_out_of_range_are_refused() {
    let mut db = setup();
    let batch_id = batch(&mut db);
    let carton_id = db.create_carton(batch_id, "1".into()).unwrap();
    db.create_record(input(batch_id, carton_id, "X", "A", i64::MAX)).unwrap();
    db.create_record(input(batch_id, carton_id, "Y", "B", 1)).unwrap();
    assert_eq!(db.list_cartons(batch_id).err(), Some(QaError::IntegerOverflow));
    assert_eq!(db.complete_carton(carton_id), Err(QaError::IntegerOverflow));
    assert_eq!(db.export_plan(batch_id).err().map(|e| e.message()), Some("integer overflow".to_string()));
}

#[test]
fn tables_round_trip_and_broken_tables_are_refused() {
    let mut db = setup();
    let batch_id = batch(&mut db);
    let carton_id = db.create_carton(batch_id, "1".into()).unwrap();
    let mut rec = input(batch_id, carton_id, "X", "C", 2);
    rec.photos.push(PhotoInput { name: "p.png".into(), data_base64: PNG.into() });
    db.create_record(rec).unwrap();
    let (b, c, p, r, ph) = db.tables();
    assert_eq!((b.len(), c.len(), p.len(), r.len(), ph.len()), (1, 1, 0, 1, 1));
    let back = Database::load("/data/photos".into(), '/', b, c, p, r, ph).unwrap();
    assert_eq!(back.list_records(batch_id, Some(carton_id)).unwrap()[0].quantity, 2);
    let (b, mut c, p, r, ph) = back.tables();
    c[0].batch_id = batch_id + 1;
    assert_eq!(
        Database::load("/data/photos".into(), '/', b, c, p, r, ph).err().map(|e| e.message()),
        Some("The stored tables do not keep their constraints".to_string())
    );
}

#[test]
fn ids_that_run_out_are_refused() {
    let (mut b, c, p, r, ph) = setup().tables();
    b.push(clothes_qa::models::Batch { id: i64::MAX, batch_no: "LAST".into(), inspection_date: String::new() });
    let mut db = Database::load("/p".into(), '/', b, c, p, r, ph).unwrap();
    let refused = db.create_batch(BatchInput { batch_no: "NEXT".into(), inspection_date: String::new() });
    assert_eq!(refused, Err(QaError::StorageFull));
    assert_eq!(QaError::StorageFull.message(), "database or disk is full");
}

#[test]
fn deleting_a_new_batch_leaves_the_rest() {
    let mut db = setup();
    let keep = batch(&mut db);
    let c = db.create_carton(keep, "1".into()).unwrap();
    db.create_record(input(keep, c, "X", "A", 1)).unwrap();
    let fresh = batch(&mut db);
    assert_eq!(db.delete_batch(fresh), Ok(vec![]));
    assert_eq!(db.list_batches().unwrap().len(), 1);
    assert_eq!(db.list_records(keep, Some(c)).unwrap().len(), 1);
}

fn listed(db: &Database, batch_id: i64, carton_id: Option<i64>) -> Vec<(i64, i64, String, i64)> {
    db.list_records(batch_id, carton_id)
        .unwrap()
        .into_iter()
        .map(|r| (r.id, r.carton_id, r.barcode, r.quantity))
        .collect()
}

#[test]
fn carton_listing_is_the_batch_listing_filtered() {
    let mut db = setup();
    let batch_id = batch(&mut db);
    let c10 = db.create_carton(batch_id, "10".into()).unwrap();
    let c2 = db.create_carton(batch_id, "2".into()).unwrap();
    db.create_record(input(batch_id, c10, "X1", "A", 1)).unwrap();
    db.create_record(input(batch_id, c2, "Y1", "B", 2)).unwrap();
    db.create_record(input(batch_id, c10, "X2", "C", 1)).unwrap();
    db.create_record(input(batch_id, c2, "Y2", "D", 1)).unwrap();
    let all = listed(&db, batch_id, None);
    assert_eq!(all.iter().map(|r| r.2.as_str()).collect::<Vec<_>>(), vec!["Y1", "Y2", "X1", "X2"]);
    for c in [c10, c2] {
        let filtered: Vec<_> = all.iter().filter(|r| r.1 == c).cloned().collect();
        assert_eq!(filtered, listed(&db, batch_id, Some(c)));
    }
}

#[test]
fn carton_edit_leaves_other_cartons_alone() {
    let mut db = setup();
    let batch_id = batch(&mut db);
    let edited = db.create_carton(batch_id, "1".into()).unwrap();
    let other = db.create_carton(batch_id, "2".into()).unwrap();
    let mut kept = input(batch_id, other, "KEEP", "C", 1);
    kept.photos.push(PhotoInput { name: "k.png".into(), data_base64: PNG.into() });
    let (kept_id, _) = db.create_record(kept).unwrap();
    db.create_record(input(batch_id, edited, "GONE", "A", 1)).unwrap();
    let before = listed(&db, batch_id, Some(other));
    let photos_before: Vec<_> = db.photos_for_record(kept_id).unwrap().into_iter().map(|p| p.file_path).collect();
    db.replace_carton_records(ReplaceCartonRecordsInput {
        batch_id,
        carton_id: edited,
        records: vec![RecordEditInput {
            id: None,
            barcode: "NEW".into(),
            grade: "B".into(),
            quantity: 3,
            exception_reason: String::new(),
            photos: vec![PhotoInput { name: "n.jpg".into(), data_base64: PNG.into() }],
        }],
    })
    .unwrap();
    assert_eq!(listed(&db, batch_id, Some(other)), before);
    let photos_after: Vec<_> = db.photos_for_record(kept_id).unwrap().into_iter().map(|p| p.file_path).collect();
    assert_eq!(photos_after, photos_before);
    assert_eq!(listed(&db, batch_id, Some(edited)).iter().map(|r| r.2.as_str()).collect::<Vec<_>>(), vec!["NEW"]);
    assert_eq!(db.list_cartons(batch_id).unwrap().len(), 2);
}

#[test]
fn importing_the_same_rows_twice_finds_every_carton() {
    let mut db = setup();
    let batch_id = batch(&mut db);
    let rows = || vec![imported(" 7 ", "111", 5), imported("7", "222", 3), imported("8", "333", 4)];
    let first = db.import_cartons(batch_id, rows()).unwrap();
    assert_eq!((first.imported, first.created, first.updated), (2, 2, 0));
    let cartons = |db: &Database| {
        db.list_cartons(batch_id)
            .unwrap()
            .into_iter()
            .map(|c| (c.id, c.carton_no, c.reference_qty))
            .collect::<Vec<_>>()
    };
    let before = cartons(&db);
    let second = db.import_cartons(batch_id, rows()).unwrap();
    assert_eq!((second.imported, second.created, second.updated), (2, 0, 2));
    assert_eq!(cartons(&db), before);
    assert_eq!(before[0].2, Some(8));
    let products: Vec<_> = db.list_carton_products(before[0].0).unwrap().into_iter().map(|p| p.upc).collect();
    assert_eq!(products, vec!["111".to_string(), "222".to_string()]);
}
