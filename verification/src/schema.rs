//! The tables of the store and their constraints, and what each operation
//! of the application does to them, stated over their views.

use vstd::prelude::*;
use crate::error::ErrorModel;
use crate::models::{
    Batch, BatchModel, Carton, CartonProduct, CartonProductModel, CartonSummary, PhotoRow, PhotoRowModel,
    RecordRow, RecordRowModel, PhotoInputModel, RecordInputModel, RecordEditModel,
};
use crate::photos::PhotoFile;
use crate::order::{sql_cast_int, text_le};
use crate::photos::{base64_decoded, photo_plan_spec};
use crate::text::trim_spec;
use crate::validate::{valid_grade, validate_record_spec};

verus! {

broadcast use vstd::seq_lib::group_filter_ensures;

/// A row of the carton table.
pub struct CartonRow {
    pub id: i64,
    pub batch_id: i64,
    pub carton_no: String,
    pub reference_qty: Option<i64>,
    pub status: String,
}

pub struct CartonModel {
    pub id: i64,
    pub batch_id: i64,
    pub carton_no: Seq<char>,
    pub reference_qty: Option<i64>,
    pub status: Seq<char>,
}

impl View for CartonRow {
    type V = CartonModel;

    open spec fn view(&self) -> CartonModel {
        CartonModel {
            id: self.id,
            batch_id: self.batch_id,
            carton_no: self.carton_no@,
            reference_qty: self.reference_qty,
            status: self.status@,
        }
    }
}

impl CartonRow {
    pub fn duplicate(&self) -> (r: CartonRow)
        ensures
            r == *self,
    {
        CartonRow {
            id: self.id,
            batch_id: self.batch_id,
            carton_no: self.carton_no.clone(),
            reference_qty: self.reference_qty,
            status: self.status.clone(),
        }
    }
}

/// A row of the carton product table.
pub struct ProductRow {
    pub id: i64,
    pub carton_id: i64,
    pub upc: String,
    pub item_no: String,
    pub color_name: String,
    pub color_no: String,
    pub description: String,
    pub size_dimension: String,
    pub carton_count: Option<i64>,
    pub units_per_carton: i64,
    pub total_units: Option<i64>,
    pub source_order: i64,
}

pub struct ProductModel {
    pub id: i64,
    pub carton_id: i64,
    pub upc: Seq<char>,
    pub item_no: Seq<char>,
    pub color_name: Seq<char>,
    pub color_no: Seq<char>,
    pub description: Seq<char>,
    pub size_dimension: Seq<char>,
    pub carton_count: Option<i64>,
    pub units_per_carton: i64,
    pub total_units: Option<i64>,
    pub source_order: i64,
}

impl View for ProductRow {
    type V = ProductModel;

    open spec fn view(&self) -> ProductModel {
        ProductModel {
            id: self.id,
            carton_id: self.carton_id,
            upc: self.upc@,
            item_no: self.item_no@,
            color_name: self.color_name@,
            color_no: self.color_no@,
            description: self.description@,
            size_dimension: self.size_dimension@,
            carton_count: self.carton_count,
            units_per_carton: self.units_per_carton,
            total_units: self.total_units,
            source_order: self.source_order,
        }
    }
}

impl ProductRow {
    pub fn duplicate(&self) -> (r: ProductRow)
        ensures
            r == *self,
    {
        ProductRow {
            id: self.id,
            carton_id: self.carton_id,
            upc: self.upc.clone(),
            item_no: self.item_no.clone(),
            color_name: self.color_name.clone(),
            color_no: self.color_no.clone(),
            description: self.description.clone(),
            size_dimension: self.size_dimension.clone(),
            carton_count: self.carton_count,
            units_per_carton: self.units_per_carton,
            total_units: self.total_units,
            source_order: self.source_order,
        }
    }
}

/// A row of the inspection record table.
pub struct InspectionRow {
    pub id: i64,
    pub batch_id: i64,
    pub carton_id: i64,
    pub barcode: String,
    pub grade: String,
    pub quantity: i64,
    pub exception_reason: String,
}

pub struct RecordModel {
    pub id: i64,
    pub batch_id: i64,
    pub carton_id: i64,
    pub barcode: Seq<char>,
    pub grade: Seq<char>,
    pub quantity: i64,
    pub exception_reason: Seq<char>,
}

impl View for InspectionRow {
    type V = RecordModel;

    open spec fn view(&self) -> RecordModel {
        RecordModel {
            id: self.id,
            batch_id: self.batch_id,
            carton_id: self.carton_id,
            barcode: self.barcode@,
            grade: self.grade@,
            quantity: self.quantity,
            exception_reason: self.exception_reason@,
        }
    }
}

impl InspectionRow {
    pub fn duplicate(&self) -> (r: InspectionRow)
        ensures
            r == *self,
    {
        InspectionRow {
            id: self.id,
            batch_id: self.batch_id,
            carton_id: self.carton_id,
            barcode: self.barcode.clone(),
            grade: self.grade.clone(),
            quantity: self.quantity,
            exception_reason: self.exception_reason.clone(),
        }
    }
}

/// A row of the image table.
pub struct PhotoEntry {
    pub id: i64,
    pub record_id: i64,
    pub photo_order: i64,
    pub file_path: String,
}

pub struct PhotoModel {
    pub id: i64,
    pub record_id: i64,
    pub photo_order: i64,
    pub file_path: Seq<char>,
}

impl View for PhotoEntry {
    type V = PhotoModel;

    open spec fn view(&self) -> PhotoModel {
        PhotoModel {
            id: self.id,
            record_id: self.record_id,
            photo_order: self.photo_order,
            file_path: self.file_path@,
        }
    }
}

impl PhotoEntry {
    pub fn duplicate(&self) -> (r: PhotoEntry)
        ensures
            r == *self,
    {
        PhotoEntry {
            id: self.id,
            record_id: self.record_id,
            photo_order: self.photo_order,
            file_path: self.file_path.clone(),
        }
    }
}


/// Rows that carry an id.
pub trait RowId {
    spec fn row_id(&self) -> i64;
}

impl RowId for BatchModel {
    open spec fn row_id(&self) -> i64 {
        self.id
    }
}

impl RowId for CartonModel {
    open spec fn row_id(&self) -> i64 {
        self.id
    }
}

impl RowId for ProductModel {
    open spec fn row_id(&self) -> i64 {
        self.id
    }
}

impl RowId for RecordModel {
    open spec fn row_id(&self) -> i64 {
        self.id
    }
}

impl RowId for PhotoModel {
    open spec fn row_id(&self) -> i64 {
        self.id
    }
}

/// Ids strictly increasing along the table.
pub open spec fn ascending<T: RowId>(s: Seq<T>) -> bool {
    forall|i: int, j: int| 0 <= i < j < s.len() ==> s[i].row_id() < s[j].row_id()
}

/// The id a new row gets: one more than the largest, 1 in an empty table.
pub open spec fn next_id<T: RowId>(s: Seq<T>) -> int {
    if s.len() == 0 {
        1
    } else {
        s.last().row_id() + 1
    }
}

pub proof fn lemma_push_ascending<T: RowId>(s: Seq<T>, x: T)
    requires
        ascending(s),
        x.row_id() == next_id(s),
    ensures
        ascending(s.push(x)),
        next_id(s.push(x)) == x.row_id() + 1,
{
    assert forall|i: int, j: int| 0 <= i < j < s.len() + 1 implies s.push(x)[i].row_id() < s.push(
        x,
    )[j].row_id() by {
        if j == s.len() {
            if i < s.len() - 1 {
                assert(s[i].row_id() < s[s.len() - 1].row_id());
            }
        }
    }
}

pub proof fn lemma_ascending_unique<T: RowId>(s: Seq<T>, i: int, j: int)
    requires
        ascending(s),
        0 <= i < s.len(),
        0 <= j < s.len(),
        s[i].row_id() == s[j].row_id(),
    ensures
        i == j,
{
    if i < j {
        assert(s[i].row_id() < s[j].row_id());
    } else if j < i {
        assert(s[j].row_id() < s[i].row_id());
    }
}

/// Every element of `s.filter(p)` is an element of `s` that `p` keeps, and
/// the filter keeps ids increasing.
pub proof fn lemma_filter_rows<T: RowId>(s: Seq<T>, p: spec_fn(T) -> bool)
    requires
        ascending(s),
    ensures
        ascending(s.filter(p)),
        forall|i: int| 0 <= i < s.filter(p).len() ==> s.contains(#[trigger] s.filter(p)[i]),
        forall|i: int| 0 <= i < s.filter(p).len() ==> p(#[trigger] s.filter(p)[i]),
        forall|i: int| 0 <= i < s.len() && p(#[trigger] s[i]) ==> s.filter(p).contains(s[i]),
        s.filter(p).len() == 0 || s.len() > 0 && s.filter(p).last().row_id() <= s.last().row_id(),
    decreases s.len(),
{
    reveal(Seq::filter);
    if s.len() > 0 {
        let r = s.drop_last();
        assert(ascending(r));
        lemma_filter_rows(r, p);
        assert forall|i: int| 0 <= i < s.filter(p).len() implies s.contains(#[trigger] s.filter(p)[i]) by {
            s.lemma_filter_contains_rev(p, s.filter(p)[i]);
        }
        if p(s.last()) {
            assert forall|i: int| 0 <= i < r.filter(p).len() implies r.filter(p)[i].row_id() < s.last().row_id() by {
                let x = r.filter(p)[i];
                assert(r.contains(x));
                let k = choose|k: int| 0 <= k < r.len() && r[k] == x;
                assert(s[k] == x);
            }
            assert(ascending(s.filter(p))) by {
                let f = r.filter(p);
                assert(s.filter(p) == f.push(s.last()));
                assert forall|i: int, j: int| 0 <= i < j < f.len() + 1 implies f.push(s.last())[i].row_id()
                    < f.push(s.last())[j].row_id() by {
                    if j == f.len() {
                        assert(f.push(s.last())[i] == f[i]);
                    }
                }
            }
        } else {
            assert(s.filter(p) == r.filter(p));
            if r.filter(p).len() > 0 {
                assert(r.last().row_id() < s.last().row_id());
            }
        }
    }
}

/// The contents of the store: each table in increasing order of `id`, the
/// directory images are kept under and the path separator.
pub struct DbModel {
    pub batches: Seq<BatchModel>,
    pub cartons: Seq<CartonModel>,
    pub products: Seq<ProductModel>,
    pub records: Seq<RecordModel>,
    pub photos: Seq<PhotoModel>,
    pub photo_dir: Seq<char>,
    pub sep: char,
}

/// An image file to write: its path and its bytes.
pub struct FileModel {
    pub path: Seq<char>,
    pub bytes: Seq<u8>,
}

impl View for PhotoFile {
    type V = FileModel;

    open spec fn view(&self) -> FileModel {
        FileModel { path: self.path@, bytes: self.bytes@ }
    }
}

pub open spec fn file_views(s: Seq<PhotoFile>) -> Seq<FileModel> {
    s.map_values(|f: PhotoFile| f@)
}

pub open spec fn status_inspecting() -> Seq<char> {
    "inspecting"@
}

pub open spec fn status_completed() -> Seq<char> {
    "completed"@
}

/// The total quantity of the records of carton `cid`.
pub open spec fn carton_qty(rs: Seq<RecordModel>, cid: i64) -> int
    decreases rs.len(),
{
    if rs.len() == 0 {
        0
    } else {
        carton_qty(rs.drop_last(), cid) + if rs.last().carton_id == cid {
            rs.last().quantity as int
        } else {
            0
        }
    }
}

/// The total quantity of the records of carton `cid` with grade `g`.
pub open spec fn grade_qty(rs: Seq<RecordModel>, cid: i64, g: Seq<char>) -> int
    decreases rs.len(),
{
    if rs.len() == 0 {
        0
    } else {
        grade_qty(rs.drop_last(), cid, g) + if rs.last().carton_id == cid && rs.last().grade == g {
            rs.last().quantity as int
        } else {
            0
        }
    }
}

/// The image rows of record `record_id` for the planned files, numbered from 1,
/// their ids from `first_id`.
pub open spec fn photo_rows(files: Seq<FileModel>, record_id: i64, first_id: int) -> Seq<PhotoModel> {
    Seq::new(
        files.len(),
        |i: int|
            PhotoModel {
                id: (first_id + i) as i64,
                record_id,
                photo_order: (i + 1) as i64,
                file_path: files[i].path,
            },
    )
}

/// The files of the images of a record, in order, or the first image that is
/// refused; the image rows get ids from `first_id`, which must stay in range.
pub open spec fn plan_photos(
    dir: Seq<char>,
    sep: char,
    record_id: i64,
    photos: Seq<PhotoInputModel>,
    uuids: Seq<Seq<char>>,
    first_id: int,
) -> Result<Seq<FileModel>, ErrorModel>
    decreases photos.len(),
{
    if photos.len() == 0 {
        Ok(seq![])
    } else {
        match plan_photos(dir, sep, record_id, photos.drop_last(), uuids, first_id) {
            Err(e) => Err(e),
            Ok(v) => {
                let i = photos.len() - 1;
                match photo_plan_spec(
                    dir,
                    sep,
                    record_id,
                    (i + 1) as nat,
                    uuids[i],
                    photos[i].name,
                    base64_decoded(photos[i].data),
                ) {
                    Err(e) => Err(e),
                    Ok((path, bytes)) => if first_id + i > i64::MAX {
                        Err(ErrorModel::StorageFull)
                    } else {
                        Ok(v.push(FileModel { path, bytes }))
                    },
                }
            },
        }
    }
}

/// The state an edit of a carton's records works on: the store, the files to
/// write and the files to remove.
pub struct EditState {
    pub db: DbModel,
    pub to_write: Seq<FileModel>,
    pub to_remove: Seq<Seq<char>>,
}

pub open spec fn status_setter(id: i64, status: Seq<char>) -> spec_fn(CartonModel) -> CartonModel {
    |c: CartonModel|
        if c.id == id {
            CartonModel { status, ..c }
        } else {
            c
        }
}

pub open spec fn batch_other_than(id: i64) -> spec_fn(BatchModel) -> bool {
    |b: BatchModel| b.id != id
}

pub open spec fn carton_outside_batch(id: i64) -> spec_fn(CartonModel) -> bool {
    |c: CartonModel| c.batch_id != id
}

pub open spec fn carton_in_batch_pred(id: i64) -> spec_fn(CartonModel) -> bool {
    |c: CartonModel| c.batch_id == id
}

pub open spec fn record_outside_batch(id: i64) -> spec_fn(RecordModel) -> bool {
    |r: RecordModel| r.batch_id != id
}

pub open spec fn photo_paths(s: Seq<PhotoModel>) -> Seq<Seq<char>> {
    s.map_values(|p: PhotoModel| p.file_path)
}

pub open spec fn seq_has_batch(s: Seq<BatchModel>, id: i64) -> bool {
    exists|k: int| 0 <= k < s.len() && #[trigger] s[k].id == id
}

pub open spec fn seq_has_carton_in(s: Seq<CartonModel>, id: i64, batch_id: i64) -> bool {
    exists|k: int| 0 <= k < s.len() && #[trigger] s[k].id == id && s[k].batch_id == batch_id
}

pub open spec fn seq_has_carton(s: Seq<CartonModel>, id: i64) -> bool {
    exists|k: int| 0 <= k < s.len() && #[trigger] s[k].id == id
}

pub open spec fn seq_has_record(s: Seq<RecordModel>, id: i64) -> bool {
    exists|k: int| 0 <= k < s.len() && #[trigger] s[k].id == id
}

impl DbModel {
    pub open spec fn has_batch(self, id: i64) -> bool {
        seq_has_batch(self.batches, id)
    }

    pub open spec fn has_carton_in(self, id: i64, batch_id: i64) -> bool {
        seq_has_carton_in(self.cartons, id, batch_id)
    }

    pub open spec fn has_carton(self, id: i64) -> bool {
        seq_has_carton(self.cartons, id)
    }

    /// The constraints of the schema (foreign keys, uniqueness, checks), ids
    /// increasing along each table, and each record in a carton of its batch.
    pub open spec fn wf(self) -> bool {
        &&& self.wf_ids()
        &&& self.wf_batches()
        &&& self.wf_cartons()
        &&& self.wf_products()
        &&& self.wf_records()
        &&& self.wf_photos()
    }

    pub open spec fn wf_ids(self) -> bool {
        &&& ascending(self.batches)
        &&& ascending(self.cartons)
        &&& ascending(self.products)
        &&& ascending(self.records)
        &&& ascending(self.photos)
    }

    /// Batch numbers are unique.
    pub open spec fn wf_batches(self) -> bool {
        forall|i: int, j: int|
            0 <= i < self.batches.len() && 0 <= j < self.batches.len() && #[trigger] self.batches[i].id
                != #[trigger] self.batches[j].id ==> self.batches[i].batch_no != self.batches[j].batch_no
    }

    /// Each carton is in a batch, its number unique there, its reference
    /// quantity positive where set.
    pub open spec fn wf_cartons(self) -> bool {
        &&& forall|i: int| 0 <= i < self.cartons.len() ==> seq_has_batch(self.batches, #[trigger] self.cartons[i].batch_id)
        &&& forall|i: int, j: int|
            0 <= i < self.cartons.len() && 0 <= j < self.cartons.len() && #[trigger] self.cartons[i].id
                != #[trigger] self.cartons[j].id ==> !(self.cartons[i].batch_id == self.cartons[j].batch_id
                && self.cartons[i].carton_no == self.cartons[j].carton_no)
        &&& forall|i: int|
            0 <= i < self.cartons.len() ==> (#[trigger] self.cartons[i].reference_qty matches Some(q)
                ==> q > 0)
    }

    /// Each product is in a carton, its UPC unique there, with at least one unit.
    pub open spec fn wf_products(self) -> bool {
        &&& forall|i: int|
            0 <= i < self.products.len() ==> seq_has_carton(self.cartons, #[trigger] self.products[i].carton_id)
                && self.products[i].units_per_carton > 0
        &&& forall|i: int, j: int|
            0 <= i < self.products.len() && 0 <= j < self.products.len() && #[trigger] self.products[i].id
                != #[trigger] self.products[j].id ==> !(self.products[i].carton_id
                == self.products[j].carton_id && self.products[i].upc == self.products[j].upc)
    }

    /// Each record is in a carton of its batch, with a valid grade and a
    /// positive quantity.
    pub open spec fn wf_records(self) -> bool {
        forall|i: int|
            0 <= i < self.records.len() ==> seq_has_carton_in(
                self.cartons,
                #[trigger] self.records[i].carton_id,
                self.records[i].batch_id,
            ) && valid_grade(self.records[i].grade) && self.records[i].quantity > 0
    }

    /// Each image belongs to a record, numbered 1 to 3, its number unique there.
    pub open spec fn wf_photos(self) -> bool {
        &&& forall|i: int|
            0 <= i < self.photos.len() ==> seq_has_record(self.records, #[trigger] self.photos[i].record_id) && 1
                <= self.photos[i].photo_order <= 3
        &&& forall|i: int, j: int|
            0 <= i < self.photos.len() && 0 <= j < self.photos.len() && #[trigger] self.photos[i].id
                != #[trigger] self.photos[j].id ==> !(self.photos[i].record_id == self.photos[j].record_id
                && self.photos[i].photo_order == self.photos[j].photo_order)
    }

    /// Adding a batch: its number is trimmed and must not be blank nor taken.
    pub open spec fn create_batch(self, batch_no: Seq<char>, inspection_date: Seq<char>) -> Result<
        (DbModel, i64),
        ErrorModel,
    > {
        let no = trim_spec(batch_no);
        let id = next_id(self.batches);
        if no.len() == 0 {
            Err(ErrorModel::BatchNoRequired)
        } else if exists|k: int| 0 <= k < self.batches.len() && #[trigger] self.batches[k].batch_no == no {
            Err(ErrorModel::DuplicateBatchNo)
        } else if id > i64::MAX {
            Err(ErrorModel::StorageFull)
        } else {
            Ok(
                (
                    DbModel {
                        batches: self.batches.push(
                            BatchModel { id: id as i64, batch_no: no, inspection_date },
                        ),
                        ..self
                    },
                    id as i64,
                ),
            )
        }
    }

    /// Adding a carton to a batch: its number is trimmed, must not be blank,
    /// the batch must exist and the number must not be taken in it. A new
    /// carton is being inspected and has no reference quantity.
    pub open spec fn create_carton(self, batch_id: i64, carton_no: Seq<char>) -> Result<
        (DbModel, i64),
        ErrorModel,
    > {
        let no = trim_spec(carton_no);
        let id = next_id(self.cartons);
        if no.len() == 0 {
            Err(ErrorModel::CartonNoRequired)
        } else if !self.has_batch(batch_id) {
            Err(ErrorModel::ForeignKey)
        } else if exists|k: int|
            0 <= k < self.cartons.len() && #[trigger] self.cartons[k].batch_id == batch_id
                && self.cartons[k].carton_no == no {
            Err(ErrorModel::DuplicateCartonNo)
        } else if id > i64::MAX {
            Err(ErrorModel::StorageFull)
        } else {
            Ok(
                (
                    DbModel {
                        cartons: self.cartons.push(
                            CartonModel {
                                id: id as i64,
                                batch_id,
                                carton_no: no,
                                reference_qty: None,
                                status: status_inspecting(),
                            },
                        ),
                        ..self
                    },
                    id as i64,
                ),
            )
        }
    }

    /// The cartons with their status replaced where the id is `id`.
    pub open spec fn set_status(self, id: i64, status: Seq<char>) -> DbModel {
        DbModel { cartons: self.cartons.map_values(status_setter(id, status)), ..self }
    }

    /// Completing a carton: refused while it has no records (or their total is
    /// out of range); its status becomes completed.
    pub open spec fn complete_carton(self, id: i64) -> Result<DbModel, ErrorModel> {
        let total = carton_qty(self.records, id);
        if total > i64::MAX {
            Err(ErrorModel::IntegerOverflow)
        } else if total == 0 {
            Err(ErrorModel::NoInspectionRecords)
        } else {
            Ok(self.set_status(id, status_completed()))
        }
    }

    /// Whether record `rid` belongs to batch `batch_id`.
    pub open spec fn record_in_batch(self, rid: i64, batch_id: i64) -> bool {
        exists|k: int| 0 <= k < self.records.len() && #[trigger] self.records[k].id == rid && self.records[k].batch_id == batch_id
    }

    /// Whether carton `cid` belongs to batch `batch_id`.
    pub open spec fn carton_in_batch(self, cid: i64, batch_id: i64) -> bool {
        exists|k: int| 0 <= k < self.cartons.len() && #[trigger] self.cartons[k].id == cid && self.cartons[k].batch_id == batch_id
    }

    /// Keeps the images whose record is not in batch `batch_id`.
    pub open spec fn photo_outside_batch(self, batch_id: i64) -> spec_fn(PhotoModel) -> bool {
        |p: PhotoModel| !self.record_in_batch(p.record_id, batch_id)
    }

    /// Keeps the images whose record is in batch `batch_id`.
    pub open spec fn photo_inside_batch(self, batch_id: i64) -> spec_fn(PhotoModel) -> bool {
        |p: PhotoModel| self.record_in_batch(p.record_id, batch_id)
    }

    /// Keeps the products whose carton is not in batch `batch_id`.
    pub open spec fn product_outside_batch(self, batch_id: i64) -> spec_fn(ProductModel) -> bool {
        |p: ProductModel| !self.carton_in_batch(p.carton_id, batch_id)
    }

    /// The image files of the records of a batch, in table order.
    pub open spec fn batch_photo_paths(self, batch_id: i64) -> Seq<Seq<char>> {
        photo_paths(self.photos.filter(self.photo_inside_batch(batch_id)))
    }

    /// Deleting a batch with its cartons, their products, its records and
    /// their images; gives the image files to remove.
    pub open spec fn delete_batch(self, id: i64) -> Result<(DbModel, Seq<Seq<char>>), ErrorModel> {
        if !self.has_batch(id) {
            Err(ErrorModel::BatchNotFound)
        } else {
            Ok(
                (
                    DbModel {
                        batches: self.batches.filter(batch_other_than(id)),
                        cartons: self.cartons.filter(carton_outside_batch(id)),
                        products: self.products.filter(self.product_outside_batch(id)),
                        records: self.records.filter(record_outside_batch(id)),
                        photos: self.photos.filter(self.photo_outside_batch(id)),
                        ..self
                    },
                    self.batch_photo_paths(id),
                ),
            )
        }
    }

    /// A carton with the totals of its records.
    pub open spec fn summary(self, c: CartonModel) -> CartonSummary {
        let total = carton_qty(self.records, c.id);
        let d = grade_qty(self.records, c.id, seq!['D']);
        CartonSummary {
            id: c.id,
            carton_no: c.carton_no,
            reference_qty: c.reference_qty,
            inspected_qty: total as i64,
            grade_a: grade_qty(self.records, c.id, seq!['A']) as i64,
            grade_b: grade_qty(self.records, c.id, seq!['B']) as i64,
            grade_c: grade_qty(self.records, c.id, seq!['C']) as i64,
            grade_d: d as i64,
            sealed_qty: (total - d) as i64,
            status: c.status,
        }
    }

    /// Whether some carton of the batch has records whose total is out of range.
    pub open spec fn batch_totals_overflow(self, batch_id: i64) -> bool {
        exists|k: int|
            0 <= k < self.cartons.len() && #[trigger] self.cartons[k].batch_id == batch_id
                && carton_qty(self.records, self.cartons[k].id) > i64::MAX
    }

    /// The cartons of a batch with their totals, in table order (listed
    /// ordered by number).
    pub open spec fn batch_summaries(self, batch_id: i64) -> Seq<CartonSummary> {
        self.cartons.filter(carton_in_batch_pred(batch_id)).map_values(self.summarizer())
    }

    pub open spec fn summarizer(self) -> spec_fn(CartonModel) -> CartonSummary {
        |c: CartonModel| self.summary(c)
    }

    /// Adding an inspection record with its images: the record is checked, its
    /// carton must be in its batch, barcode and reason are trimmed; images are
    /// numbered from 1 and stored under files named with `uuids`.
    pub open spec fn create_record(self, input: RecordInputModel, uuids: Seq<Seq<char>>) -> Result<
        (DbModel, i64, Seq<FileModel>),
        ErrorModel,
    > {
        match validate_record_spec(
            input.barcode,
            input.grade,
            input.quantity,
            input.photos.len(),
        ) {
            Err(e) => Err(e),
            Ok(_) => if !self.has_carton_in(input.carton_id, input.batch_id) {
                Err(ErrorModel::CartonNotFound)
            } else {
                let id = next_id(self.records);
                if id > i64::MAX {
                    Err(ErrorModel::StorageFull)
                } else {
                    let first = next_id(self.photos);
                    match plan_photos(self.photo_dir, self.sep, id as i64, input.photos, uuids, first) {
                        Err(e) => Err(e),
                        Ok(files) => Ok(
                            (
                                DbModel {
                                    records: self.records.push(
                                        RecordModel {
                                            id: id as i64,
                                            batch_id: input.batch_id,
                                            carton_id: input.carton_id,
                                            barcode: trim_spec(input.barcode),
                                            grade: input.grade,
                                            quantity: input.quantity,
                                            exception_reason: trim_spec(input.exception_reason),
                                        },
                                    ),
                                    photos: self.photos + photo_rows(files, id as i64, first),
                                    ..self
                                },
                                id as i64,
                                files,
                            ),
                        ),
                    }
                }
            },
        }
    }
}

/// Adding a batch keeps the constraints.
#[verifier::spinoff_prover]
pub proof fn lemma_create_batch_wf(m: DbModel, batch_no: Seq<char>, inspection_date: Seq<char>)
    requires
        m.wf(),
    ensures
        m.create_batch(batch_no, inspection_date) matches Ok((n, _)) ==> n.wf(),
{
    if let Ok((n, id)) = m.create_batch(batch_no, inspection_date) {
        let nb = n.batches.last();
        assert(n.batches == m.batches.push(nb));
        assert(n.cartons == m.cartons && n.products == m.products && n.records == m.records && n.photos == m.photos);
        lemma_push_ascending(m.batches, nb);
        assert forall|i: int| 0 <= i < n.cartons.len() implies seq_has_batch(n.batches, #[trigger] n.cartons[i].batch_id) by {
            let k = choose|k: int| 0 <= k < m.batches.len() && #[trigger] m.batches[k].id == m.cartons[i].batch_id;
            assert(n.batches[k] == m.batches[k]);
        }
        assert forall|i: int, j: int|
            0 <= i < n.batches.len() && 0 <= j < n.batches.len() && #[trigger] n.batches[i].id
                != #[trigger] n.batches[j].id implies n.batches[i].batch_no != n.batches[j].batch_no by {
            if i == m.batches.len() {
                assert(n.batches[j] == m.batches[j]);
            } else if j == m.batches.len() {
                assert(n.batches[i] == m.batches[i]);
            }
        }
        assert(n.wf_ids());
        assert(n.wf_batches());
        assert(n.wf_cartons());
        assert(n.wf_products());
        assert(n.wf_records());
        assert(n.wf_photos());
    }
}

/// One more step of a filter over a prefix.
pub proof fn lemma_filter_take_step<T>(s: Seq<T>, i: int, p: spec_fn(T) -> bool)
    requires
        0 <= i < s.len(),
    ensures
        s.take(i + 1).filter(p) == (if p(s[i]) {
            s.take(i).filter(p).push(s[i])
        } else {
            s.take(i).filter(p)
        }),
{
    assert(s.take(i + 1) =~= s.take(i).push(s[i]));
    s.take(i).lemma_filter_push(s[i], p);
}

pub open spec fn string_views(s: Seq<String>) -> Seq<Seq<char>> {
    s.map_values(|x: String| x@)
}

/// Adding a carton keeps the constraints.
#[verifier::spinoff_prover]
pub proof fn lemma_create_carton_wf(m: DbModel, batch_id: i64, carton_no: Seq<char>)
    requires
        m.wf(),
    ensures
        m.create_carton(batch_id, carton_no) matches Ok((n, _)) ==> n.wf(),
{
    if let Ok((n, id)) = m.create_carton(batch_id, carton_no) {
        let nc = n.cartons.last();
        assert(n.cartons == m.cartons.push(nc));
        assert(n.batches == m.batches && n.products == m.products && n.records == m.records && n.photos == m.photos);
        lemma_push_ascending(m.cartons, nc);
        assert(n.wf_ids());
        assert(n.wf_batches());
        assert forall|i: int, j: int|
            0 <= i < n.cartons.len() && 0 <= j < n.cartons.len() && #[trigger] n.cartons[i].id
                != #[trigger] n.cartons[j].id implies !(n.cartons[i].batch_id == n.cartons[j].batch_id
                && n.cartons[i].carton_no == n.cartons[j].carton_no) by {
            if i == m.cartons.len() {
                assert(n.cartons[j] == m.cartons[j]);
            } else if j == m.cartons.len() {
                assert(n.cartons[i] == m.cartons[i]);
            } else {
                assert(n.cartons[i] == m.cartons[i] && n.cartons[j] == m.cartons[j]);
            }
        }
        assert forall|i: int| 0 <= i < n.cartons.len() implies seq_has_batch(n.batches, #[trigger] n.cartons[i].batch_id) by {
            if i < m.cartons.len() {
                assert(n.cartons[i] == m.cartons[i]);
            }
        }
        assert forall|i: int| 0 <= i < n.cartons.len() implies (#[trigger] n.cartons[i].reference_qty matches Some(q) ==> q > 0) by {
            if i < m.cartons.len() {
                assert(n.cartons[i] == m.cartons[i]);
            }
        }
        assert(n.wf_cartons());
        assert forall|i: int| 0 <= i < n.products.len() implies seq_has_carton(n.cartons, #[trigger] n.products[i].carton_id) by {
            let k = choose|k: int| 0 <= k < m.cartons.len() && #[trigger] m.cartons[k].id == m.products[i].carton_id;
            assert(n.cartons[k] == m.cartons[k]);
        }
        assert(n.wf_products());
        assert forall|i: int| 0 <= i < n.records.len() implies seq_has_carton_in(n.cartons, #[trigger] n.records[i].carton_id, n.records[i].batch_id) by {
            let k = choose|k: int| 0 <= k < m.cartons.len() && #[trigger] m.cartons[k].id == m.records[i].carton_id && m.cartons[k].batch_id == m.records[i].batch_id;
            assert(n.cartons[k] == m.cartons[k]);
        }
        assert(n.wf_records());
        assert(n.wf_photos());
    }
}

/// Changing a carton's status keeps the constraints.
#[verifier::spinoff_prover]
pub proof fn lemma_set_status_wf(m: DbModel, id: i64, status: Seq<char>)
    requires
        m.wf(),
    ensures
        m.set_status(id, status).wf(),
        m.set_status(id, status).cartons.len() == m.cartons.len(),
        forall|i: int| 0 <= i < m.cartons.len() ==> (#[trigger] m.set_status(id, status).cartons[i]).id == m.cartons[i].id
            && m.set_status(id, status).cartons[i].batch_id == m.cartons[i].batch_id,
{
    let n = m.set_status(id, status);
    let f = status_setter(id, status);
    assert forall|i: int| 0 <= i < m.cartons.len() implies #[trigger] n.cartons[i] == f(m.cartons[i]) by {}
    assert(n.wf_ids());
    assert(n.wf_batches());
    assert(n.wf_cartons());
    assert forall|i: int| 0 <= i < n.products.len() implies seq_has_carton(n.cartons, #[trigger] n.products[i].carton_id) by {
        let k = choose|k: int| 0 <= k < m.cartons.len() && #[trigger] m.cartons[k].id == m.products[i].carton_id;
        assert(n.cartons[k].id == m.cartons[k].id);
    }
    assert(n.wf_products());
    assert forall|i: int| 0 <= i < n.records.len() implies seq_has_carton_in(n.cartons, #[trigger] n.records[i].carton_id, n.records[i].batch_id) by {
        let k = choose|k: int| 0 <= k < m.cartons.len() && #[trigger] m.cartons[k].id == m.records[i].carton_id && m.cartons[k].batch_id == m.records[i].batch_id;
        assert(n.cartons[k].id == m.cartons[k].id);
    }
    assert(n.wf_records());
    assert(n.wf_photos());
}

/// Deleting a batch keeps the constraints.
#[verifier::spinoff_prover]
pub proof fn lemma_delete_batch_wf(m: DbModel, id: i64)
    requires
        m.wf(),
    ensures
        m.delete_batch(id) matches Ok((n, _)) ==> n.wf(),
{
    if let Ok((n, _)) = m.delete_batch(id) {
        let pb = batch_other_than(id);
        let pc = carton_outside_batch(id);
        let pp = m.product_outside_batch(id);
        let pr = record_outside_batch(id);
        let ph = m.photo_outside_batch(id);
        lemma_filter_rows(m.batches, pb);
        lemma_filter_rows(m.cartons, pc);
        lemma_filter_rows(m.products, pp);
        lemma_filter_rows(m.records, pr);
        lemma_filter_rows(m.photos, ph);
        assert(n.wf_ids());
        assert forall|i: int, j: int|
            0 <= i < n.batches.len() && 0 <= j < n.batches.len() && #[trigger] n.batches[i].id
                != #[trigger] n.batches[j].id implies n.batches[i].batch_no != n.batches[j].batch_no by {
            assert(m.batches.contains(n.batches[i]));
            assert(m.batches.contains(n.batches[j]));
        }
        assert(n.wf_batches());
        assert forall|i: int| 0 <= i < n.cartons.len() implies seq_has_batch(n.batches, #[trigger] n.cartons[i].batch_id) by {
            let c = n.cartons[i];
            assert(m.cartons.contains(c));
            assert(pc(c));
            let a = choose|a: int| 0 <= a < m.cartons.len() && m.cartons[a] == c;
            assert(m.cartons[a] == c);
            let k = choose|k: int| 0 <= k < m.batches.len() && #[trigger] m.batches[k].id == m.cartons[a].batch_id;
            assert(pb(m.batches[k]));
            assert(n.batches.contains(m.batches[k]));
        }
        assert forall|i: int, j: int|
            0 <= i < n.cartons.len() && 0 <= j < n.cartons.len() && #[trigger] n.cartons[i].id
                != #[trigger] n.cartons[j].id implies !(n.cartons[i].batch_id == n.cartons[j].batch_id
                && n.cartons[i].carton_no == n.cartons[j].carton_no) by {
            assert(m.cartons.contains(n.cartons[i]));
            assert(m.cartons.contains(n.cartons[j]));
        }
        assert forall|i: int| 0 <= i < n.cartons.len() implies (#[trigger] n.cartons[i].reference_qty matches Some(q) ==> q > 0) by {
            assert(m.cartons.contains(n.cartons[i]));
        }
        assert(n.wf_cartons());
        assert forall|i: int| 0 <= i < n.products.len() implies seq_has_carton(n.cartons, #[trigger] n.products[i].carton_id)
            && n.products[i].units_per_carton > 0 by {
            let p = n.products[i];
            assert(m.products.contains(p));
            assert(pp(p));
            let a = choose|a: int| 0 <= a < m.products.len() && m.products[a] == p;
            assert(m.products[a] == p);
            let k = choose|k: int| 0 <= k < m.cartons.len() && #[trigger] m.cartons[k].id == m.products[a].carton_id;
            assert(pc(m.cartons[k]));
            assert(n.cartons.contains(m.cartons[k]));
        }
        assert forall|i: int, j: int|
            0 <= i < n.products.len() && 0 <= j < n.products.len() && #[trigger] n.products[i].id
                != #[trigger] n.products[j].id implies !(n.products[i].carton_id
                == n.products[j].carton_id && n.products[i].upc == n.products[j].upc) by {
            assert(m.products.contains(n.products[i]));
            assert(m.products.contains(n.products[j]));
        }
        assert(n.wf_products());
        assert forall|i: int| 0 <= i < n.records.len() implies seq_has_carton_in(n.cartons, #[trigger] n.records[i].carton_id, n.records[i].batch_id)
            && valid_grade(n.records[i].grade) && n.records[i].quantity > 0 by {
            let r = n.records[i];
            assert(m.records.contains(r));
            assert(pr(r));
            let a = choose|a: int| 0 <= a < m.records.len() && m.records[a] == r;
            assert(m.records[a] == r);
            let k = choose|k: int| 0 <= k < m.cartons.len() && #[trigger] m.cartons[k].id == m.records[a].carton_id && m.cartons[k].batch_id == m.records[a].batch_id;
            assert(pc(m.cartons[k]));
            assert(n.cartons.contains(m.cartons[k]));
            let b = choose|b: int| 0 <= b < n.cartons.len() && n.cartons[b] == m.cartons[k];
            assert(n.cartons[b].id == r.carton_id && n.cartons[b].batch_id == r.batch_id);
            assert(valid_grade(m.records[a].grade) && m.records[a].quantity > 0);
        }
        assert(n.wf_records());
        assert forall|i: int| 0 <= i < n.photos.len() implies seq_has_record(n.records, #[trigger] n.photos[i].record_id) && 1
                <= n.photos[i].photo_order <= 3 by {
            let p = n.photos[i];
            assert(m.photos.contains(p));
            assert(ph(p));
            let a = choose|a: int| 0 <= a < m.photos.len() && m.photos[a] == p;
            assert(m.photos[a] == p);
            let k = choose|k: int| 0 <= k < m.records.len() && #[trigger] m.records[k].id == m.photos[a].record_id;
            assert(pr(m.records[k]));
            assert(n.records.contains(m.records[k]));
        }
        assert forall|i: int, j: int|
            0 <= i < n.photos.len() && 0 <= j < n.photos.len() && #[trigger] n.photos[i].id
                != #[trigger] n.photos[j].id implies !(n.photos[i].record_id == n.photos[j].record_id
                && n.photos[i].photo_order == n.photos[j].photo_order) by {
            assert(m.photos.contains(n.photos[i]));
            assert(m.photos.contains(n.photos[j]));
        }
        assert(n.wf_photos());
    }
}

pub proof fn lemma_grades_distinct()
    ensures
        seq!['A'] != seq!['B'],
        seq!['A'] != seq!['C'],
        seq!['A'] != seq!['D'],
        seq!['B'] != seq!['C'],
        seq!['B'] != seq!['D'],
        seq!['C'] != seq!['D'],
{
    assert(seq!['A'][0] != seq!['B'][0]);
    assert(seq!['A'][0] != seq!['C'][0]);
    assert(seq!['A'][0] != seq!['D'][0]);
    assert(seq!['B'][0] != seq!['C'][0]);
    assert(seq!['B'][0] != seq!['D'][0]);
    assert(seq!['C'][0] != seq!['D'][0]);
}

pub proof fn lemma_qty_step(rs: Seq<RecordModel>, cid: i64, g: Seq<char>, i: int)
    requires
        0 <= i < rs.len(),
    ensures
        carton_qty(rs.take(i + 1), cid) == carton_qty(rs.take(i), cid) + if rs[i].carton_id == cid {
            rs[i].quantity as int
        } else {
            0
        },
        grade_qty(rs.take(i + 1), cid, g) == grade_qty(rs.take(i), cid, g) + if rs[i].carton_id == cid
            && rs[i].grade == g {
            rs[i].quantity as int
        } else {
            0
        },
{
    assert(rs.take(i + 1).drop_last() =~= rs.take(i));
}

/// With positive quantities, totals grow along the table and each grade's
/// total is at most the whole total.
pub proof fn lemma_qty_bounds(rs: Seq<RecordModel>, cid: i64, g: Seq<char>, i: int)
    requires
        0 <= i <= rs.len(),
        forall|k: int| 0 <= k < rs.len() ==> (#[trigger] rs[k]).quantity > 0,
    ensures
        0 <= grade_qty(rs.take(i), cid, g) <= carton_qty(rs.take(i), cid) <= carton_qty(rs, cid),
        0 <= grade_qty(rs, cid, g) <= carton_qty(rs, cid),
    decreases rs.len() - i,
{
    assert forall|k: int| 0 <= k < rs.take(i).len() implies (#[trigger] rs.take(i)[k]).quantity > 0 by {
        assert(rs.take(i)[k] == rs[k]);
    }
    lemma_grade_le_total(rs.take(i), cid, g);
    lemma_grade_le_total(rs, cid, g);
    if i < rs.len() {
        lemma_qty_bounds(rs, cid, g, i + 1);
        lemma_qty_step(rs, cid, g, i);
    } else {
        assert(rs.take(i) =~= rs);
    }
}

proof fn lemma_grade_le_total(rs: Seq<RecordModel>, cid: i64, g: Seq<char>)
    requires
        forall|k: int| 0 <= k < rs.len() ==> (#[trigger] rs[k]).quantity > 0,
    ensures
        0 <= grade_qty(rs, cid, g) <= carton_qty(rs, cid),
    decreases rs.len(),
{
    if rs.len() > 0 {
        assert forall|k: int| 0 <= k < rs.drop_last().len() implies (#[trigger] rs.drop_last()[k]).quantity > 0 by {
            assert(rs.drop_last()[k] == rs[k]);
        }
        lemma_grade_le_total(rs.drop_last(), cid, g);
    }
}

pub open spec fn batch_views(s: Seq<Batch>) -> Seq<BatchModel> {
    s.map_values(|b: Batch| b@)
}

pub open spec fn carton_views(s: Seq<CartonRow>) -> Seq<CartonModel> {
    s.map_values(|c: CartonRow| c@)
}

pub open spec fn product_views(s: Seq<ProductRow>) -> Seq<ProductModel> {
    s.map_values(|p: ProductRow| p@)
}

pub open spec fn record_views(s: Seq<InspectionRow>) -> Seq<RecordModel> {
    s.map_values(|r: InspectionRow| r@)
}

pub open spec fn photo_views(s: Seq<PhotoEntry>) -> Seq<PhotoModel> {
    s.map_values(|p: PhotoEntry| p@)
}

pub open spec fn summary_views(s: Seq<Carton>) -> Seq<CartonSummary> {
    s.map_values(|c: Carton| c@)
}

pub open spec fn record_row_views(s: Seq<RecordRow>) -> Seq<RecordRowModel> {
    s.map_values(|r: RecordRow| r@)
}

pub open spec fn carton_product_views(s: Seq<CartonProduct>) -> Seq<CartonProductModel> {
    s.map_values(|p: CartonProduct| p@)
}

pub open spec fn photo_row_views(s: Seq<PhotoRow>) -> Seq<PhotoRowModel> {
    s.map_values(|p: PhotoRow| p@)
}

/// `s` is in the order `le`.
pub open spec fn sorted_by<T>(s: Seq<T>, le: spec_fn(T, T) -> bool) -> bool {
    forall|i: int, j: int| 0 <= i < j < s.len() ==> le(s[i], s[j])
}

pub open spec fn text_lt(a: Seq<char>, b: Seq<char>) -> bool {
    text_le(a, b) && a != b
}

/// Cartons are listed by the integer their number reads as, then by the
/// number as text.
pub open spec fn carton_key_le(a: CartonSummary, b: CartonSummary) -> bool {
    let x = sql_cast_int(a.carton_no);
    let y = sql_cast_int(b.carton_no);
    x < y || (x == y && text_le(a.carton_no, b.carton_no))
}

pub open spec fn carton_order() -> spec_fn(CartonSummary, CartonSummary) -> bool {
    |a: CartonSummary, b: CartonSummary| carton_key_le(a, b)
}

/// Records of a batch are listed by their carton's number (as for cartons),
/// then by id.
pub open spec fn record_key_le(a: RecordRowModel, b: RecordRowModel) -> bool {
    let x = sql_cast_int(a.carton_no);
    let y = sql_cast_int(b.carton_no);
    x < y || (x == y && (text_lt(a.carton_no, b.carton_no) || (a.carton_no == b.carton_no && a.id
        <= b.id)))
}

pub open spec fn record_order() -> spec_fn(RecordRowModel, RecordRowModel) -> bool {
    |a: RecordRowModel, b: RecordRowModel| record_key_le(a, b)
}

/// Products are listed in the order of the import, then by id.
pub open spec fn product_key_le(a: ProductModel, b: ProductModel) -> bool {
    a.source_order < b.source_order || (a.source_order == b.source_order && a.id <= b.id)
}

pub open spec fn product_order() -> spec_fn(ProductModel, ProductModel) -> bool {
    |a: ProductModel, b: ProductModel| product_key_le(a, b)
}

/// Images are listed by their number.
pub open spec fn photo_key_le(a: PhotoModel, b: PhotoModel) -> bool {
    a.photo_order <= b.photo_order
}

pub open spec fn photo_order() -> spec_fn(PhotoModel, PhotoModel) -> bool {
    |a: PhotoModel, b: PhotoModel| photo_key_le(a, b)
}

pub open spec fn to_carton_product(p: ProductModel) -> CartonProductModel {
    CartonProductModel {
        id: p.id,
        upc: p.upc,
        item_no: p.item_no,
        color_name: p.color_name,
        color_no: p.color_no,
        description: p.description,
        size_dimension: p.size_dimension,
        carton_count: p.carton_count,
        units_per_carton: p.units_per_carton,
        total_units: p.total_units,
    }
}

pub open spec fn to_photo_row(p: PhotoModel) -> PhotoRowModel {
    PhotoRowModel { photo_order: p.photo_order, file_path: p.file_path }
}

pub open spec fn record_of_carton(batch_id: i64, carton_id: i64) -> spec_fn(RecordModel) -> bool {
    |r: RecordModel| r.batch_id == batch_id && r.carton_id == carton_id
}

pub open spec fn record_of_batch(batch_id: i64) -> spec_fn(RecordModel) -> bool {
    |r: RecordModel| r.batch_id == batch_id
}

pub open spec fn product_of(carton_id: i64) -> spec_fn(ProductModel) -> bool {
    |p: ProductModel| p.carton_id == carton_id
}

pub open spec fn photo_of(record_id: i64) -> spec_fn(PhotoModel) -> bool {
    |p: PhotoModel| p.record_id == record_id
}

impl DbModel {
    /// The number of carton `cid`.
    pub open spec fn carton_no_of(self, cid: i64) -> Seq<char> {
        self.cartons[choose|k: int| 0 <= k < self.cartons.len() && #[trigger] self.cartons[k].id == cid].carton_no
    }

    /// A record with the number of its carton.
    pub open spec fn joined(self, r: RecordModel) -> RecordRowModel {
        RecordRowModel {
            id: r.id,
            carton_id: r.carton_id,
            carton_no: self.carton_no_of(r.carton_id),
            barcode: r.barcode,
            grade: r.grade,
            quantity: r.quantity,
            exception_reason: r.exception_reason,
        }
    }

    pub open spec fn joiner(self) -> spec_fn(RecordModel) -> RecordRowModel {
        |r: RecordModel| self.joined(r)
    }

    /// The records of one carton of a batch, in id order.
    pub open spec fn carton_records(self, batch_id: i64, carton_id: i64) -> Seq<RecordRowModel> {
        self.records.filter(record_of_carton(batch_id, carton_id)).map_values(self.joiner())
    }

    /// The records of a batch, in id order (listed by carton number).
    pub open spec fn batch_records(self, batch_id: i64) -> Seq<RecordRowModel> {
        self.records.filter(record_of_batch(batch_id)).map_values(self.joiner())
    }
}

pub proof fn lemma_plan_photos_step(
    dir: Seq<char>,
    sep: char,
    record_id: i64,
    photos: Seq<PhotoInputModel>,
    uuids: Seq<Seq<char>>,
    first_id: int,
    i: int,
)
    requires
        0 <= i < photos.len(),
    ensures
        plan_photos(dir, sep, record_id, photos.take(i + 1), uuids, first_id) == (match plan_photos(
            dir,
            sep,
            record_id,
            photos.take(i),
            uuids,
            first_id,
        ) {
            Err(e) => Err(e),
            Ok(v) => match photo_plan_spec(
                dir,
                sep,
                record_id,
                (i + 1) as nat,
                uuids[i],
                photos[i].name,
                base64_decoded(photos[i].data),
            ) {
                Err(e) => Err(e),
                Ok((path, bytes)) => if first_id + i > i64::MAX {
                    Err(ErrorModel::StorageFull)
                } else {
                    Ok(v.push(FileModel { path, bytes }))
                },
            },
        }),
{
    assert(photos.take(i + 1).drop_last() =~= photos.take(i));
    assert(photos.take(i + 1)[i] == photos[i]);
}

pub proof fn lemma_plan_photos_ok(
    dir: Seq<char>,
    sep: char,
    record_id: i64,
    photos: Seq<PhotoInputModel>,
    uuids: Seq<Seq<char>>,
    first_id: int,
)
    ensures
        plan_photos(dir, sep, record_id, photos, uuids, first_id) matches Ok(files) ==> files.len()
            == photos.len() && (photos.len() > 0 ==> first_id + photos.len() - 1 <= i64::MAX),
    decreases photos.len(),
{
    if photos.len() > 0 {
        lemma_plan_photos_ok(dir, sep, record_id, photos.drop_last(), uuids, first_id);
    }
}

/// Rows appended with consecutive ids from the next id keep ids increasing.
pub proof fn lemma_append_photo_rows(old: Seq<PhotoModel>, files: Seq<FileModel>, rid: i64)
    requires
        ascending(old),
        files.len() > 0 ==> next_id(old) + files.len() - 1 <= i64::MAX,
        next_id(old) >= i64::MIN,
    ensures
        ascending(old + photo_rows(files, rid, next_id(old))),
        forall|i: int| 0 <= i < files.len() ==> (#[trigger] photo_rows(files, rid, next_id(old))[i]).id == next_id(old) + i,
{
    let first = next_id(old);
    let rows = photo_rows(files, rid, first);
    let all = old + rows;
    assert forall|i: int| 0 <= i < files.len() implies (#[trigger] rows[i]).id == first + i by {}
    assert forall|i: int, j: int| 0 <= i < j < all.len() implies all[i].row_id() < all[j].row_id() by {
        if j < old.len() {
        } else if i < old.len() {
            assert(all[j] == rows[j - old.len()]);
            if i < old.len() - 1 {
                assert(old[i].row_id() < old[old.len() - 1].row_id());
            }
        } else {
            assert(all[j] == rows[j - old.len()]);
            assert(all[i] == rows[i - old.len()]);
        }
    }
}

/// Adding a record with its images keeps the constraints.
#[verifier::spinoff_prover]
pub proof fn lemma_create_record_wf(m: DbModel, input: RecordInputModel, uuids: Seq<Seq<char>>)
    requires
        m.wf(),
    ensures
        m.create_record(input, uuids) matches Ok((n, _, _)) ==> n.wf(),
{
    if let Ok((n, id, files)) = m.create_record(input, uuids) {
        let first = next_id(m.photos);
        lemma_plan_photos_ok(m.photo_dir, m.sep, id, input.photos, uuids, first);
        let nr = n.records.last();
        assert(n.records == m.records.push(nr));
        let rows = photo_rows(files, id, first);
        assert(n.photos == m.photos + rows);
        assert(n.batches == m.batches && n.cartons == m.cartons && n.products == m.products);
        lemma_push_ascending(m.records, nr);
        if m.photos.len() > 0 {
            assert(m.photos.last().id >= i64::MIN);
        }
        lemma_append_photo_rows(m.photos, files, id);
        assert(n.wf_ids());
        assert(n.wf_batches());
        assert(n.wf_cartons());
        assert(n.wf_products());
        assert forall|i: int| 0 <= i < n.records.len() implies seq_has_carton_in(n.cartons, #[trigger] n.records[i].carton_id, n.records[i].batch_id)
            && valid_grade(n.records[i].grade) && n.records[i].quantity > 0 by {
            if i < m.records.len() {
                assert(n.records[i] == m.records[i]);
            } else {
                assert(n.records[i] == nr);
                assert(nr.carton_id == input.carton_id && nr.batch_id == input.batch_id);
                assert(m.has_carton_in(input.carton_id, input.batch_id));
                assert(validate_record_spec(input.barcode, input.grade, input.quantity, input.photos.len()) is Ok);
            }
        }
        assert(n.wf_records());
        assert forall|i: int| 0 <= i < n.photos.len() implies seq_has_record(n.records, #[trigger] n.photos[i].record_id) && 1
                <= n.photos[i].photo_order <= 3 by {
            if i < m.photos.len() {
                assert(n.photos[i] == m.photos[i]);
                let k = choose|k: int| 0 <= k < m.records.len() && #[trigger] m.records[k].id == m.photos[i].record_id;
                assert(n.records[k] == m.records[k]);
            } else {
                assert(n.photos[i] == rows[i - m.photos.len()]);
                assert(n.records[m.records.len() as int].id == id);
            }
        }
        assert forall|i: int, j: int|
            0 <= i < n.photos.len() && 0 <= j < n.photos.len() && #[trigger] n.photos[i].id
                != #[trigger] n.photos[j].id implies !(n.photos[i].record_id == n.photos[j].record_id
                && n.photos[i].photo_order == n.photos[j].photo_order) by {
            let lo = m.photos.len();
            if i < lo && j < lo {
                assert(n.photos[i] == m.photos[i] && n.photos[j] == m.photos[j]);
            } else if i >= lo && j >= lo {
                assert(n.photos[i] == rows[i - lo] && n.photos[j] == rows[j - lo]);
            } else {
                let (a, b) = if i < lo { (i, j) } else { (j, i) };
                assert(n.photos[a] == m.photos[a]);
                assert(n.photos[b] == rows[b - lo]);
                let k = choose|k: int| 0 <= k < m.records.len() && #[trigger] m.records[k].id == m.photos[a].record_id;
                if k < m.records.len() - 1 {
                    assert(m.records[k].row_id() < m.records[m.records.len() - 1].row_id());
                }
                assert(m.photos[a].record_id < id);
            }
        }
        assert(n.wf_photos());
    }
}

/// Once an image is refused, the images after it do not change the outcome.
pub proof fn lemma_plan_photos_err(
    dir: Seq<char>,
    sep: char,
    record_id: i64,
    photos: Seq<PhotoInputModel>,
    uuids: Seq<Seq<char>>,
    first_id: int,
    k: int,
)
    requires
        0 <= k <= photos.len(),
        plan_photos(dir, sep, record_id, photos.take(k), uuids, first_id) is Err,
    ensures
        plan_photos(dir, sep, record_id, photos, uuids, first_id) == plan_photos(
            dir,
            sep,
            record_id,
            photos.take(k),
            uuids,
            first_id,
        ),
    decreases photos.len() - k,
{
    if k < photos.len() {
        lemma_plan_photos_step(dir, sep, record_id, photos, uuids, first_id, k);
        lemma_plan_photos_err(dir, sep, record_id, photos, uuids, first_id, k + 1);
    } else {
        assert(photos.take(k) =~= photos);
    }
}

pub open spec fn nested_views(s: Seq<Vec<String>>) -> Seq<Seq<Seq<char>>> {
    s.map_values(|v: Vec<String>| string_views(v@))
}

/// The first refused record of an edit, in order.
pub open spec fn validate_edits(edits: Seq<RecordEditModel>) -> Result<(), ErrorModel>
    decreases edits.len(),
{
    if edits.len() == 0 {
        Ok(())
    } else {
        match validate_edits(edits.drop_last()) {
            Err(e) => Err(e),
            Ok(_) => {
                let e = edits.last();
                validate_record_spec(e.barcode, e.grade, e.quantity, e.photos.len())
            },
        }
    }
}

/// Whether the edit keeps record `id`.
pub open spec fn retained(edits: Seq<RecordEditModel>, id: i64) -> bool {
    exists|j: int| 0 <= j < edits.len() && #[trigger] edits[j].id == Some(id)
}

/// Whether the records of carton `carton_id` include `id`.
pub open spec fn record_in_carton(records: Seq<RecordModel>, carton_id: i64, id: i64) -> bool {
    exists|k: int| 0 <= k < records.len() && #[trigger] records[k].id == id && records[k].carton_id == carton_id
}

/// Every record the edit names is a record of the carton.
pub open spec fn edit_ids_known(records: Seq<RecordModel>, carton_id: i64, edits: Seq<RecordEditModel>) -> bool {
    forall|j: int| 0 <= j < edits.len() ==> (#[trigger] edits[j].id matches Some(x) ==> record_in_carton(records, carton_id, x))
}

/// The records that stay when the edit is applied: all but those of the
/// carton that the edit does not name.
pub open spec fn record_stays(edits: Seq<RecordEditModel>, carton_id: i64) -> spec_fn(RecordModel) -> bool {
    |r: RecordModel| !(r.carton_id == carton_id && !retained(edits, r.id))
}

/// The images of records that the edit drops.
pub open spec fn photo_dropped(records: Seq<RecordModel>, edits: Seq<RecordEditModel>, carton_id: i64) -> spec_fn(PhotoModel) -> bool {
    |p: PhotoModel| exists|k: int| 0 <= k < records.len() && #[trigger] records[k].id == p.record_id && records[k].carton_id == carton_id && !retained(edits, records[k].id)
}

pub open spec fn photo_kept(records: Seq<RecordModel>, edits: Seq<RecordEditModel>, carton_id: i64) -> spec_fn(PhotoModel) -> bool {
    |p: PhotoModel| !(photo_dropped(records, edits, carton_id))(p)
}

pub open spec fn photo_not_of(record_id: i64) -> spec_fn(PhotoModel) -> bool {
    |p: PhotoModel| p.record_id != record_id
}

/// An edited record: new barcode, grade, quantity and reason, trimmed.
pub open spec fn record_updater(id: i64, carton_id: i64, e: RecordEditModel) -> spec_fn(RecordModel) -> RecordModel {
    |r: RecordModel|
        if r.id == id && r.carton_id == carton_id {
            RecordModel {
                barcode: trim_spec(e.barcode),
                grade: e.grade,
                quantity: e.quantity,
                exception_reason: trim_spec(e.exception_reason),
                ..r
            }
        } else {
            r
        }
}

/// One record of an edit applied: an existing record is updated, its images
/// replaced where new ones are given; a new record is added with its images.
pub open spec fn apply_edit(st: EditState, e: RecordEditModel, u: Seq<Seq<char>>, batch_id: i64, carton_id: i64) -> Result<EditState, ErrorModel> {
    let m = st.db;
    match e.id {
        Some(id) => {
            let m1 = DbModel { records: m.records.map_values(record_updater(id, carton_id, e)), ..m };
            if e.photos.len() == 0 {
                Ok(EditState { db: m1, ..st })
            } else {
                let kept = m1.photos.filter(photo_not_of(id));
                let first = next_id(kept);
                match plan_photos(m.photo_dir, m.sep, id, e.photos, u, first) {
                    Err(x) => Err(x),
                    Ok(files) => Ok(
                        EditState {
                            db: DbModel { photos: kept + photo_rows(files, id, first), ..m1 },
                            to_write: st.to_write + files,
                            to_remove: st.to_remove + photo_paths(m1.photos.filter(photo_of(id))),
                        },
                    ),
                }
            }
        },
        None => {
            let id = next_id(m.records);
            if id > i64::MAX {
                Err(ErrorModel::StorageFull)
            } else {
                let first = next_id(m.photos);
                match plan_photos(m.photo_dir, m.sep, id as i64, e.photos, u, first) {
                    Err(x) => Err(x),
                    Ok(files) => Ok(
                        EditState {
                            db: DbModel {
                                records: m.records.push(
                                    RecordModel {
                                        id: id as i64,
                                        batch_id,
                                        carton_id,
                                        barcode: trim_spec(e.barcode),
                                        grade: e.grade,
                                        quantity: e.quantity,
                                        exception_reason: trim_spec(e.exception_reason),
                                    },
                                ),
                                photos: m.photos + photo_rows(files, id as i64, first),
                                ..m
                            },
                            to_write: st.to_write + files,
                            to_remove: st.to_remove,
                        },
                    ),
                }
            }
        },
    }
}

/// The records of an edit applied in order; the first refusal stops it.
pub open spec fn apply_edits(st: EditState, edits: Seq<RecordEditModel>, uuids: Seq<Seq<Seq<char>>>, batch_id: i64, carton_id: i64) -> Result<EditState, ErrorModel>
    decreases edits.len(),
{
    if edits.len() == 0 {
        Ok(st)
    } else {
        match apply_edits(st, edits.drop_last(), uuids, batch_id, carton_id) {
            Err(x) => Err(x),
            Ok(s1) => apply_edit(s1, edits.last(), uuids[edits.len() - 1], batch_id, carton_id),
        }
    }
}

impl DbModel {
    /// The store once the records of the carton that the edit does not name
    /// are dropped with their images; and those images' files.
    pub open spec fn drop_unnamed(self, edits: Seq<RecordEditModel>, carton_id: i64) -> EditState {
        EditState {
            db: DbModel {
                records: self.records.filter(record_stays(edits, carton_id)),
                photos: self.photos.filter(photo_kept(self.records, edits, carton_id)),
                ..self
            },
            to_write: seq![],
            to_remove: photo_paths(self.photos.filter(photo_dropped(self.records, edits, carton_id))),
        }
    }

    /// Rewriting the records of a carton as one change: every record is
    /// checked, the carton must be in the batch and every named record must be
    /// one of its records; then records the edit does not name go, named ones
    /// are updated and new ones added, in order. Gives the image files to
    /// write and to remove.
    pub open spec fn replace_carton_records(
        self,
        batch_id: i64,
        carton_id: i64,
        edits: Seq<RecordEditModel>,
        uuids: Seq<Seq<Seq<char>>>,
    ) -> Result<EditState, ErrorModel> {
        match validate_edits(edits) {
            Err(e) => Err(e),
            Ok(_) => if !self.has_carton_in(carton_id, batch_id) {
                Err(ErrorModel::CartonNotFound)
            } else if !edit_ids_known(self.records, carton_id, edits) {
                Err(ErrorModel::InvalidRecord)
            } else {
                apply_edits(self.drop_unnamed(edits, carton_id), edits, uuids, batch_id, carton_id)
            },
        }
    }
}

/// Dropping the records an edit does not name keeps the constraints and the
/// records it names.
#[verifier::spinoff_prover]
pub proof fn lemma_drop_unnamed_wf(m: DbModel, edits: Seq<RecordEditModel>, carton_id: i64)
    requires
        m.wf(),
    ensures
        m.drop_unnamed(edits, carton_id).db.wf(),
        m.drop_unnamed(edits, carton_id).db.cartons == m.cartons,
        m.drop_unnamed(edits, carton_id).db.photo_dir == m.photo_dir,
        m.drop_unnamed(edits, carton_id).db.sep == m.sep,
        edit_ids_known(m.records, carton_id, edits) ==> forall|j: int| 0 <= j < edits.len() ==> (#[trigger] edits[j].id matches Some(x) ==> seq_has_record(m.drop_unnamed(edits, carton_id).db.records, x)),
{
    let n = m.drop_unnamed(edits, carton_id).db;
    let pr = record_stays(edits, carton_id);
    let ph = photo_kept(m.records, edits, carton_id);
    lemma_filter_rows(m.records, pr);
    lemma_filter_rows(m.photos, ph);
    assert(n.records == m.records.filter(pr));
    assert(n.photos == m.photos.filter(ph));
    assert(n.wf_ids());
    assert(n.wf_batches());
    assert(n.wf_cartons());
    assert(n.wf_products());
    assert forall|i: int| 0 <= i < n.records.len() implies seq_has_carton_in(n.cartons, #[trigger] n.records[i].carton_id, n.records[i].batch_id)
        && valid_grade(n.records[i].grade) && n.records[i].quantity > 0 by {
        assert(m.records.contains(n.records[i]));
        let a = choose|a: int| 0 <= a < m.records.len() && m.records[a] == n.records[i];
        assert(m.records[a].carton_id == n.records[i].carton_id);
    }
    assert(n.wf_records());
    assert forall|i: int| 0 <= i < n.photos.len() implies seq_has_record(n.records, #[trigger] n.photos[i].record_id) && 1
            <= n.photos[i].photo_order <= 3 by {
        let p = n.photos[i];
        assert(m.photos.contains(p));
        assert(ph(p));
        let a = choose|a: int| 0 <= a < m.photos.len() && m.photos[a] == p;
        assert(m.photos[a] == p);
        let k = choose|k: int| 0 <= k < m.records.len() && #[trigger] m.records[k].id == m.photos[a].record_id;
        assert(pr(m.records[k]));
        assert(n.records.contains(m.records[k]));
    }
    assert forall|i: int, j: int|
        0 <= i < n.photos.len() && 0 <= j < n.photos.len() && #[trigger] n.photos[i].id
            != #[trigger] n.photos[j].id implies !(n.photos[i].record_id == n.photos[j].record_id
            && n.photos[i].photo_order == n.photos[j].photo_order) by {
        assert(m.photos.contains(n.photos[i]));
        assert(m.photos.contains(n.photos[j]));
    }
    assert(n.wf_photos());
    if edit_ids_known(m.records, carton_id, edits) {
        assert forall|j: int| 0 <= j < edits.len() implies (#[trigger] edits[j].id matches Some(x) ==> seq_has_record(n.records, x)) by {
            if let Some(x) = edits[j].id {
                assert(record_in_carton(m.records, carton_id, x));
                let k = choose|k: int| 0 <= k < m.records.len() && #[trigger] m.records[k].id == x && m.records[k].carton_id == carton_id;
                assert(retained(edits, x));
                assert(pr(m.records[k]));
                assert(n.records.contains(m.records[k]));
            }
        }
    }
}

/// Replacing the images of an existing record keeps the constraints.
#[verifier::spinoff_prover]
proof fn lemma_replace_photos_wf(m1: DbModel, id: i64, files: Seq<FileModel>)
    requires
        m1.wf(),
        seq_has_record(m1.records, id),
        files.len() <= 3,
        files.len() > 0 ==> next_id(m1.photos.filter(photo_not_of(id))) + files.len() - 1 <= i64::MAX,
    ensures
        ({
            let kept = m1.photos.filter(photo_not_of(id));
            (DbModel { photos: kept + photo_rows(files, id, next_id(kept)), ..m1 }).wf()
        }),
{
    let kept = m1.photos.filter(photo_not_of(id));
    lemma_filter_rows(m1.photos, photo_not_of(id));
    let first = next_id(kept);
    if kept.len() > 0 {
        assert(m1.photos.contains(kept.last()));
    }
    lemma_append_photo_rows(kept, files, id);
    let rows = photo_rows(files, id, first);
    let n = DbModel { photos: kept + rows, ..m1 };
    assert(n.wf_ids());
    assert(n.wf_batches());
    assert(n.wf_cartons());
    assert(n.wf_products());
    assert(n.wf_records());
    let lo = kept.len();
    assert forall|i: int| 0 <= i < n.photos.len() implies seq_has_record(n.records, #[trigger] n.photos[i].record_id) && 1
            <= n.photos[i].photo_order <= 3 by {
        if i < lo {
            assert(n.photos[i] == kept[i]);
            assert(m1.photos.contains(kept[i]));
        } else {
            assert(n.photos[i] == rows[i - lo]);
        }
    }
    assert forall|i: int, j: int|
        0 <= i < n.photos.len() && 0 <= j < n.photos.len() && #[trigger] n.photos[i].id
            != #[trigger] n.photos[j].id implies !(n.photos[i].record_id == n.photos[j].record_id
            && n.photos[i].photo_order == n.photos[j].photo_order) by {
        if i < lo && j < lo {
            assert(n.photos[i] == kept[i] && n.photos[j] == kept[j]);
            assert(m1.photos.contains(kept[i]));
            assert(m1.photos.contains(kept[j]));
        } else if i >= lo && j >= lo {
            assert(n.photos[i] == rows[i - lo] && n.photos[j] == rows[j - lo]);
        } else {
            let (a, b) = if i < lo { (i, j) } else { (j, i) };
            assert(n.photos[a] == kept[a]);
            assert((photo_not_of(id))(kept[a]));
            assert(n.photos[b] == rows[b - lo]);
        }
    }
    assert(n.wf_photos());
}

/// One record of an edit keeps the constraints, the carton, and every record
/// that existed.
#[verifier::spinoff_prover]
pub proof fn lemma_apply_edit_wf(st: EditState, e: RecordEditModel, u: Seq<Seq<char>>, batch_id: i64, carton_id: i64)
    requires
        st.db.wf(),
        st.db.has_carton_in(carton_id, batch_id),
        validate_record_spec(e.barcode, e.grade, e.quantity, e.photos.len()) is Ok,
        e.id matches Some(x) ==> seq_has_record(st.db.records, x),
    ensures
        apply_edit(st, e, u, batch_id, carton_id) matches Ok(s2) ==> {
            &&& s2.db.wf()
            &&& s2.db.cartons == st.db.cartons
            &&& s2.db.photo_dir == st.db.photo_dir
            &&& s2.db.sep == st.db.sep
            &&& forall|x: i64| seq_has_record(st.db.records, x) ==> seq_has_record(s2.db.records, x)
        },
{
    let m = st.db;
    if let Ok(s2) = apply_edit(st, e, u, batch_id, carton_id) {
        match e.id {
            Some(id) => {
                let f = record_updater(id, carton_id, e);
                let m1 = DbModel { records: m.records.map_values(f), ..m };
                assert forall|i: int| 0 <= i < m.records.len() implies #[trigger] m1.records[i] == f(m.records[i]) by {}
                assert(m1.wf_ids());
                assert(m1.wf_batches());
                assert(m1.wf_cartons());
                assert(m1.wf_products());
                assert forall|i: int| 0 <= i < m1.records.len() implies seq_has_carton_in(m1.cartons, #[trigger] m1.records[i].carton_id, m1.records[i].batch_id)
                    && valid_grade(m1.records[i].grade) && m1.records[i].quantity > 0 by {
                    assert(m.records[i].carton_id == m1.records[i].carton_id);
                }
                assert(m1.wf_records());
                assert forall|i: int| 0 <= i < m1.photos.len() implies seq_has_record(m1.records, #[trigger] m1.photos[i].record_id) && 1
                        <= m1.photos[i].photo_order <= 3 by {
                    let k = choose|k: int| 0 <= k < m.records.len() && #[trigger] m.records[k].id == m.photos[i].record_id;
                    assert(m1.records[k].id == m.records[k].id);
                }
                assert(m1.wf_photos());
                assert forall|x: i64| seq_has_record(m.records, x) implies seq_has_record(m1.records, x) by {
                    let k = choose|k: int| 0 <= k < m.records.len() && #[trigger] m.records[k].id == x;
                    assert(m1.records[k].id == m.records[k].id);
                }
                if e.photos.len() > 0 {
                    let kept = m1.photos.filter(photo_not_of(id));
                    let first = next_id(kept);
                    lemma_plan_photos_ok(m.photo_dir, m.sep, id, e.photos, u, first);
                    let files = plan_photos(m.photo_dir, m.sep, id, e.photos, u, first)->Ok_0;
                    lemma_replace_photos_wf(m1, id, files);
                }
            },
            None => {
                let id = next_id(m.records);
                let first = next_id(m.photos);
                let files = plan_photos(m.photo_dir, m.sep, id as i64, e.photos, u, first)->Ok_0;
                lemma_plan_photos_ok(m.photo_dir, m.sep, id as i64, e.photos, u, first);
                let nr = s2.db.records.last();
                let n = s2.db;
                assert(n.records == m.records.push(nr));
                let rows = photo_rows(files, id as i64, first);
                assert(n.photos == m.photos + rows);
                lemma_push_ascending(m.records, nr);
                if m.photos.len() > 0 {
                    assert(m.photos.last().id >= i64::MIN);
                }
                lemma_append_photo_rows(m.photos, files, id as i64);
                assert(n.wf_ids());
                assert(n.wf_batches());
                assert(n.wf_cartons());
                assert(n.wf_products());
                assert forall|i: int| 0 <= i < n.records.len() implies seq_has_carton_in(n.cartons, #[trigger] n.records[i].carton_id, n.records[i].batch_id)
                    && valid_grade(n.records[i].grade) && n.records[i].quantity > 0 by {
                    if i < m.records.len() {
                        assert(n.records[i] == m.records[i]);
                    } else {
                        assert(n.records[i] == nr);
                    }
                }
                assert(n.wf_records());
                assert forall|i: int| 0 <= i < n.photos.len() implies seq_has_record(n.records, #[trigger] n.photos[i].record_id) && 1
                        <= n.photos[i].photo_order <= 3 by {
                    if i < m.photos.len() {
                        assert(n.photos[i] == m.photos[i]);
                        let k = choose|k: int| 0 <= k < m.records.len() && #[trigger] m.records[k].id == m.photos[i].record_id;
                        assert(n.records[k] == m.records[k]);
                    } else {
                        assert(n.photos[i] == rows[i - m.photos.len()]);
                        assert(n.records[m.records.len() as int].id == id);
                    }
                }
                assert forall|i: int, j: int|
                    0 <= i < n.photos.len() && 0 <= j < n.photos.len() && #[trigger] n.photos[i].id
                        != #[trigger] n.photos[j].id implies !(n.photos[i].record_id == n.photos[j].record_id
                        && n.photos[i].photo_order == n.photos[j].photo_order) by {
                    let lo = m.photos.len();
                    if i < lo && j < lo {
                        assert(n.photos[i] == m.photos[i] && n.photos[j] == m.photos[j]);
                    } else if i >= lo && j >= lo {
                        assert(n.photos[i] == rows[i - lo] && n.photos[j] == rows[j - lo]);
                    } else {
                        let (a, b) = if i < lo { (i, j) } else { (j, i) };
                        assert(n.photos[a] == m.photos[a]);
                        assert(n.photos[b] == rows[b - lo]);
                        let k = choose|k: int| 0 <= k < m.records.len() && #[trigger] m.records[k].id == m.photos[a].record_id;
                        if k < m.records.len() - 1 {
                            assert(m.records[k].row_id() < m.records[m.records.len() - 1].row_id());
                        }
                        assert(m.photos[a].record_id < id);
                    }
                }
                assert(n.wf_photos());
                assert forall|x: i64| seq_has_record(m.records, x) implies seq_has_record(n.records, x) by {
                    let k = choose|k: int| 0 <= k < m.records.len() && #[trigger] m.records[k].id == x;
                    assert(n.records[k] == m.records[k]);
                }
            },
        }
    }
}

/// The records of an edit applied in order keep the constraints.
pub proof fn lemma_apply_edits_wf(
    st: EditState,
    edits: Seq<RecordEditModel>,
    uuids: Seq<Seq<Seq<char>>>,
    batch_id: i64,
    carton_id: i64,
)
    requires
        st.db.wf(),
        st.db.has_carton_in(carton_id, batch_id),
        validate_edits(edits) is Ok,
        forall|j: int| 0 <= j < edits.len() ==> (#[trigger] edits[j].id matches Some(x) ==> seq_has_record(st.db.records, x)),
    ensures
        apply_edits(st, edits, uuids, batch_id, carton_id) matches Ok(s2) ==> {
            &&& s2.db.wf()
            &&& s2.db.cartons == st.db.cartons
            &&& s2.db.photo_dir == st.db.photo_dir
            &&& s2.db.sep == st.db.sep
            &&& forall|x: i64| seq_has_record(st.db.records, x) ==> seq_has_record(s2.db.records, x)
        },
    decreases edits.len(),
{
    if edits.len() > 0 {
        let init = edits.drop_last();
        assert forall|j: int| 0 <= j < init.len() implies (#[trigger] init[j].id matches Some(x) ==> seq_has_record(st.db.records, x)) by {
            assert(init[j] == edits[j]);
        }
        lemma_apply_edits_wf(st, init, uuids, batch_id, carton_id);
        if let Ok(s1) = apply_edits(st, init, uuids, batch_id, carton_id) {
            let e = edits.last();
            assert(edits[edits.len() - 1] == e);
            lemma_apply_edit_wf(s1, e, uuids[edits.len() - 1], batch_id, carton_id);
        }
    }
}

/// Rewriting the records of a carton keeps the constraints.
pub proof fn lemma_replace_wf(
    m: DbModel,
    batch_id: i64,
    carton_id: i64,
    edits: Seq<RecordEditModel>,
    uuids: Seq<Seq<Seq<char>>>,
)
    requires
        m.wf(),
    ensures
        m.replace_carton_records(batch_id, carton_id, edits, uuids) matches Ok(s) ==> s.db.wf(),
{
    if let Ok(s) = m.replace_carton_records(batch_id, carton_id, edits, uuids) {
        lemma_drop_unnamed_wf(m, edits, carton_id);
        let st = m.drop_unnamed(edits, carton_id);
        assert(st.db.has_carton_in(carton_id, batch_id));
        lemma_apply_edits_wf(st, edits, uuids, batch_id, carton_id);
    }
}

pub proof fn lemma_validate_edits_step(edits: Seq<RecordEditModel>, i: int)
    requires
        0 <= i < edits.len(),
    ensures
        validate_edits(edits.take(i + 1)) == (match validate_edits(edits.take(i)) {
            Err(e) => Err(e),
            Ok(_) => validate_record_spec(edits[i].barcode, edits[i].grade, edits[i].quantity, edits[i].photos.len()),
        }),
{
    assert(edits.take(i + 1).drop_last() =~= edits.take(i));
}

pub proof fn lemma_validate_edits_err(edits: Seq<RecordEditModel>, k: int)
    requires
        0 <= k <= edits.len(),
        validate_edits(edits.take(k)) is Err,
    ensures
        validate_edits(edits) == validate_edits(edits.take(k)),
    decreases edits.len() - k,
{
    if k < edits.len() {
        lemma_validate_edits_step(edits, k);
        lemma_validate_edits_err(edits, k + 1);
    } else {
        assert(edits.take(k) =~= edits);
    }
}

pub proof fn lemma_apply_edits_step(
    st: EditState,
    edits: Seq<RecordEditModel>,
    uuids: Seq<Seq<Seq<char>>>,
    batch_id: i64,
    carton_id: i64,
    i: int,
)
    requires
        0 <= i < edits.len(),
    ensures
        apply_edits(st, edits.take(i + 1), uuids, batch_id, carton_id) == (match apply_edits(st, edits.take(i), uuids, batch_id, carton_id) {
            Err(x) => Err(x),
            Ok(s1) => apply_edit(s1, edits[i], uuids[i], batch_id, carton_id),
        }),
{
    assert(edits.take(i + 1).drop_last() =~= edits.take(i));
    assert(edits.take(i + 1).last() == edits[i]);
}

pub proof fn lemma_apply_edits_err(
    st: EditState,
    edits: Seq<RecordEditModel>,
    uuids: Seq<Seq<Seq<char>>>,
    batch_id: i64,
    carton_id: i64,
    k: int,
)
    requires
        0 <= k <= edits.len(),
        apply_edits(st, edits.take(k), uuids, batch_id, carton_id) is Err,
    ensures
        apply_edits(st, edits, uuids, batch_id, carton_id) == apply_edits(st, edits.take(k), uuids, batch_id, carton_id),
    decreases edits.len() - k,
{
    if k < edits.len() {
        lemma_apply_edits_step(st, edits, uuids, batch_id, carton_id, k);
        lemma_apply_edits_err(st, edits, uuids, batch_id, carton_id, k + 1);
    } else {
        assert(edits.take(k) =~= edits);
    }
}

/// The validity of the edits' records up to a prefix.
pub proof fn lemma_validate_edits_prefix(edits: Seq<RecordEditModel>, k: int)
    requires
        0 <= k <= edits.len(),
        validate_edits(edits) is Ok,
    ensures
        validate_edits(edits.take(k)) is Ok,
        k < edits.len() ==> validate_record_spec(edits[k].barcode, edits[k].grade, edits[k].quantity, edits[k].photos.len()) is Ok,
    decreases edits.len() - k,
{
    if k < edits.len() {
        lemma_validate_edits_prefix(edits, k + 1);
        lemma_validate_edits_step(edits, k);
    } else {
        assert(edits.take(k) =~= edits);
    }
}

/// Rows that can be copied field by field.
pub trait RowCopy: Sized {
    fn copy_row(&self) -> (r: Self)
        ensures
            r == *self,
    ;
}

impl RowCopy for Batch {
    fn copy_row(&self) -> (r: Self) {
        self.duplicate()
    }
}

impl RowCopy for CartonRow {
    fn copy_row(&self) -> (r: Self) {
        self.duplicate()
    }
}

impl RowCopy for ProductRow {
    fn copy_row(&self) -> (r: Self) {
        self.duplicate()
    }
}

impl RowCopy for InspectionRow {
    fn copy_row(&self) -> (r: Self) {
        self.duplicate()
    }
}

impl RowCopy for PhotoEntry {
    fn copy_row(&self) -> (r: Self) {
        self.duplicate()
    }
}

/// A copy of a table.
pub fn copy_rows<T: RowCopy>(v: &Vec<T>) -> (r: Vec<T>)
    ensures
        r@ == v@,
{
    let mut r: Vec<T> = Vec::new();
    let mut i: usize = 0;
    while i < v.len()
        invariant
            i <= v@.len(),
            r@ == v@.take(i as int),
        decreases v@.len() - i,
    {
        r.push(v[i].copy_row());
        i = i + 1;
        assert(r@ =~= v@.take(i as int));
    }
    assert(v@.take(v@.len() as int) =~= v@);
    r
}

} // verus!
