//! The records that the library reads and returns, and their views.

use vstd::prelude::*;

verus! {

/// A batch of cartons inspected on one date.
pub struct Batch {
    pub id: i64,
    pub batch_no: String,
    pub inspection_date: String,
}

pub struct BatchModel {
    pub id: i64,
    pub batch_no: Seq<char>,
    pub inspection_date: Seq<char>,
}

impl View for Batch {
    type V = BatchModel;

    open spec fn view(&self) -> BatchModel {
        BatchModel { id: self.id, batch_no: self.batch_no@, inspection_date: self.inspection_date@ }
    }
}

impl Batch {
    pub fn duplicate(&self) -> (r: Batch)
        ensures
            r == *self,
    {
        Batch {
            id: self.id,
            batch_no: self.batch_no.clone(),
            inspection_date: self.inspection_date.clone(),
        }
    }
}

/// What a new batch is made from.
pub struct BatchInput {
    pub batch_no: String,
    pub inspection_date: String,
}

/// A carton of a batch with the totals of its inspection records.
pub struct Carton {
    pub id: i64,
    pub carton_no: String,
    pub reference_qty: Option<i64>,
    pub inspected_qty: i64,
    pub grade_a: i64,
    pub grade_b: i64,
    pub grade_c: i64,
    pub grade_d: i64,
    pub sealed_qty: i64,
    pub status: String,
}

pub struct CartonSummary {
    pub id: i64,
    pub carton_no: Seq<char>,
    pub reference_qty: Option<i64>,
    pub inspected_qty: i64,
    pub grade_a: i64,
    pub grade_b: i64,
    pub grade_c: i64,
    pub grade_d: i64,
    pub sealed_qty: i64,
    pub status: Seq<char>,
}

impl View for Carton {
    type V = CartonSummary;

    open spec fn view(&self) -> CartonSummary {
        CartonSummary {
            id: self.id,
            carton_no: self.carton_no@,
            reference_qty: self.reference_qty,
            inspected_qty: self.inspected_qty,
            grade_a: self.grade_a,
            grade_b: self.grade_b,
            grade_c: self.grade_c,
            grade_d: self.grade_d,
            sealed_qty: self.sealed_qty,
            status: self.status@,
        }
    }
}

/// Counts of what an import did.
pub struct ImportResult {
    pub imported: i64,
    pub created: i64,
    pub updated: i64,
    pub products: i64,
}

/// One product line of a carton, as read from an import sheet.
pub struct CartonProductImport {
    pub carton_no: String,
    pub upc: String,
    pub item_no: String,
    pub color_name: String,
    pub color_no: String,
    pub description: String,
    pub size_dimension: String,
    pub carton_count: Option<i64>,
    pub units_per_carton: i64,
    pub total_units: Option<i64>,
}

pub struct ProductImportModel {
    pub carton_no: Seq<char>,
    pub upc: Seq<char>,
    pub item_no: Seq<char>,
    pub color_name: Seq<char>,
    pub color_no: Seq<char>,
    pub description: Seq<char>,
    pub size_dimension: Seq<char>,
    pub carton_count: Option<i64>,
    pub units_per_carton: i64,
    pub total_units: Option<i64>,
}

impl View for CartonProductImport {
    type V = ProductImportModel;

    open spec fn view(&self) -> ProductImportModel {
        ProductImportModel {
            carton_no: self.carton_no@,
            upc: self.upc@,
            item_no: self.item_no@,
            color_name: self.color_name@,
            color_no: self.color_no@,
            description: self.description@,
            size_dimension: self.size_dimension@,
            carton_count: self.carton_count,
            units_per_carton: self.units_per_carton,
            total_units: self.total_units,
        }
    }
}

impl CartonProductImport {
    pub fn duplicate(&self) -> (r: CartonProductImport)
        ensures
            r@ == self@,
    {
        CartonProductImport {
            carton_no: self.carton_no.clone(),
            upc: self.upc.clone(),
            item_no: self.item_no.clone(),
            color_name: self.color_name.clone(),
            color_no: self.color_no.clone(),
            description: self.description.clone(),
            size_dimension: self.size_dimension.clone(),
            carton_count: self.carton_count,
            units_per_carton: self.units_per_carton,
            total_units: self.total_units,
        }
    }
}

/// A product line of a carton as the library lists it.
pub struct CartonProduct {
    pub id: i64,
    pub upc: String,
    pub item_no: String,
    pub color_name: String,
    pub color_no: String,
    pub description: String,
    pub size_dimension: String,
    pub carton_count: Option<i64>,
    pub units_per_carton: i64,
    pub total_units: Option<i64>,
}

pub struct CartonProductModel {
    pub id: i64,
    pub upc: Seq<char>,
    pub item_no: Seq<char>,
    pub color_name: Seq<char>,
    pub color_no: Seq<char>,
    pub description: Seq<char>,
    pub size_dimension: Seq<char>,
    pub carton_count: Option<i64>,
    pub units_per_carton: i64,
    pub total_units: Option<i64>,
}

impl View for CartonProduct {
    type V = CartonProductModel;

    open spec fn view(&self) -> CartonProductModel {
        CartonProductModel {
            id: self.id,
            upc: self.upc@,
            item_no: self.item_no@,
            color_name: self.color_name@,
            color_no: self.color_no@,
            description: self.description@,
            size_dimension: self.size_dimension@,
            carton_count: self.carton_count,
            units_per_carton: self.units_per_carton,
            total_units: self.total_units,
        }
    }
}

/// An inspection record together with the number of its carton.
pub struct RecordRow {
    pub id: i64,
    pub carton_id: i64,
    pub carton_no: String,
    pub barcode: String,
    pub grade: String,
    pub quantity: i64,
    pub exception_reason: String,
}

pub struct RecordRowModel {
    pub id: i64,
    pub carton_id: i64,
    pub carton_no: Seq<char>,
    pub barcode: Seq<char>,
    pub grade: Seq<char>,
    pub quantity: i64,
    pub exception_reason: Seq<char>,
}

impl View for RecordRow {
    type V = RecordRowModel;

    open spec fn view(&self) -> RecordRowModel {
        RecordRowModel {
            id: self.id,
            carton_id: self.carton_id,
            carton_no: self.carton_no@,
            barcode: self.barcode@,
            grade: self.grade@,
            quantity: self.quantity,
            exception_reason: self.exception_reason@,
        }
    }
}

/// An image handed in with a record: its file name and its bytes in Base64.
pub struct PhotoInput {
    pub name: String,
    pub data_base64: String,
}

/// A new inspection record.
pub struct RecordInput {
    pub batch_id: i64,
    pub carton_id: i64,
    pub barcode: String,
    pub grade: String,
    pub quantity: i64,
    pub exception_reason: String,
    pub photos: Vec<PhotoInput>,
}

/// One record of an edited carton: an existing record when `id` is set, a new
/// one otherwise.
pub struct RecordEditInput {
    pub id: Option<i64>,
    pub barcode: String,
    pub grade: String,
    pub quantity: i64,
    pub exception_reason: String,
    pub photos: Vec<PhotoInput>,
}

/// The whole new list of records of one carton.
pub struct ReplaceCartonRecordsInput {
    pub batch_id: i64,
    pub carton_id: i64,
    pub records: Vec<RecordEditInput>,
}

/// A new image as handed in: its file name and its bytes in Base64.
pub struct PhotoInputModel {
    pub name: Seq<char>,
    pub data: Seq<char>,
}

/// A new inspection record as handed in.
pub struct RecordInputModel {
    pub batch_id: i64,
    pub carton_id: i64,
    pub barcode: Seq<char>,
    pub grade: Seq<char>,
    pub quantity: i64,
    pub exception_reason: Seq<char>,
    pub photos: Seq<PhotoInputModel>,
}

/// One record of an edited carton.
pub struct RecordEditModel {
    pub id: Option<i64>,
    pub barcode: Seq<char>,
    pub grade: Seq<char>,
    pub quantity: i64,
    pub exception_reason: Seq<char>,
    pub photos: Seq<PhotoInputModel>,
}

impl View for PhotoInput {
    type V = PhotoInputModel;

    open spec fn view(&self) -> PhotoInputModel {
        PhotoInputModel { name: self.name@, data: self.data_base64@ }
    }
}

pub open spec fn photo_input_views(s: Seq<PhotoInput>) -> Seq<PhotoInputModel> {
    s.map_values(|p: PhotoInput| p@)
}

impl View for RecordInput {
    type V = RecordInputModel;

    open spec fn view(&self) -> RecordInputModel {
        RecordInputModel {
            batch_id: self.batch_id,
            carton_id: self.carton_id,
            barcode: self.barcode@,
            grade: self.grade@,
            quantity: self.quantity,
            exception_reason: self.exception_reason@,
            photos: photo_input_views(self.photos@),
        }
    }
}

impl View for RecordEditInput {
    type V = RecordEditModel;

    open spec fn view(&self) -> RecordEditModel {
        RecordEditModel {
            id: self.id,
            barcode: self.barcode@,
            grade: self.grade@,
            quantity: self.quantity,
            exception_reason: self.exception_reason@,
            photos: photo_input_views(self.photos@),
        }
    }
}

pub open spec fn edit_views(s: Seq<RecordEditInput>) -> Seq<RecordEditModel> {
    s.map_values(|e: RecordEditInput| e@)
}

/// A stored image of a record.
pub struct PhotoRow {
    pub photo_order: i64,
    pub file_path: String,
}

pub struct PhotoRowModel {
    pub photo_order: i64,
    pub file_path: Seq<char>,
}

impl View for PhotoRow {
    type V = PhotoRowModel;

    open spec fn view(&self) -> PhotoRowModel {
        PhotoRowModel { photo_order: self.photo_order, file_path: self.file_path@ }
    }
}

} // verus!
