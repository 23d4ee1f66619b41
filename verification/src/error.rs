//! The failures the library reports, and their messages.

use vstd::prelude::*;
use crate::text::{format_u64, nat_digits, push_str};

verus! {

/// Why an operation was refused. Each carries the message the user sees.
#[derive(Debug, PartialEq, Eq)]
pub enum QaError {
    BatchNoRequired,
    BatchNotFound,
    CartonNoRequired,
    CartonNotFound,
    BarcodeRequired,
    InvalidGrade,
    QuantityNotPositive,
    TooManyPhotos,
    UnsupportedImage,
    InvalidBase64(String),
    InvalidRecord,
    NoInspectionRecords,
    EmptyImport,
    InvalidImportRow,
    DuplicateBatchNo,
    DuplicateCartonNo,
    DuplicateProductUpc,
    ForeignKey,
    IntegerOverflow,
    NoRows,
    StorageFull,
    InvalidStore,
    NotXlsx,
    InvalidHeader,
    RowWithoutCarton(u64),
    EmptyUpc(u64),
    InvalidUnits(u64),
    UnitsNotPositive(u64),
    DuplicateUpc(String, String),
    InvalidCartonCount(u64),
    InvalidTotalUnits(u64),
    NotAnInteger,
    InvalidNumber,
}

/// The view of a `QaError`: the same variants, with text as characters.
pub enum ErrorModel {
    BatchNoRequired,
    BatchNotFound,
    CartonNoRequired,
    CartonNotFound,
    BarcodeRequired,
    InvalidGrade,
    QuantityNotPositive,
    TooManyPhotos,
    UnsupportedImage,
    InvalidBase64(Seq<char>),
    InvalidRecord,
    NoInspectionRecords,
    EmptyImport,
    InvalidImportRow,
    DuplicateBatchNo,
    DuplicateCartonNo,
    DuplicateProductUpc,
    ForeignKey,
    IntegerOverflow,
    NoRows,
    StorageFull,
    InvalidStore,
    NotXlsx,
    InvalidHeader,
    RowWithoutCarton(u64),
    EmptyUpc(u64),
    InvalidUnits(u64),
    UnitsNotPositive(u64),
    DuplicateUpc(Seq<char>, Seq<char>),
    InvalidCartonCount(u64),
    InvalidTotalUnits(u64),
    NotAnInteger,
    InvalidNumber,
}

impl View for QaError {
    type V = ErrorModel;

    open spec fn view(&self) -> ErrorModel {
        match self {
            QaError::BatchNoRequired => ErrorModel::BatchNoRequired,
            QaError::BatchNotFound => ErrorModel::BatchNotFound,
            QaError::CartonNoRequired => ErrorModel::CartonNoRequired,
            QaError::CartonNotFound => ErrorModel::CartonNotFound,
            QaError::BarcodeRequired => ErrorModel::BarcodeRequired,
            QaError::InvalidGrade => ErrorModel::InvalidGrade,
            QaError::QuantityNotPositive => ErrorModel::QuantityNotPositive,
            QaError::TooManyPhotos => ErrorModel::TooManyPhotos,
            QaError::UnsupportedImage => ErrorModel::UnsupportedImage,
            QaError::InvalidBase64(m) => ErrorModel::InvalidBase64(m@),
            QaError::InvalidRecord => ErrorModel::InvalidRecord,
            QaError::NoInspectionRecords => ErrorModel::NoInspectionRecords,
            QaError::EmptyImport => ErrorModel::EmptyImport,
            QaError::InvalidImportRow => ErrorModel::InvalidImportRow,
            QaError::DuplicateBatchNo => ErrorModel::DuplicateBatchNo,
            QaError::DuplicateCartonNo => ErrorModel::DuplicateCartonNo,
            QaError::DuplicateProductUpc => ErrorModel::DuplicateProductUpc,
            QaError::ForeignKey => ErrorModel::ForeignKey,
            QaError::IntegerOverflow => ErrorModel::IntegerOverflow,
            QaError::NoRows => ErrorModel::NoRows,
            QaError::StorageFull => ErrorModel::StorageFull,
            QaError::InvalidStore => ErrorModel::InvalidStore,
            QaError::NotXlsx => ErrorModel::NotXlsx,
            QaError::InvalidHeader => ErrorModel::InvalidHeader,
            QaError::RowWithoutCarton(r) => ErrorModel::RowWithoutCarton(*r),
            QaError::EmptyUpc(r) => ErrorModel::EmptyUpc(*r),
            QaError::InvalidUnits(r) => ErrorModel::InvalidUnits(*r),
            QaError::UnitsNotPositive(r) => ErrorModel::UnitsNotPositive(*r),
            QaError::DuplicateUpc(u, c) => ErrorModel::DuplicateUpc(u@, c@),
            QaError::InvalidCartonCount(r) => ErrorModel::InvalidCartonCount(*r),
            QaError::InvalidTotalUnits(r) => ErrorModel::InvalidTotalUnits(*r),
            QaError::NotAnInteger => ErrorModel::NotAnInteger,
            QaError::InvalidNumber => ErrorModel::InvalidNumber,
        }
    }
}

/// The text of the message for each error.
pub open spec fn message_spec(e: ErrorModel) -> Seq<char> {
    match e {
        ErrorModel::BatchNoRequired => "Batch number is required"@,
        ErrorModel::BatchNotFound => "Batch not found"@,
        ErrorModel::CartonNoRequired => "Carton number is required"@,
        ErrorModel::CartonNotFound => "Carton not found"@,
        ErrorModel::BarcodeRequired => "Product barcode is required"@,
        ErrorModel::InvalidGrade => "Invalid grade"@,
        ErrorModel::QuantityNotPositive => "Quantity must be greater than 0"@,
        ErrorModel::TooManyPhotos => "Maximum 3 images per record"@,
        ErrorModel::UnsupportedImage => "Only JPG, JPEG, and PNG images are supported"@,
        ErrorModel::InvalidBase64(m) => m,
        ErrorModel::InvalidRecord => "Carton changes contain an invalid record"@,
        ErrorModel::NoInspectionRecords => "This carton has no inspection records"@,
        ErrorModel::EmptyImport => "The import file contains no valid carton data"@,
        ErrorModel::InvalidImportRow => "Carton number, UPC, and # OF UNITS PER CRTN must be valid"@,
        ErrorModel::DuplicateBatchNo => "UNIQUE constraint failed: batches.batch_no"@,
        ErrorModel::DuplicateCartonNo => "UNIQUE constraint failed: cartons.batch_id, cartons.carton_no"@,
        ErrorModel::DuplicateProductUpc => "UNIQUE constraint failed: carton_products.carton_id, carton_products.upc"@,
        ErrorModel::ForeignKey => "FOREIGN KEY constraint failed"@,
        ErrorModel::IntegerOverflow => "integer overflow"@,
        ErrorModel::NoRows => "Query returned no rows"@,
        ErrorModel::StorageFull => "database or disk is full"@,
        ErrorModel::InvalidStore => "The stored tables do not keep their constraints"@,
        ErrorModel::NotXlsx => "Use an Excel file in p.xlsx format (.xlsx)"@,
        ErrorModel::InvalidHeader => "Invalid p.xlsx header: BOX #, UPC, and # OF UNITS PER CRTN are required"@,
        ErrorModel::RowWithoutCarton(r) => "UPC on row "@ + nat_digits(r as nat) + " has no carton number"@,
        ErrorModel::EmptyUpc(r) => "UPC is empty on row "@ + nat_digits(r as nat),
        ErrorModel::InvalidUnits(r) => "Invalid # OF UNITS PER CRTN on row "@ + nat_digits(r as nat),
        ErrorModel::UnitsNotPositive(r) => "# OF UNITS PER CRTN on row "@ + nat_digits(r as nat)
            + " must be a positive integer"@,
        ErrorModel::DuplicateUpc(u, c) => "Duplicate UPC "@ + u + " in carton "@ + c,
        ErrorModel::InvalidCartonCount(r) => "Invalid # OF CRTN on row "@ + nat_digits(r as nat),
        ErrorModel::InvalidTotalUnits(r) => "Invalid TOTAL UNITS on row "@ + nat_digits(r as nat),
        ErrorModel::NotAnInteger => "Value is not an integer"@,
        ErrorModel::InvalidNumber => "invalid float literal"@,
    }
}

fn text(s: &str) -> (r: String)
    ensures
        r@ == s@,
{
    String::from_str(s)
}

fn text_with_row(before: &str, row: u64, after: &str) -> (r: String)
    ensures
        r@ == before@ + nat_digits(row as nat) + after@,
{
    let mut r = String::from_str(before);
    let digits = format_u64(row);
    push_str(&mut r, digits.as_str());
    push_str(&mut r, after);
    r
}

fn text_then_row(before: &str, row: u64) -> (r: String)
    ensures
        r@ == before@ + nat_digits(row as nat),
{
    let mut r = String::from_str(before);
    let digits = format_u64(row);
    push_str(&mut r, digits.as_str());
    r
}

impl QaError {
    /// The message shown for this error.
    pub fn message(&self) -> (r: String)
        ensures
            r@ == message_spec(self@),
    {
        match self {
            QaError::BatchNoRequired => text("Batch number is required"),
            QaError::BatchNotFound => text("Batch not found"),
            QaError::CartonNoRequired => text("Carton number is required"),
            QaError::CartonNotFound => text("Carton not found"),
            QaError::BarcodeRequired => text("Product barcode is required"),
            QaError::InvalidGrade => text("Invalid grade"),
            QaError::QuantityNotPositive => text("Quantity must be greater than 0"),
            QaError::TooManyPhotos => text("Maximum 3 images per record"),
            QaError::UnsupportedImage => text("Only JPG, JPEG, and PNG images are supported"),
            QaError::InvalidBase64(m) => m.clone(),
            QaError::InvalidRecord => text("Carton changes contain an invalid record"),
            QaError::NoInspectionRecords => text("This carton has no inspection records"),
            QaError::EmptyImport => text("The import file contains no valid carton data"),
            QaError::InvalidImportRow => text("Carton number, UPC, and # OF UNITS PER CRTN must be valid"),
            QaError::DuplicateBatchNo => text("UNIQUE constraint failed: batches.batch_no"),
            QaError::DuplicateCartonNo => text("UNIQUE constraint failed: cartons.batch_id, cartons.carton_no"),
            QaError::DuplicateProductUpc => text("UNIQUE constraint failed: carton_products.carton_id, carton_products.upc"),
            QaError::ForeignKey => text("FOREIGN KEY constraint failed"),
            QaError::IntegerOverflow => text("integer overflow"),
            QaError::NoRows => text("Query returned no rows"),
            QaError::StorageFull => text("database or disk is full"),
            QaError::InvalidStore => text("The stored tables do not keep their constraints"),
            QaError::NotXlsx => text("Use an Excel file in p.xlsx format (.xlsx)"),
            QaError::InvalidHeader => text("Invalid p.xlsx header: BOX #, UPC, and # OF UNITS PER CRTN are required"),
            QaError::RowWithoutCarton(r) => text_with_row("UPC on row ", *r, " has no carton number"),
            QaError::EmptyUpc(r) => text_then_row("UPC is empty on row ", *r),
            QaError::InvalidUnits(r) => text_then_row("Invalid # OF UNITS PER CRTN on row ", *r),
            QaError::UnitsNotPositive(r) => text_with_row("# OF UNITS PER CRTN on row ", *r, " must be a positive integer"),
            QaError::DuplicateUpc(u, c) => {
                let mut m = String::from_str("Duplicate UPC ");
                push_str(&mut m, u.as_str());
                push_str(&mut m, " in carton ");
                push_str(&mut m, c.as_str());
                m
            },
            QaError::InvalidCartonCount(r) => text_then_row("Invalid # OF CRTN on row ", *r),
            QaError::InvalidTotalUnits(r) => text_then_row("Invalid TOTAL UNITS on row ", *r),
            QaError::NotAnInteger => text("Value is not an integer"),
            QaError::InvalidNumber => text("invalid float literal"),
        }
    }
}

/// Turns the library's outcome into what the user interface receives: the
/// value, or the error's message.
pub fn result<T>(value: Result<T, QaError>) -> (r: Result<T, String>)
    ensures
        match value {
            Ok(v) => r == Ok::<T, String>(v),
            Err(e) => r is Err && r->Err_0@ == message_spec(e@),
        },
{
    match value {
        Ok(v) => Ok(v),
        Err(e) => Err(e.message()),
    }
}

} // verus!
