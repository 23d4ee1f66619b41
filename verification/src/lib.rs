//! Quality-inspection records for clothing cartons: batches, cartons, product
//! lists, graded inspection records and their photos, the import of carton
//! product lists from spreadsheets, and the layout of the export workbooks.

pub mod text;
pub mod models;
pub mod error;
pub mod validate;
pub mod photos;
pub mod sort;
pub mod schema;
pub mod store;
pub mod order;
pub mod carton_import;
pub mod sheet;
pub mod export;
pub mod laws;
