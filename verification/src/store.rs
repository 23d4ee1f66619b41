//! The inspection store: batches, their cartons, the product lines of each
//! carton, graded inspection records and their images, with the constraints
//! of the schema they are kept under and the operations of the application.

use vstd::prelude::*;
use crate::error::{ErrorModel, QaError};
use crate::models::{Batch, BatchInput, BatchModel};
use crate::schema::{
    CartonModel, CartonRow, DbModel, InspectionRow, PhotoEntry, PhotoModel, ProductModel, ProductRow,
    RecordModel, carton_qty, grade_qty, lemma_create_batch_wf, lemma_create_carton_wf,
    lemma_grades_distinct, lemma_push_ascending, lemma_qty_bounds, lemma_qty_step, lemma_set_status_wf, next_id,
    status_inspecting, status_setter, lemma_delete_batch_wf, lemma_filter_take_step, batch_other_than,
    carton_outside_batch, record_outside_batch, photo_paths, string_views, batch_views, carton_views,
    product_views, record_views, photo_views,
};
use crate::validate::grade_is;
use crate::text::{is_blank, trim, trim_spec};

mod listing;
mod records;
mod importing;
mod exporting;
mod loading;

pub use importing::import_sums_fit;

verus! {

/// The store. Its view is a `DbModel` that always keeps the constraints.
pub struct Database {
    batches: Vec<Batch>,
    cartons: Vec<CartonRow>,
    products: Vec<ProductRow>,
    records: Vec<InspectionRow>,
    photos: Vec<PhotoEntry>,
    photo_dir: String,
    sep: char,
}

impl View for Database {
    type V = DbModel;

    closed spec fn view(&self) -> DbModel {
        DbModel {
            batches: batch_views(self.batches@),
            cartons: carton_views(self.cartons@),
            products: product_views(self.products@),
            records: record_views(self.records@),
            photos: photo_views(self.photos@),
            photo_dir: self.photo_dir@,
            sep: self.sep,
        }
    }
}

impl Database {
    /// The type invariant: the model of every store keeps the constraints of
    /// its tables. A caller holding a store learns it with
    /// `use_type_invariant`, and with it may apply each law stated of a
    /// well-formed model.
    #[verifier::type_invariant]
    pub open spec fn inv(self) -> bool {
        self@.wf()
    }

    /// An empty store whose images go under `photo_dir`, with `sep` as the
    /// path separator.
    pub fn new(photo_dir: String, sep: char) -> (db: Database)
        ensures
            db@.batches.len() == 0,
            db@.cartons.len() == 0,
            db@.products.len() == 0,
            db@.records.len() == 0,
            db@.photos.len() == 0,
            db@.photo_dir == photo_dir@,
            db@.sep == sep,
            db@.wf(),
    {
        Database {
            batches: Vec::new(),
            cartons: Vec::new(),
            products: Vec::new(),
            records: Vec::new(),
            photos: Vec::new(),
            photo_dir,
            sep,
        }
    }

    /// Adds a carton to a batch and gives its id.
    #[verifier::loop_isolation(false)]
    pub fn create_carton(&mut self, batch_id: i64, carton_no: String) -> (r: Result<i64, QaError>)
        ensures
            match r {
                Ok(id) => old(self)@.create_carton(batch_id, carton_no@) == Ok::<(DbModel, i64), ErrorModel>(
                    (final(self)@, id),
                ),
                Err(e) => old(self)@.create_carton(batch_id, carton_no@) == Err::<(DbModel, i64), ErrorModel>(
                    e@,
                ) && final(self)@ == old(self)@,
            },
    {
        proof {
            use_type_invariant(&*self);
        }
        if is_blank(carton_no.as_str()) {
            return Err(QaError::CartonNoRequired);
        }
        let no = trim(carton_no.as_str());
        if !self.has_batch_exec(batch_id) {
            return Err(QaError::ForeignKey);
        }
        let n = self.cartons.len();
        let mut i: usize = 0;
        while i < n
            invariant
                i <= n == self.cartons@.len(),
                forall|k: int| 0 <= k < i ==> !(self@.cartons[k].batch_id == batch_id && self@.cartons[k].carton_no == no@),
            decreases n - i,
        {
            if self.cartons[i].batch_id == batch_id && self.cartons[i].carton_no == no {
                assert(self@.cartons[i as int].batch_id == batch_id && self@.cartons[i as int].carton_no == no@);
                return Err(QaError::DuplicateCartonNo);
            }
            i = i + 1;
        }
        let id: i64 = if n == 0 {
            1
        } else {
            let last = self.cartons[n - 1].id;
            if last == i64::MAX {
                return Err(QaError::StorageFull);
            }
            last + 1
        };
        let ghost before = self@;
        proof {
            lemma_create_carton_wf(before, batch_id, carton_no@);
        }
        let (batches, mut cartons, products, records, photos, photo_dir, sep) = self.take_parts();
        cartons.push(
            CartonRow {
                id,
                batch_id,
                carton_no: no,
                reference_qty: None,
                status: String::from_str("inspecting"),
            },
        );
        proof {
            assert(carton_views(cartons@) =~= before.cartons.push(cartons@[n as int]@));
        }
        self.put_parts(batches, cartons, products, records, photos, photo_dir, sep);
        Ok(id)
    }

    fn has_batch_exec(&self, id: i64) -> (r: bool)
        ensures
            r == self@.has_batch(id),
    {
        let n = self.batches.len();
        let mut i: usize = 0;
        while i < n
            invariant
                i <= n == self.batches@.len(),
                forall|k: int| 0 <= k < i ==> self@.batches[k].id != id,
            decreases n - i,
        {
            if self.batches[i].id == id {
                assert(self@.batches[i as int].id == id);
                return true;
            }
            i = i + 1;
        }
        false
    }

    /// Sets the status of carton `id`, where there is one.
    fn set_status_exec(&mut self, id: i64, status: &str)
        ensures
            final(self)@ == old(self)@.set_status(id, status@),
    {
        proof {
            use_type_invariant(&*self);
            lemma_set_status_wf(self@, id, status@);
        }
        let ghost before = self@;
        let n = self.cartons.len();
        let mut i: usize = 0;
        while i < n && self.cartons[i].id != id
            invariant
                i <= n == self.cartons@.len(),
                forall|k: int| 0 <= k < i ==> self@.cartons[k].id != id,
            decreases n - i,
        {
            i = i + 1;
        }
        let ghost f = status_setter(id, status@);
        if i == n {
            assert(carton_views(self.cartons@) =~= before.cartons.map_values(f));
            assert(self@ =~= before.set_status(id, status@));
            return;
        }
        let (batches, mut cartons, products, records, photos, photo_dir, sep) = self.take_parts();
        let row = CartonRow {
            id: cartons[i].id,
            batch_id: cartons[i].batch_id,
            carton_no: cartons[i].carton_no.clone(),
            reference_qty: cartons[i].reference_qty,
            status: String::from_str(status),
        };
        cartons.set(i, row);
        proof {
            assert forall|k: int| 0 <= k < n implies #[trigger] carton_views(cartons@)[k] == f(before.cartons[k]) by {
                if k != i {
                    if k < i {
                    } else {
                        assert(before.cartons[i as int].id < before.cartons[k].id);
                    }
                }
            }
            assert(carton_views(cartons@) =~= before.cartons.map_values(f));
        }
        self.put_parts(batches, cartons, products, records, photos, photo_dir, sep);
    }

    /// Opens a carton for inspection again.
    pub fn reopen_carton(&mut self, id: i64) -> (r: Result<(), QaError>)
        ensures
            r is Ok,
            final(self)@ == old(self)@.set_status(id, status_inspecting()),
    {
        self.set_status_exec(id, "inspecting");
        Ok(())
    }

    /// The totals of the records of carton `cid`: all grades, then A, B, C
    /// and D; `None` where the whole total is out of range.
    pub(crate) fn carton_totals(&self, cid: i64) -> (r: Option<(i64, i64, i64, i64, i64)>)
        ensures
            match r {
                None => carton_qty(self@.records, cid) > i64::MAX,
                Some((t, a, b, c, d)) => {
                    &&& 0 <= a <= t && 0 <= b <= t && 0 <= c <= t && 0 <= d <= t
                    &&& t == carton_qty(self@.records, cid)
                    &&& a == grade_qty(self@.records, cid, seq!['A'])
                    &&& b == grade_qty(self@.records, cid, seq!['B'])
                    &&& c == grade_qty(self@.records, cid, seq!['C'])
                    &&& d == grade_qty(self@.records, cid, seq!['D'])
                },
            },
    {
        proof {
            use_type_invariant(self);
        }
        let ghost rs = self@.records;
        assert(self@.wf());
        assert forall|k: int| 0 <= k < rs.len() implies (#[trigger] rs[k]).quantity > 0 by {
            assert(self@.wf_records());
            assert(rs[k].carton_id == self@.records[k].carton_id);
        }
        proof {
            lemma_grades_distinct();
        }
        let n = self.records.len();
        let mut t: i64 = 0;
        let mut a: i64 = 0;
        let mut b: i64 = 0;
        let mut c: i64 = 0;
        let mut d: i64 = 0;
        let mut i: usize = 0;
        assert(rs.take(0) =~= Seq::<RecordModel>::empty());
        while i < n
            invariant
                i <= n == rs.len(),
                rs == self@.records,
                forall|k: int| 0 <= k < rs.len() ==> (#[trigger] rs[k]).quantity > 0,
                t == carton_qty(rs.take(i as int), cid),
                a == grade_qty(rs.take(i as int), cid, seq!['A']),
                b == grade_qty(rs.take(i as int), cid, seq!['B']),
                c == grade_qty(rs.take(i as int), cid, seq!['C']),
                d == grade_qty(rs.take(i as int), cid, seq!['D']),
            decreases n - i,
        {
            let row = &self.records[i];
            assert(rs[i as int] == row@);
            proof {
                lemma_grades_distinct();
                lemma_qty_step(rs, cid, seq!['A'], i as int);
                lemma_qty_step(rs, cid, seq!['B'], i as int);
                lemma_qty_step(rs, cid, seq!['C'], i as int);
                lemma_qty_step(rs, cid, seq!['D'], i as int);
                lemma_qty_bounds(rs, cid, seq!['A'], i + 1);
                lemma_qty_bounds(rs, cid, seq!['B'], i + 1);
                lemma_qty_bounds(rs, cid, seq!['C'], i + 1);
                lemma_qty_bounds(rs, cid, seq!['D'], i + 1);
            }
            if row.carton_id == cid {
                let q = row.quantity;
                if t > i64::MAX - q {
                    proof {
                        lemma_qty_bounds(rs, cid, seq!['A'], i + 1);
                    }
                    return None;
                }
                t = t + q;
                if grade_is(row.grade.as_str(), 'A') {
                    a = a + q;
                } else if grade_is(row.grade.as_str(), 'B') {
                    b = b + q;
                } else if grade_is(row.grade.as_str(), 'C') {
                    c = c + q;
                } else if grade_is(row.grade.as_str(), 'D') {
                    d = d + q;
                }
            }
            i = i + 1;
        }
        assert(rs.take(n as int) =~= rs);
        proof {
            lemma_qty_bounds(rs, cid, seq!['A'], n as int);
            lemma_qty_bounds(rs, cid, seq!['B'], n as int);
            lemma_qty_bounds(rs, cid, seq!['C'], n as int);
            lemma_qty_bounds(rs, cid, seq!['D'], n as int);
        }
        Some((t, a, b, c, d))
    }

    /// Marks a carton completed; refused while it has no records.
    pub fn complete_carton(&mut self, id: i64) -> (r: Result<(), QaError>)
        ensures
            match r {
                Ok(()) => old(self)@.complete_carton(id) == Ok::<DbModel, ErrorModel>(final(self)@),
                Err(e) => old(self)@.complete_carton(id) == Err::<DbModel, ErrorModel>(e@) && final(self)@ == old(self)@,
            },
    {
        match self.carton_totals(id) {
            None => Err(QaError::IntegerOverflow),
            Some((t, _, _, _, _)) => {
                if t == 0 {
                    return Err(QaError::NoInspectionRecords);
                }
                self.set_status_exec(id, "completed");
                Ok(())
            },
        }
    }

    /// Deletes a batch with its cartons, their products, its records and
    /// their images, and gives the image files to remove.
    pub fn delete_batch(&mut self, id: i64) -> (r: Result<Vec<String>, QaError>)
        ensures
            match r {
                Ok(paths) => old(self)@.delete_batch(id) == Ok::<(DbModel, Seq<Seq<char>>), ErrorModel>(
                    (final(self)@, string_views(paths@)),
                ),
                Err(e) => old(self)@.delete_batch(id) == Err::<(DbModel, Seq<Seq<char>>), ErrorModel>(e@)
                    && final(self)@ == old(self)@,
            },
    {
        proof {
            use_type_invariant(&*self);
        }
        if !self.has_batch_exec(id) {
            return Err(QaError::BatchNotFound);
        }
        let ghost before = self@;
        proof {
            lemma_delete_batch_wf(before, id);
        }
        let (batches, cartons, products, records, photos, photo_dir, sep) = self.take_parts();
        // images of the batch's records
        let ghost keep_photo = before.photo_outside_batch(id);
        let ghost drop_photo = before.photo_inside_batch(id);
        let mut new_photos: Vec<PhotoEntry> = Vec::new();
        let mut paths: Vec<String> = Vec::new();
        let mut i: usize = 0;
        while i < photos.len()
            invariant
                i <= photos@.len(),
                before.photos == photo_views(photos@),
                before.records == record_views(records@),
                keep_photo == before.photo_outside_batch(id),
                drop_photo == before.photo_inside_batch(id),
                photo_views(new_photos@) == before.photos.take(i as int).filter(keep_photo),
                string_views(paths@) == photo_paths(before.photos.take(i as int).filter(drop_photo)),
            decreases photos@.len() - i,
        {
            proof {
                lemma_filter_take_step(before.photos, i as int, keep_photo);
                lemma_filter_take_step(before.photos, i as int, drop_photo);
            }
            let p = &photos[i];
            let inside = record_in_batch_vec(&records, p.record_id, id);
            if inside {
                let ghost prev = paths@;
                let ghost f = before.photos.take(i as int).filter(drop_photo);
                paths.push(p.file_path.clone());
                assert(string_views(paths@) =~= string_views(prev).push(p.file_path@));
                assert(photo_paths(f.push(p@)) =~= photo_paths(f).push(p@.file_path));
            } else {
                let ghost prev = new_photos@;
                new_photos.push(p.duplicate());
                assert(photo_views(new_photos@) =~= photo_views(prev).push(p@));
            }
            i = i + 1;
        }
        assert(before.photos.take(photos@.len() as int) =~= before.photos);
        // records of the batch
        let ghost keep_record = record_outside_batch(id);
        let mut new_records: Vec<InspectionRow> = Vec::new();
        let mut i: usize = 0;
        while i < records.len()
            invariant
                i <= records@.len(),
                before.records == record_views(records@),
                keep_record == record_outside_batch(id),
                record_views(new_records@) == before.records.take(i as int).filter(keep_record),
            decreases records@.len() - i,
        {
            proof {
                lemma_filter_take_step(before.records, i as int, keep_record);
            }
            if records[i].batch_id != id {
                let ghost prev = new_records@;
                new_records.push(records[i].duplicate());
                assert(record_views(new_records@) =~= record_views(prev).push(records@[i as int]@));
            }
            i = i + 1;
        }
        assert(before.records.take(records@.len() as int) =~= before.records);
        // products of the batch's cartons
        let ghost keep_product = before.product_outside_batch(id);
        let mut new_products: Vec<ProductRow> = Vec::new();
        let mut i: usize = 0;
        while i < products.len()
            invariant
                i <= products@.len(),
                before.products == product_views(products@),
                before.cartons == carton_views(cartons@),
                keep_product == before.product_outside_batch(id),
                product_views(new_products@) == before.products.take(i as int).filter(keep_product),
            decreases products@.len() - i,
        {
            proof {
                lemma_filter_take_step(before.products, i as int, keep_product);
            }
            if !carton_in_batch_vec(&cartons, products[i].carton_id, id) {
                let ghost prev = new_products@;
                new_products.push(products[i].duplicate());
                assert(product_views(new_products@) =~= product_views(prev).push(products@[i as int]@));
            }
            i = i + 1;
        }
        assert(before.products.take(products@.len() as int) =~= before.products);
        // cartons of the batch
        let ghost keep_carton = carton_outside_batch(id);
        let mut new_cartons: Vec<CartonRow> = Vec::new();
        let mut i: usize = 0;
        while i < cartons.len()
            invariant
                i <= cartons@.len(),
                before.cartons == carton_views(cartons@),
                keep_carton == carton_outside_batch(id),
                carton_views(new_cartons@) == before.cartons.take(i as int).filter(keep_carton),
            decreases cartons@.len() - i,
        {
            proof {
                lemma_filter_take_step(before.cartons, i as int, keep_carton);
            }
            if cartons[i].batch_id != id {
                let ghost prev = new_cartons@;
                new_cartons.push(cartons[i].duplicate());
                assert(carton_views(new_cartons@) =~= carton_views(prev).push(cartons@[i as int]@));
            }
            i = i + 1;
        }
        assert(before.cartons.take(cartons@.len() as int) =~= before.cartons);
        // the batch
        let ghost keep_batch = batch_other_than(id);
        let mut new_batches: Vec<Batch> = Vec::new();
        let mut i: usize = 0;
        while i < batches.len()
            invariant
                i <= batches@.len(),
                before.batches == batch_views(batches@),
                keep_batch == batch_other_than(id),
                batch_views(new_batches@) == before.batches.take(i as int).filter(keep_batch),
            decreases batches@.len() - i,
        {
            proof {
                lemma_filter_take_step(before.batches, i as int, keep_batch);
            }
            if batches[i].id != id {
                let ghost prev = new_batches@;
                new_batches.push(batches[i].duplicate());
                assert(batch_views(new_batches@) =~= batch_views(prev).push(batches@[i as int]@));
            }
            i = i + 1;
        }
        assert(before.batches.take(batches@.len() as int) =~= before.batches);
        self.put_parts(new_batches, new_cartons, new_products, new_records, new_photos, photo_dir, sep);
        Ok(paths)
    }

    /// Moves the tables out, leaving an empty store in their place.
    fn take_parts(&mut self) -> (r: (
        Vec<Batch>,
        Vec<CartonRow>,
        Vec<ProductRow>,
        Vec<InspectionRow>,
        Vec<PhotoEntry>,
        String,
        char,
    ))
        ensures
            old(self)@ == (DbModel {
                batches: batch_views(r.0@),
                cartons: carton_views(r.1@),
                products: product_views(r.2@),
                records: record_views(r.3@),
                photos: photo_views(r.4@),
                photo_dir: r.5@,
                sep: r.6,
            }),
            final(self)@.batches.len() == 0,
            final(self)@.cartons.len() == 0,
            final(self)@.products.len() == 0,
            final(self)@.records.len() == 0,
            final(self)@.photos.len() == 0,
    {
        let mut tmp = Database::new(String::new(), self.sep);
        std::mem::swap(self, &mut tmp);
        proof {
            use_type_invariant(&tmp);
        }
        let Database { batches, cartons, products, records, photos, photo_dir, sep } = tmp;
        (batches, cartons, products, records, photos, photo_dir, sep)
    }

    /// Puts tables that keep the constraints back in place.
    fn put_parts(
        &mut self,
        batches: Vec<Batch>,
        cartons: Vec<CartonRow>,
        products: Vec<ProductRow>,
        records: Vec<InspectionRow>,
        photos: Vec<PhotoEntry>,
        photo_dir: String,
        sep: char,
    )
        requires
            (DbModel {
                batches: batch_views(batches@),
                cartons: carton_views(cartons@),
                products: product_views(products@),
                records: record_views(records@),
                photos: photo_views(photos@),
                photo_dir: photo_dir@,
                sep: sep,
            }).wf(),
        ensures
            final(self)@ == (DbModel {
                batches: batch_views(batches@),
                cartons: carton_views(cartons@),
                products: product_views(products@),
                records: record_views(records@),
                photos: photo_views(photos@),
                photo_dir: photo_dir@,
                sep: sep,
            }),
    {
        *self = Database { batches, cartons, products, records, photos, photo_dir, sep };
    }

    /// The batches, newest first.
    pub fn list_batches(&self) -> (r: Result<Vec<Batch>, QaError>)
        ensures
            r is Ok,
            r matches Ok(v) ==> batch_views(v@) == self@.batches.reverse(),
    {
        let mut r: Vec<Batch> = Vec::new();
        let n = self.batches.len();
        let mut i = n;
        while i > 0
            invariant
                i <= n == self.batches@.len(),
                batch_views(r@) =~= self@.batches.reverse().take(n - i),
            decreases i,
        {
            i = i - 1;
            let ghost prev = r@;
            r.push(self.batches[i].duplicate());
            assert(r@ == prev.push(self.batches@[i as int]));
            assert(self@.batches[i as int] == self.batches@[i as int]@);
            assert(self@.batches.reverse()[n - 1 - i] == self@.batches[i as int]);
            assert(batch_views(r@) =~= batch_views(prev).push(self.batches@[i as int]@));
            assert(batch_views(r@) =~= self@.batches.reverse().take(n - i));
        }
        assert(self@.batches.reverse().take(n as int) =~= self@.batches.reverse());
        Ok(r)
    }

    /// Adds a batch and gives its id.
    #[verifier::loop_isolation(false)]
    pub fn create_batch(&mut self, input: BatchInput) -> (r: Result<i64, QaError>)
        ensures
            match r {
                Ok(id) => old(self)@.create_batch(input.batch_no@, input.inspection_date@) == Ok::<
                    (DbModel, i64),
                    ErrorModel,
                >((final(self)@, id)),
                Err(e) => old(self)@.create_batch(input.batch_no@, input.inspection_date@) == Err::<
                    (DbModel, i64),
                    ErrorModel,
                >(e@) && final(self)@ == old(self)@,
            },
    {
        proof {
            use_type_invariant(&*self);
        }
        if is_blank(input.batch_no.as_str()) {
            return Err(QaError::BatchNoRequired);
        }
        let no = trim(input.batch_no.as_str());
        let n = self.batches.len();
        let mut i: usize = 0;
        while i < n
            invariant
                i <= n == self.batches@.len(),
                forall|k: int| 0 <= k < i ==> self@.batches[k].batch_no != no@,
            decreases n - i,
        {
            if self.batches[i].batch_no == no {
                assert(self@.batches[i as int].batch_no == no@);
                assert(exists|k: int| 0 <= k < self@.batches.len() && #[trigger] self@.batches[k].batch_no == trim_spec(input.batch_no@));
                return Err(QaError::DuplicateBatchNo);
            }
            i = i + 1;
        }
        let id: i64 = if n == 0 {
            1
        } else {
            let last = self.batches[n - 1].id;
            if last == i64::MAX {
                return Err(QaError::StorageFull);
            }
            last + 1
        };
        let ghost before = self@;
        let (mut batches, cartons, products, records, photos, photo_dir, sep) = self.take_parts();
        let ghost nb = BatchModel { id, batch_no: no@, inspection_date: input.inspection_date@ };
        proof {
            lemma_create_batch_wf(before, input.batch_no@, input.inspection_date@);
        }
        batches.push(Batch { id, batch_no: no, inspection_date: input.inspection_date });
        proof {
            assert(batch_views(batches@) =~= before.batches.push(batches@[n as int]@));
        }
        self.put_parts(batches, cartons, products, records, photos, photo_dir, sep);
        Ok(id)
    }
}

fn record_in_batch_vec(records: &Vec<InspectionRow>, rid: i64, batch_id: i64) -> (r: bool)
    ensures
        r == (exists|k: int|
            0 <= k < record_views(records@).len() && #[trigger] record_views(records@)[k].id == rid
                && record_views(records@)[k].batch_id == batch_id),
{
    let mut i: usize = 0;
    while i < records.len()
        invariant
            i <= records@.len(),
            forall|k: int| 0 <= k < i ==> !(#[trigger] record_views(records@)[k].id == rid && record_views(records@)[k].batch_id == batch_id),
        decreases records@.len() - i,
    {
        if records[i].id == rid && records[i].batch_id == batch_id {
            assert(record_views(records@)[i as int].id == rid);
            return true;
        }
        i = i + 1;
    }
    false
}

fn carton_in_batch_vec(cartons: &Vec<CartonRow>, cid: i64, batch_id: i64) -> (r: bool)
    ensures
        r == (exists|k: int|
            0 <= k < carton_views(cartons@).len() && #[trigger] carton_views(cartons@)[k].id == cid
                && carton_views(cartons@)[k].batch_id == batch_id),
{
    let mut i: usize = 0;
    while i < cartons.len()
        invariant
            i <= cartons@.len(),
            forall|k: int| 0 <= k < i ==> !(#[trigger] carton_views(cartons@)[k].id == cid && carton_views(cartons@)[k].batch_id == batch_id),
        decreases cartons@.len() - i,
    {
        if cartons[i].id == cid && cartons[i].batch_id == batch_id {
            assert(carton_views(cartons@)[i as int].id == cid);
            return true;
        }
        i = i + 1;
    }
    false
}

} // verus!
