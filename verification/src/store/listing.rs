//! Listing the store's rows in the orders the application shows them.

use vstd::prelude::*;
use crate::error::{ErrorModel, QaError};
use crate::models::{Batch, Carton, CartonProduct, PhotoRow, RecordRow};
use crate::order::{
    lemma_text_le_antisym, lemma_text_le_refl, lemma_text_le_total, lemma_text_le_trans, sql_cast_int,
    sql_cast_int_exec, text_le, text_le_exec,
};
use crate::schema::{
    PhotoEntry, ProductRow, carton_key_le, photo_key_le, product_key_le, record_key_le, text_lt,
};
use crate::schema::{
    DbModel, carton_in_batch_pred, carton_order, carton_qty, lemma_ascending_unique, record_of_batch,
    record_of_carton, record_order, record_row_views, product_of, product_order, to_carton_product,
    carton_product_views, product_views, photo_of, photo_order, photo_views, to_photo_row,
    photo_row_views, ProductModel, PhotoModel, lemma_filter_take_step, summary_views, sorted_by,
};
use crate::sort::{SortKey, lemma_map_multiset, sort_by_key, sorted_by_key};
use super::Database;

verus! {

impl SortKey for Carton {
    open spec fn key_le(a: Self, b: Self) -> bool {
        carton_key_le(a@, b@)
    }

    proof fn le_total(a: Self, b: Self) {
        lemma_text_le_total(a.carton_no@, b.carton_no@);
    }

    proof fn le_trans(a: Self, b: Self, c: Self) {
        if sql_cast_int(a.carton_no@) == sql_cast_int(b.carton_no@) && sql_cast_int(b.carton_no@)
            == sql_cast_int(c.carton_no@) {
            lemma_text_le_trans(a.carton_no@, b.carton_no@, c.carton_no@);
        }
    }

    fn le(&self, other: &Self) -> (r: bool) {
        let x = sql_cast_int_exec(self.carton_no.as_str());
        let y = sql_cast_int_exec(other.carton_no.as_str());
        x < y || (x == y && text_le_exec(self.carton_no.as_str(), other.carton_no.as_str()))
    }
}

impl SortKey for RecordRow {
    open spec fn key_le(a: Self, b: Self) -> bool {
        record_key_le(a@, b@)
    }

    proof fn le_total(a: Self, b: Self) {
        lemma_text_le_total(a.carton_no@, b.carton_no@);
    }

    proof fn le_trans(a: Self, b: Self, c: Self) {
        let (x, y, z) = (a.carton_no@, b.carton_no@, c.carton_no@);
        if sql_cast_int(x) == sql_cast_int(y) && sql_cast_int(y) == sql_cast_int(z) {
            if text_lt(x, y) && text_lt(y, z) {
                lemma_text_le_trans(x, y, z);
                if x == z {
                    lemma_text_le_antisym(x, y);
                }
            } else if text_lt(x, y) && y == z {
            } else if x == y && text_lt(y, z) {
            } else {
            }
        }
    }

    fn le(&self, other: &Self) -> (r: bool) {
        let x = sql_cast_int_exec(self.carton_no.as_str());
        let y = sql_cast_int_exec(other.carton_no.as_str());
        if x != y {
            return x < y;
        }
        let same = self.carton_no == other.carton_no;
        if same {
            self.id <= other.id
        } else {
            text_le_exec(self.carton_no.as_str(), other.carton_no.as_str())
        }
    }
}

impl SortKey for ProductRow {
    open spec fn key_le(a: Self, b: Self) -> bool {
        product_key_le(a@, b@)
    }

    proof fn le_total(a: Self, b: Self) {
    }

    proof fn le_trans(a: Self, b: Self, c: Self) {
    }

    fn le(&self, other: &Self) -> (r: bool) {
        self.source_order < other.source_order || (self.source_order == other.source_order && self.id
            <= other.id)
    }
}

impl SortKey for PhotoEntry {
    open spec fn key_le(a: Self, b: Self) -> bool {
        photo_key_le(a@, b@)
    }

    proof fn le_total(a: Self, b: Self) {
    }

    proof fn le_trans(a: Self, b: Self, c: Self) {
    }

    fn le(&self, other: &Self) -> (r: bool) {
        self.photo_order <= other.photo_order
    }
}

impl Database {
    /// The cartons of a batch with the totals of their records, ordered by
    /// number; refused where a carton's total is out of range.
    pub fn list_cartons(&self, batch_id: i64) -> (r: Result<Vec<Carton>, QaError>)
        ensures
            match r {
                Ok(v) => {
                    &&& !self@.batch_totals_overflow(batch_id)
                    &&& sorted_by(summary_views(v@), carton_order())
                    &&& summary_views(v@).to_multiset() == self@.batch_summaries(batch_id).to_multiset()
                },
                Err(e) => e@ == ErrorModel::IntegerOverflow && self@.batch_totals_overflow(batch_id),
            },
    {
        proof {
            use_type_invariant(self);
        }
        let ghost m = self@;
        let ghost p = carton_in_batch_pred(batch_id);
        let mut out: Vec<Carton> = Vec::new();
        let n = self.cartons.len();
        let mut i: usize = 0;
        while i < n
            invariant
                i <= n == m.cartons.len(),
                m == self@,
                p == carton_in_batch_pred(batch_id),
                summary_views(out@) == m.cartons.take(i as int).filter(p).map_values(m.summarizer()),
                forall|k: int| 0 <= k < i && #[trigger] m.cartons[k].batch_id == batch_id ==> carton_qty(m.records, m.cartons[k].id) <= i64::MAX,
            decreases n - i,
        {
            proof {
                lemma_filter_take_step(m.cartons, i as int, p);
            }
            let c = &self.cartons[i];
            assert(m.cartons[i as int] == c@);
            if c.batch_id == batch_id {
                match self.carton_totals(c.id) {
                    None => {
                        assert(m.cartons[i as int].batch_id == batch_id);
                        return Err(QaError::IntegerOverflow);
                    },
                    Some((t, a, b, cc, d)) => {
                        let ghost prev = out@;
                        out.push(
                            Carton {
                                id: c.id,
                                carton_no: c.carton_no.clone(),
                                reference_qty: c.reference_qty,
                                inspected_qty: t,
                                grade_a: a,
                                grade_b: b,
                                grade_c: cc,
                                grade_d: d,
                                sealed_qty: t - d,
                                status: c.status.clone(),
                            },
                        );
                        assert(summary_views(out@) =~= summary_views(prev).push(m.summary(c@)));
                        assert(m.cartons.take(i as int).filter(p).push(c@).map_values(m.summarizer())
                            =~= m.cartons.take(i as int).filter(p).map_values(m.summarizer()).push(m.summary(c@)));
                    },
                }
            }
            i = i + 1;
        }
        assert(m.cartons.take(n as int) =~= m.cartons);
        let v = sort_by_key(out);
        proof {
            lemma_map_multiset(v@, out@, |c: Carton| c@);
            assert forall|i: int, j: int| 0 <= i < j < v@.len() implies (carton_order())(summary_views(v@)[i], summary_views(v@)[j]) by {
                assert(Carton::key_le(v@[i], v@[j]));
            }
        }
        Ok(v)
    }
}

impl Database {
    /// The number of carton `cid`, which exists.
    fn carton_no_exec(&self, cid: i64) -> (r: String)
        requires
            self@.has_carton(cid),
        ensures
            r@ == self@.carton_no_of(cid),
    {
        proof {
            use_type_invariant(self);
        }
        let ghost m = self@;
        let n = self.cartons.len();
        let mut i: usize = 0;
        while i < n
            invariant
                i <= n == m.cartons.len(),
                m == self@,
                m.wf(),
                m.has_carton(cid),
                forall|k: int| 0 <= k < i ==> m.cartons[k].id != cid,
            decreases n - i,
        {
            if self.cartons[i].id == cid {
                proof {
                    let k = choose|k: int| 0 <= k < m.cartons.len() && #[trigger] m.cartons[k].id == cid;
                    assert(m.cartons[i as int].id == cid);
                    lemma_ascending_unique(m.cartons, i as int, k);
                }
                return self.cartons[i].carton_no.clone();
            }
            i = i + 1;
        }
        proof {
            let k = choose|k: int| 0 <= k < m.cartons.len() && #[trigger] m.cartons[k].id == cid;
            assert(m.cartons[k].id != cid);
        }
        String::new()
    }

    fn row_of(&self, r: &crate::schema::InspectionRow) -> (out: RecordRow)
        requires
            self@.has_carton(r.carton_id),
        ensures
            out@ == self@.joined(r@),
    {
        RecordRow {
            id: r.id,
            carton_id: r.carton_id,
            carton_no: self.carton_no_exec(r.carton_id),
            barcode: r.barcode.clone(),
            grade: r.grade.clone(),
            quantity: r.quantity,
            exception_reason: r.exception_reason.clone(),
        }
    }

    /// The records of one carton of a batch in id order, or, without a
    /// carton, all records of the batch ordered by carton number then id.
    pub fn list_records(&self, batch_id: i64, carton_id: Option<i64>) -> (r: Result<Vec<RecordRow>, QaError>)
        ensures
            r is Ok,
            r matches Ok(v) ==> match carton_id {
                Some(cid) => record_row_views(v@) == self@.carton_records(batch_id, cid),
                None => {
                    &&& sorted_by(record_row_views(v@), record_order())
                    &&& record_row_views(v@).to_multiset() == self@.batch_records(batch_id).to_multiset()
                },
            },
    {
        proof {
            use_type_invariant(self);
        }
        let ghost m = self@;
        let ghost p = match carton_id {
            Some(cid) => record_of_carton(batch_id, cid),
            None => record_of_batch(batch_id),
        };
        let mut out: Vec<RecordRow> = Vec::new();
        let n = self.records.len();
        let mut i: usize = 0;
        while i < n
            invariant
                i <= n == m.records.len(),
                m == self@,
                m.wf(),
                p == (match carton_id {
                    Some(cid) => record_of_carton(batch_id, cid),
                    None => record_of_batch(batch_id),
                }),
                record_row_views(out@) == m.records.take(i as int).filter(p).map_values(m.joiner()),
            decreases n - i,
        {
            proof {
                lemma_filter_take_step(m.records, i as int, p);
            }
            let rec = &self.records[i];
            assert(m.records[i as int] == rec@);
            let keep = match carton_id {
                Some(cid) => rec.batch_id == batch_id && rec.carton_id == cid,
                None => rec.batch_id == batch_id,
            };
            if keep {
                proof {
                    assert(m.wf_records());
                    assert(m.records[i as int].carton_id == rec.carton_id);
                    let k = choose|k: int| 0 <= k < m.cartons.len() && #[trigger] m.cartons[k].id == rec.carton_id && m.cartons[k].batch_id == rec.batch_id;
                    assert(m.cartons[k].id == rec.carton_id);
                }
                let ghost prev = out@;
                let row = self.row_of(rec);
                out.push(row);
                assert(record_row_views(out@) =~= record_row_views(prev).push(m.joined(rec@)));
                assert(m.records.take(i as int).filter(p).push(rec@).map_values(m.joiner())
                    =~= m.records.take(i as int).filter(p).map_values(m.joiner()).push(m.joined(rec@)));
            }
            i = i + 1;
        }
        assert(m.records.take(n as int) =~= m.records);
        match carton_id {
            Some(_) => Ok(out),
            None => {
                let v = sort_by_key(out);
                proof {
                    lemma_map_multiset(v@, out@, |x: RecordRow| x@);
                    assert forall|i: int, j: int| 0 <= i < j < v@.len() implies (record_order())(record_row_views(v@)[i], record_row_views(v@)[j]) by {
                        assert(RecordRow::key_le(v@[i], v@[j]));
                    }
                }
                Ok(v)
            },
        }
    }

    /// The product lines of a carton, in import order.
    pub fn list_carton_products(&self, carton_id: i64) -> (r: Result<Vec<CartonProduct>, QaError>)
        ensures
            r is Ok,
            r matches Ok(v) ==> exists|ps: Seq<ProductModel>| {
                &&& sorted_by(ps, product_order())
                &&& ps.to_multiset() == self@.products.filter(product_of(carton_id)).to_multiset()
                &&& carton_product_views(v@) == ps.map_values(|p: ProductModel| to_carton_product(p))
            },
    {
        let ghost m = self@;
        let ghost p = product_of(carton_id);
        let mut sel: Vec<ProductRow> = Vec::new();
        let n = self.products.len();
        let mut i: usize = 0;
        while i < n
            invariant
                i <= n == m.products.len(),
                m == self@,
                p == product_of(carton_id),
                product_views(sel@) == m.products.take(i as int).filter(p),
            decreases n - i,
        {
            proof {
                lemma_filter_take_step(m.products, i as int, p);
            }
            assert(m.products[i as int] == self.products@[i as int]@);
            if self.products[i].carton_id == carton_id {
                let ghost prev = sel@;
                sel.push(self.products[i].duplicate());
                assert(product_views(sel@) =~= product_views(prev).push(self.products@[i as int]@));
            }
            i = i + 1;
        }
        assert(m.products.take(n as int) =~= m.products);
        let sorted = sort_by_key(sel);
        let mut out: Vec<CartonProduct> = Vec::new();
        let mut j: usize = 0;
        while j < sorted.len()
            invariant
                j <= sorted@.len(),
                carton_product_views(out@) == product_views(sorted@).take(j as int).map_values(
                    |p: ProductModel| to_carton_product(p),
                ),
            decreases sorted@.len() - j,
        {
            let q = &sorted[j];
            let ghost prev = out@;
            out.push(
                CartonProduct {
                    id: q.id,
                    upc: q.upc.clone(),
                    item_no: q.item_no.clone(),
                    color_name: q.color_name.clone(),
                    color_no: q.color_no.clone(),
                    description: q.description.clone(),
                    size_dimension: q.size_dimension.clone(),
                    carton_count: q.carton_count,
                    units_per_carton: q.units_per_carton,
                    total_units: q.total_units,
                },
            );
            assert(carton_product_views(out@) =~= carton_product_views(prev).push(to_carton_product(q@)));
            assert(product_views(sorted@).take(j + 1) =~= product_views(sorted@).take(j as int).push(q@));
            j = j + 1;
        }
        proof {
            let ps = product_views(sorted@);
            assert(ps.take(sorted@.len() as int) =~= ps);
            lemma_map_multiset(sorted@, sel@, |x: ProductRow| x@);
            assert(ps =~= sorted@.map_values(|x: ProductRow| x@));
            assert(product_views(sel@) =~= sel@.map_values(|x: ProductRow| x@));
            assert forall|a: int, b: int| 0 <= a < b < ps.len() implies (product_order())(ps[a], ps[b]) by {
                assert(ProductRow::key_le(sorted@[a], sorted@[b]));
            }
            assert(sorted_by(ps, product_order()));
            assert(ps.to_multiset() == m.products.filter(p).to_multiset());
            assert(carton_product_views(out@) == ps.map_values(|p: ProductModel| to_carton_product(p)));
        }
        Ok(out)
    }

    /// The images of a record, by number.
    pub fn photos_for_record(&self, record_id: i64) -> (r: Result<Vec<PhotoRow>, QaError>)
        ensures
            r is Ok,
            r matches Ok(v) ==> exists|ps: Seq<PhotoModel>| {
                &&& sorted_by(ps, photo_order())
                &&& ps.to_multiset() == self@.photos.filter(photo_of(record_id)).to_multiset()
                &&& photo_row_views(v@) == ps.map_values(|p: PhotoModel| to_photo_row(p))
            },
    {
        let ghost m = self@;
        let ghost p = photo_of(record_id);
        let mut sel: Vec<crate::schema::PhotoEntry> = Vec::new();
        let n = self.photos.len();
        let mut i: usize = 0;
        while i < n
            invariant
                i <= n == m.photos.len(),
                m == self@,
                p == photo_of(record_id),
                photo_views(sel@) == m.photos.take(i as int).filter(p),
            decreases n - i,
        {
            proof {
                lemma_filter_take_step(m.photos, i as int, p);
            }
            assert(m.photos[i as int] == self.photos@[i as int]@);
            if self.photos[i].record_id == record_id {
                let ghost prev = sel@;
                sel.push(self.photos[i].duplicate());
                assert(photo_views(sel@) =~= photo_views(prev).push(self.photos@[i as int]@));
            }
            i = i + 1;
        }
        assert(m.photos.take(n as int) =~= m.photos);
        let sorted = sort_by_key(sel);
        let mut out: Vec<PhotoRow> = Vec::new();
        let mut j: usize = 0;
        while j < sorted.len()
            invariant
                j <= sorted@.len(),
                photo_row_views(out@) == photo_views(sorted@).take(j as int).map_values(
                    |p: PhotoModel| to_photo_row(p),
                ),
            decreases sorted@.len() - j,
        {
            let q = &sorted[j];
            let ghost prev = out@;
            out.push(PhotoRow { photo_order: q.photo_order, file_path: q.file_path.clone() });
            assert(photo_row_views(out@) =~= photo_row_views(prev).push(to_photo_row(q@)));
            assert(photo_views(sorted@).take(j + 1) =~= photo_views(sorted@).take(j as int).push(q@));
            j = j + 1;
        }
        proof {
            let ps = photo_views(sorted@);
            assert(ps.take(sorted@.len() as int) =~= ps);
            lemma_map_multiset(sorted@, sel@, |x: crate::schema::PhotoEntry| x@);
            assert(ps =~= sorted@.map_values(|x: crate::schema::PhotoEntry| x@));
            assert(photo_views(sel@) =~= sel@.map_values(|x: crate::schema::PhotoEntry| x@));
            assert forall|a: int, b: int| 0 <= a < b < ps.len() implies (photo_order())(ps[a], ps[b]) by {
                assert(crate::schema::PhotoEntry::key_le(sorted@[a], sorted@[b]));
            }
            assert(sorted_by(ps, photo_order()));
            assert(ps.to_multiset() == m.photos.filter(p).to_multiset());
            assert(photo_row_views(out@) == ps.map_values(|p: PhotoModel| to_photo_row(p)));
        }
        Ok(out)
    }
}

} // verus!
