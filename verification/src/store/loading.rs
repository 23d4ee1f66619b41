//! The tables of a store as rows, and a store made of rows read back from
//! where they were kept.

use vstd::prelude::*;
use crate::error::{ErrorModel, QaError};
use crate::models::{Batch, BatchModel};
use crate::schema::{
    CartonModel, CartonRow, DbModel, InspectionRow, PhotoEntry, PhotoModel, ProductModel, ProductRow, RecordModel, RowId, ascending, batch_views, carton_views, copy_rows,
    photo_views, product_views, record_views, seq_has_batch, seq_has_carton, seq_has_carton_in, seq_has_record,
};
use crate::validate::{is_valid_grade, valid_grade};
use super::Database;

verus! {

/// Ids increasing from each row to the next make them increasing along the
/// whole table.
proof fn lemma_adjacent_ascending<T: RowId>(s: Seq<T>)
    requires
        forall|i: int| 0 < i < s.len() ==> (#[trigger] s[i - 1]).row_id() < s[i].row_id(),
    ensures
        ascending(s),
    decreases s.len(),
{
    if s.len() > 0 {
        let init = s.drop_last();
        assert forall|i: int| 0 < i < init.len() implies (#[trigger] init[i - 1]).row_id() < init[i].row_id() by {
            assert(init[i - 1] == s[i - 1] && init[i] == s[i]);
        }
        lemma_adjacent_ascending(init);
        assert forall|i: int, j: int| 0 <= i < j < s.len() implies s[i].row_id() < s[j].row_id() by {
            if j < s.len() - 1 {
                assert(init[i] == s[i] && init[j] == s[j]);
            } else if i < j - 1 {
                assert(init[i] == s[i] && init[j - 1] == s[j - 1]);
                assert(s[j - 1].row_id() < s[j].row_id());
            }
        }
    }
}

fn ids_ascend<T: RowId>(ids: &Vec<i64>, Ghost(s): Ghost<Seq<T>>) -> (r: bool)
    requires
        ids@.len() == s.len(),
        forall|i: int| 0 <= i < s.len() ==> (#[trigger] s[i]).row_id() == ids@[i],
    ensures
        r == ascending(s),
{
    let mut i: usize = 1;
    while i < ids.len()
        invariant
            1 <= i,
            ids@.len() == s.len(),
            forall|k: int| 0 <= k < s.len() ==> (#[trigger] s[k]).row_id() == ids@[k],
            forall|k: int| 0 < k < i && k < s.len() ==> (#[trigger] s[k - 1]).row_id() < s[k].row_id(),
        decreases ids@.len() - i,
    {
        if ids[i - 1] >= ids[i] {
            assert(s[i - 1].row_id() >= s[i as int].row_id());
            return false;
        }
        i = i + 1;
    }
    proof {
        lemma_adjacent_ascending(s);
    }
    true
}

fn batch_ids(v: &Vec<Batch>) -> (ids: Vec<i64>)
    ensures
        ids@.len() == v@.len(),
        forall|i: int| 0 <= i < v@.len() ==> (#[trigger] batch_views(v@)[i]).row_id() == ids@[i],
{
    let mut ids: Vec<i64> = Vec::new();
    let mut i: usize = 0;
    while i < v.len()
        invariant
            i <= v@.len(),
            ids@.len() == i,
            forall|k: int| 0 <= k < i ==> (#[trigger] batch_views(v@)[k]).row_id() == ids@[k],
        decreases v@.len() - i,
    {
        ids.push(v[i].id);
        i = i + 1;
    }
    ids
}

fn carton_ids(v: &Vec<CartonRow>) -> (ids: Vec<i64>)
    ensures
        ids@.len() == v@.len(),
        forall|i: int| 0 <= i < v@.len() ==> (#[trigger] carton_views(v@)[i]).row_id() == ids@[i],
{
    let mut ids: Vec<i64> = Vec::new();
    let mut i: usize = 0;
    while i < v.len()
        invariant
            i <= v@.len(),
            ids@.len() == i,
            forall|k: int| 0 <= k < i ==> (#[trigger] carton_views(v@)[k]).row_id() == ids@[k],
        decreases v@.len() - i,
    {
        ids.push(v[i].id);
        i = i + 1;
    }
    ids
}

fn product_ids(v: &Vec<ProductRow>) -> (ids: Vec<i64>)
    ensures
        ids@.len() == v@.len(),
        forall|i: int| 0 <= i < v@.len() ==> (#[trigger] product_views(v@)[i]).row_id() == ids@[i],
{
    let mut ids: Vec<i64> = Vec::new();
    let mut i: usize = 0;
    while i < v.len()
        invariant
            i <= v@.len(),
            ids@.len() == i,
            forall|k: int| 0 <= k < i ==> (#[trigger] product_views(v@)[k]).row_id() == ids@[k],
        decreases v@.len() - i,
    {
        ids.push(v[i].id);
        i = i + 1;
    }
    ids
}

fn record_ids(v: &Vec<InspectionRow>) -> (ids: Vec<i64>)
    ensures
        ids@.len() == v@.len(),
        forall|i: int| 0 <= i < v@.len() ==> (#[trigger] record_views(v@)[i]).row_id() == ids@[i],
{
    let mut ids: Vec<i64> = Vec::new();
    let mut i: usize = 0;
    while i < v.len()
        invariant
            i <= v@.len(),
            ids@.len() == i,
            forall|k: int| 0 <= k < i ==> (#[trigger] record_views(v@)[k]).row_id() == ids@[k],
        decreases v@.len() - i,
    {
        ids.push(v[i].id);
        i = i + 1;
    }
    ids
}

fn photo_ids(v: &Vec<PhotoEntry>) -> (ids: Vec<i64>)
    ensures
        ids@.len() == v@.len(),
        forall|i: int| 0 <= i < v@.len() ==> (#[trigger] photo_views(v@)[i]).row_id() == ids@[i],
{
    let mut ids: Vec<i64> = Vec::new();
    let mut i: usize = 0;
    while i < v.len()
        invariant
            i <= v@.len(),
            ids@.len() == i,
            forall|k: int| 0 <= k < i ==> (#[trigger] photo_views(v@)[k]).row_id() == ids@[k],
        decreases v@.len() - i,
    {
        ids.push(v[i].id);
        i = i + 1;
    }
    ids
}

fn has_batch_vec(v: &Vec<Batch>, id: i64) -> (r: bool)
    ensures
        r == seq_has_batch(batch_views(v@), id),
{
    let mut i: usize = 0;
    while i < v.len()
        invariant
            i <= v@.len(),
            forall|k: int| 0 <= k < i ==> (#[trigger] batch_views(v@)[k]).id != id,
        decreases v@.len() - i,
    {
        if v[i].id == id {
            assert(batch_views(v@)[i as int].id == id);
            return true;
        }
        i = i + 1;
    }
    false
}

fn has_carton_vec(v: &Vec<CartonRow>, id: i64) -> (r: bool)
    ensures
        r == seq_has_carton(carton_views(v@), id),
{
    let mut i: usize = 0;
    while i < v.len()
        invariant
            i <= v@.len(),
            forall|k: int| 0 <= k < i ==> (#[trigger] carton_views(v@)[k]).id != id,
        decreases v@.len() - i,
    {
        if v[i].id == id {
            assert(carton_views(v@)[i as int].id == id);
            return true;
        }
        i = i + 1;
    }
    false
}

fn has_carton_in_vec(v: &Vec<CartonRow>, id: i64, batch_id: i64) -> (r: bool)
    ensures
        r == seq_has_carton_in(carton_views(v@), id, batch_id),
{
    let mut i: usize = 0;
    while i < v.len()
        invariant
            i <= v@.len(),
            forall|k: int| 0 <= k < i ==> !(#[trigger] carton_views(v@)[k].id == id && carton_views(v@)[k].batch_id == batch_id),
        decreases v@.len() - i,
    {
        if v[i].id == id && v[i].batch_id == batch_id {
            assert(carton_views(v@)[i as int].id == id);
            return true;
        }
        i = i + 1;
    }
    false
}

fn has_record_vec(v: &Vec<InspectionRow>, id: i64) -> (r: bool)
    ensures
        r == seq_has_record(record_views(v@), id),
{
    let mut i: usize = 0;
    while i < v.len()
        invariant
            i <= v@.len(),
            forall|k: int| 0 <= k < i ==> (#[trigger] record_views(v@)[k]).id != id,
        decreases v@.len() - i,
    {
        if v[i].id == id {
            assert(record_views(v@)[i as int].id == id);
            return true;
        }
        i = i + 1;
    }
    false
}

fn batches_ok(b: &Vec<Batch>, Ghost(m): Ghost<DbModel>) -> (r: bool)
    requires
        m.batches == batch_views(b@),
    ensures
        r == m.wf_batches(),
{
    let n = b.len();
    let mut i: usize = 0;
    while i < n
        invariant
            i <= n == b@.len() == m.batches.len(),
            m.batches == batch_views(b@),
            forall|x: int, y: int| 0 <= x < i && 0 <= y < n && #[trigger] m.batches[x].id != #[trigger] m.batches[y].id
                ==> m.batches[x].batch_no != m.batches[y].batch_no,
        decreases n - i,
    {
        let mut j: usize = 0;
        while j < n
            invariant
                i < n == b@.len() == m.batches.len(),
                j <= n,
                m.batches == batch_views(b@),
                forall|x: int, y: int| 0 <= x < i && 0 <= y < n && #[trigger] m.batches[x].id != #[trigger] m.batches[y].id
                    ==> m.batches[x].batch_no != m.batches[y].batch_no,
                forall|y: int| 0 <= y < j && #[trigger] m.batches[y].id != m.batches[i as int].id
                    ==> m.batches[i as int].batch_no != m.batches[y].batch_no,
            decreases n - j,
        {
            if b[i].id != b[j].id && b[i].batch_no == b[j].batch_no {
                assert(m.batches[i as int].id != m.batches[j as int].id);
                return false;
            }
            j = j + 1;
        }
        i = i + 1;
    }
    true
}

fn cartons_ok(b: &Vec<Batch>, c: &Vec<CartonRow>, Ghost(m): Ghost<DbModel>) -> (r: bool)
    requires
        m.batches == batch_views(b@),
        m.cartons == carton_views(c@),
    ensures
        r == m.wf_cartons(),
{
    let n = c.len();
    let mut i: usize = 0;
    while i < n
        invariant
            i <= n == c@.len() == m.cartons.len(),
            m.batches == batch_views(b@),
            m.cartons == carton_views(c@),
            forall|x: int| 0 <= x < i ==> seq_has_batch(m.batches, #[trigger] m.cartons[x].batch_id),
            forall|x: int| 0 <= x < i ==> (#[trigger] m.cartons[x].reference_qty matches Some(q) ==> q > 0),
            forall|x: int, y: int| 0 <= x < i && 0 <= y < n && #[trigger] m.cartons[x].id != #[trigger] m.cartons[y].id
                ==> !(m.cartons[x].batch_id == m.cartons[y].batch_id && m.cartons[x].carton_no == m.cartons[y].carton_no),
        decreases n - i,
    {
        assert(m.cartons[i as int] == c@[i as int]@);
        if !has_batch_vec(b, c[i].batch_id) {
            assert(!seq_has_batch(m.batches, m.cartons[i as int].batch_id));
            return false;
        }
        match c[i].reference_qty {
            Some(q) => {
                if q <= 0 {
                    assert(m.cartons[i as int].reference_qty == Some(q));
                    return false;
                }
            },
            None => {},
        }
        assert(seq_has_batch(m.batches, m.cartons[i as int].batch_id));
        assert(m.cartons[i as int].reference_qty matches Some(q) ==> q > 0);
        let mut j: usize = 0;
        while j < n
            invariant
                i < n == c@.len() == m.cartons.len(),
                j <= n,
                m.cartons == carton_views(c@),
                m.batches == batch_views(b@),
                forall|x: int| 0 <= x <= i ==> seq_has_batch(m.batches, #[trigger] m.cartons[x].batch_id),
                forall|x: int| 0 <= x <= i ==> (#[trigger] m.cartons[x].reference_qty matches Some(q) ==> q > 0),
                forall|x: int, y: int| 0 <= x < i && 0 <= y < n && #[trigger] m.cartons[x].id != #[trigger] m.cartons[y].id
                    ==> !(m.cartons[x].batch_id == m.cartons[y].batch_id && m.cartons[x].carton_no == m.cartons[y].carton_no),
                forall|y: int| 0 <= y < j && #[trigger] m.cartons[y].id != m.cartons[i as int].id
                    ==> !(m.cartons[i as int].batch_id == m.cartons[y].batch_id && m.cartons[i as int].carton_no == m.cartons[y].carton_no),
            decreases n - j,
        {
            if c[i].id != c[j].id && c[i].batch_id == c[j].batch_id && c[i].carton_no == c[j].carton_no {
                assert(m.cartons[i as int].id != m.cartons[j as int].id);
                return false;
            }
            j = j + 1;
        }
        i = i + 1;
    }
    true
}

fn products_ok(c: &Vec<CartonRow>, p: &Vec<ProductRow>, Ghost(m): Ghost<DbModel>) -> (r: bool)
    requires
        m.cartons == carton_views(c@),
        m.products == product_views(p@),
    ensures
        r == m.wf_products(),
{
    let n = p.len();
    let mut i: usize = 0;
    while i < n
        invariant
            i <= n == p@.len() == m.products.len(),
            m.cartons == carton_views(c@),
            m.products == product_views(p@),
            forall|x: int| 0 <= x < i ==> seq_has_carton(m.cartons, #[trigger] m.products[x].carton_id) && m.products[x].units_per_carton > 0,
            forall|x: int, y: int| 0 <= x < i && 0 <= y < n && #[trigger] m.products[x].id != #[trigger] m.products[y].id
                ==> !(m.products[x].carton_id == m.products[y].carton_id && m.products[x].upc == m.products[y].upc),
        decreases n - i,
    {
        assert(m.products[i as int] == p@[i as int]@);
        if !has_carton_vec(c, p[i].carton_id) || p[i].units_per_carton <= 0 {
            assert(!(seq_has_carton(m.cartons, m.products[i as int].carton_id) && m.products[i as int].units_per_carton > 0));
            assert(!m.wf_products()) by {
                if m.wf_products() {
                    let k = i as int;
                    assert(0 <= k < m.products.len());
                    assert(forall|x: int| 0 <= x < m.products.len() ==> seq_has_carton(m.cartons, #[trigger] m.products[x].carton_id)
                        && m.products[x].units_per_carton > 0);
                    assert(seq_has_carton(m.cartons, m.products[k].carton_id));
                }
            }
            return false;
        }
        assert(seq_has_carton(m.cartons, m.products[i as int].carton_id) && m.products[i as int].units_per_carton > 0);
        let mut j: usize = 0;
        while j < n
            invariant
                i < n == p@.len() == m.products.len(),
                j <= n,
                m.products == product_views(p@),
                m.cartons == carton_views(c@),
                forall|x: int| 0 <= x <= i ==> seq_has_carton(m.cartons, #[trigger] m.products[x].carton_id) && m.products[x].units_per_carton > 0,
                forall|x: int, y: int| 0 <= x < i && 0 <= y < n && #[trigger] m.products[x].id != #[trigger] m.products[y].id
                    ==> !(m.products[x].carton_id == m.products[y].carton_id && m.products[x].upc == m.products[y].upc),
                forall|y: int| 0 <= y < j && #[trigger] m.products[y].id != m.products[i as int].id
                    ==> !(m.products[i as int].carton_id == m.products[y].carton_id && m.products[i as int].upc == m.products[y].upc),
            decreases n - j,
        {
            if p[i].id != p[j].id && p[i].carton_id == p[j].carton_id && p[i].upc == p[j].upc {
                assert(m.products[i as int].id != m.products[j as int].id);
                return false;
            }
            j = j + 1;
        }
        i = i + 1;
    }
    true
}

fn records_ok(c: &Vec<CartonRow>, r: &Vec<InspectionRow>, Ghost(m): Ghost<DbModel>) -> (ok: bool)
    requires
        m.cartons == carton_views(c@),
        m.records == record_views(r@),
    ensures
        ok == m.wf_records(),
{
    let n = r.len();
    let mut i: usize = 0;
    while i < n
        invariant
            i <= n == r@.len() == m.records.len(),
            m.cartons == carton_views(c@),
            m.records == record_views(r@),
            forall|x: int| 0 <= x < i ==> seq_has_carton_in(m.cartons, #[trigger] m.records[x].carton_id, m.records[x].batch_id)
                && valid_grade(m.records[x].grade) && m.records[x].quantity > 0,
        decreases n - i,
    {
        assert(m.records[i as int] == r@[i as int]@);
        if !has_carton_in_vec(c, r[i].carton_id, r[i].batch_id) || !is_valid_grade(r[i].grade.as_str()) || r[i].quantity
            <= 0 {
            assert(!(seq_has_carton_in(m.cartons, m.records[i as int].carton_id, m.records[i as int].batch_id)
                && valid_grade(m.records[i as int].grade) && m.records[i as int].quantity > 0));
            assert(!m.wf_records()) by {
                if m.wf_records() {
                    let k = i as int;
                    assert(0 <= k < m.records.len());
                    assert(forall|x: int| 0 <= x < m.records.len() ==> seq_has_carton_in(m.cartons, #[trigger] m.records[x].carton_id, m.records[x].batch_id)
                        && valid_grade(m.records[x].grade) && m.records[x].quantity > 0);
                    assert(seq_has_carton_in(m.cartons, m.records[k].carton_id, m.records[k].batch_id));
                }
            }
            return false;
        }
        assert(seq_has_carton_in(m.cartons, m.records[i as int].carton_id, m.records[i as int].batch_id));
        assert(valid_grade(m.records[i as int].grade) && m.records[i as int].quantity > 0);
        assert forall|x: int| 0 <= x < i + 1 implies seq_has_carton_in(m.cartons, #[trigger] m.records[x].carton_id, m.records[x].batch_id)
            && valid_grade(m.records[x].grade) && m.records[x].quantity > 0 by {
            if x == i {
                assert(seq_has_carton_in(m.cartons, m.records[i as int].carton_id, m.records[i as int].batch_id));
            }
        }
        i = i + 1;
    }
    true
}

fn photos_ok(r: &Vec<InspectionRow>, p: &Vec<PhotoEntry>, Ghost(m): Ghost<DbModel>) -> (ok: bool)
    requires
        m.records == record_views(r@),
        m.photos == photo_views(p@),
    ensures
        ok == m.wf_photos(),
{
    let n = p.len();
    let mut i: usize = 0;
    while i < n
        invariant
            i <= n == p@.len() == m.photos.len(),
            m.records == record_views(r@),
            m.photos == photo_views(p@),
            forall|x: int| 0 <= x < i ==> seq_has_record(m.records, #[trigger] m.photos[x].record_id) && 1 <= m.photos[x].photo_order <= 3,
            forall|x: int, y: int| 0 <= x < i && 0 <= y < n && #[trigger] m.photos[x].id != #[trigger] m.photos[y].id
                ==> !(m.photos[x].record_id == m.photos[y].record_id && m.photos[x].photo_order == m.photos[y].photo_order),
        decreases n - i,
    {
        assert(m.photos[i as int] == p@[i as int]@);
        if !has_record_vec(r, p[i].record_id) || p[i].photo_order < 1 || p[i].photo_order > 3 {
            assert(!(seq_has_record(m.records, m.photos[i as int].record_id) && 1 <= m.photos[i as int].photo_order <= 3));
            assert(!m.wf_photos()) by {
                if m.wf_photos() {
                    let k = i as int;
                    assert(0 <= k < m.photos.len());
                    assert(forall|x: int| 0 <= x < m.photos.len() ==> seq_has_record(m.records, #[trigger] m.photos[x].record_id)
                        && 1 <= m.photos[x].photo_order <= 3);
                    assert(seq_has_record(m.records, m.photos[k].record_id));
                }
            }
            return false;
        }
        assert(seq_has_record(m.records, m.photos[i as int].record_id) && 1 <= m.photos[i as int].photo_order <= 3);
        let mut j: usize = 0;
        while j < n
            invariant
                i < n == p@.len() == m.photos.len(),
                j <= n,
                m.photos == photo_views(p@),
                m.records == record_views(r@),
                forall|x: int| 0 <= x <= i ==> seq_has_record(m.records, #[trigger] m.photos[x].record_id) && 1 <= m.photos[x].photo_order <= 3,
                forall|x: int, y: int| 0 <= x < i && 0 <= y < n && #[trigger] m.photos[x].id != #[trigger] m.photos[y].id
                    ==> !(m.photos[x].record_id == m.photos[y].record_id && m.photos[x].photo_order == m.photos[y].photo_order),
                forall|y: int| 0 <= y < j && #[trigger] m.photos[y].id != m.photos[i as int].id
                    ==> !(m.photos[i as int].record_id == m.photos[y].record_id && m.photos[i as int].photo_order == m.photos[y].photo_order),
            decreases n - j,
        {
            if p[i].id != p[j].id && p[i].record_id == p[j].record_id && p[i].photo_order == p[j].photo_order {
                assert(m.photos[i as int].id != m.photos[j as int].id);
                return false;
            }
            j = j + 1;
        }
        i = i + 1;
    }
    true
}

impl Database {
    /// Copies of the tables of the store, each in order of id.
    pub fn tables(&self) -> (r: (Vec<Batch>, Vec<CartonRow>, Vec<ProductRow>, Vec<InspectionRow>, Vec<PhotoEntry>))
        ensures
            batch_views(r.0@) == self@.batches,
            carton_views(r.1@) == self@.cartons,
            product_views(r.2@) == self@.products,
            record_views(r.3@) == self@.records,
            photo_views(r.4@) == self@.photos,
    {
        (
            copy_rows(&self.batches),
            copy_rows(&self.cartons),
            copy_rows(&self.products),
            copy_rows(&self.records),
            copy_rows(&self.photos),
        )
    }

    /// A store made of tables read back, each in order of id; refused where
    /// they do not keep the constraints.
    pub fn load(
        photo_dir: String,
        sep: char,
        batches: Vec<Batch>,
        cartons: Vec<CartonRow>,
        products: Vec<ProductRow>,
        records: Vec<InspectionRow>,
        photos: Vec<PhotoEntry>,
    ) -> (r: Result<Database, QaError>)
        ensures
            ({
                let m = DbModel {
                    batches: batch_views(batches@),
                    cartons: carton_views(cartons@),
                    products: product_views(products@),
                    records: record_views(records@),
                    photos: photo_views(photos@),
                    photo_dir: photo_dir@,
                    sep,
                };
                match r {
                    Ok(db) => m.wf() && db@ == m,
                    Err(e) => !m.wf() && e@ == ErrorModel::InvalidStore,
                }
            }),
    {
        let ghost m = DbModel {
            batches: batch_views(batches@),
            cartons: carton_views(cartons@),
            products: product_views(products@),
            records: record_views(records@),
            photos: photo_views(photos@),
            photo_dir: photo_dir@,
            sep,
        };
        let ok = ids_ascend::<BatchModel>(&batch_ids(&batches), Ghost(m.batches)) && ids_ascend::<CartonModel>(&carton_ids(&cartons), Ghost(m.cartons))
            && ids_ascend::<ProductModel>(&product_ids(&products), Ghost(m.products)) && ids_ascend::<RecordModel>(
            &record_ids(&records),
            Ghost(m.records),
        ) && ids_ascend::<PhotoModel>(&photo_ids(&photos), Ghost(m.photos)) && batches_ok(&batches, Ghost(m)) && cartons_ok(
            &batches,
            &cartons,
            Ghost(m),
        ) && products_ok(&cartons, &products, Ghost(m)) && records_ok(&cartons, &records, Ghost(m)) && photos_ok(
            &records,
            &photos,
            Ghost(m),
        );
        if !ok {
            return Err(QaError::InvalidStore);
        }
        Ok(Database { batches, cartons, products, records, photos, photo_dir, sep })
    }
}

} // verus!
