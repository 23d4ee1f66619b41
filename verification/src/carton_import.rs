//! What importing the product lists of cartons does to the store: the rows
//! are grouped by their trimmed carton number, the groups taken in increasing
//! order of that number; each group's carton is found in the batch or added to
//! it, its product list replaced by the group and its reference quantity set
//! to the group's units. The whole import is one change.

use vstd::prelude::*;
use crate::error::ErrorModel;
use crate::models::{CartonProductImport, ProductImportModel};
use crate::order::text_le;
use crate::schema::{
    CartonModel, DbModel, ProductModel, ascending, lemma_create_carton_wf, lemma_filter_rows, next_id,
    seq_has_carton, seq_has_carton_in,
};
use crate::text::trim_spec;

verus! {

broadcast use vstd::seq_lib::group_filter_ensures;

pub open spec fn import_views(s: Seq<CartonProductImport>) -> Seq<ProductImportModel> {
    s.map_values(|r: CartonProductImport| r@)
}

/// An import row that names a carton and a UPC and has at least one unit.
pub open spec fn import_row_valid(r: ProductImportModel) -> bool {
    trim_spec(r.carton_no).len() > 0 && trim_spec(r.upc).len() > 0 && r.units_per_carton >= 1
}

pub open spec fn import_rows_valid(rows: Seq<ProductImportModel>) -> bool {
    forall|i: int| 0 <= i < rows.len() ==> import_row_valid(#[trigger] rows[i])
}

/// The carton numbers of an import, each once, in increasing order.
pub open spec fn import_keys_ok(rows: Seq<ProductImportModel>, keys: Seq<Seq<char>>) -> bool {
    &&& keys_increasing(keys)
    &&& keys_named(rows, keys)
    &&& forall|k: int| 0 <= k < rows.len() ==> keys.contains(trim_spec(#[trigger] rows[k].carton_no))
}

/// Each text comes strictly before the next.
pub open spec fn keys_increasing(keys: Seq<Seq<char>>) -> bool {
    forall|i: int, j: int| 0 <= i < j < keys.len() ==> text_le(keys[i], keys[j]) && keys[i] != keys[j]
}

/// Each key is the trimmed carton number of some row.
pub open spec fn keys_named(rows: Seq<ProductImportModel>, keys: Seq<Seq<char>>) -> bool {
    forall|i: int| #![trigger keys[i]] 0 <= i < keys.len() ==> exists|k: int| 0 <= k < rows.len() && trim_spec(#[trigger] rows[k].carton_no) == keys[i]
}

pub open spec fn in_group(k: Seq<char>) -> spec_fn(ProductImportModel) -> bool {
    |r: ProductImportModel| trim_spec(r.carton_no) == k
}

/// The rows of carton `k` in an import, in their order.
pub open spec fn import_group(rows: Seq<ProductImportModel>, k: Seq<char>) -> Seq<ProductImportModel> {
    rows.filter(in_group(k))
}

/// The units of a group of rows.
pub open spec fn units_sum(group: Seq<ProductImportModel>) -> int
    decreases group.len(),
{
    if group.len() == 0 {
        0
    } else {
        units_sum(group.drop_last()) + group.last().units_per_carton
    }
}

/// Where every row is valid, the units of each carton fit in an `i64`.
pub open spec fn import_sums_in_range(rows: Seq<ProductImportModel>) -> bool {
    import_rows_valid(rows) ==> forall|i: int|
        0 <= i < rows.len() ==> units_sum(import_group(rows, trim_spec(#[trigger] rows[i].carton_no))) <= i64::MAX
}

/// The product rows of carton `cid` made from its import rows, ids from
/// `first_id`; refused where an id runs out or a trimmed UPC repeats.
pub open spec fn import_products(group: Seq<ProductImportModel>, cid: i64, first_id: int) -> Result<
    Seq<ProductModel>,
    ErrorModel,
>
    decreases group.len(),
{
    if group.len() == 0 {
        Ok(seq![])
    } else {
        match import_products(group.drop_last(), cid, first_id) {
            Err(e) => Err(e),
            Ok(v) => {
                let j = group.len() - 1;
                let r = group[j];
                if first_id + j > i64::MAX {
                    Err(ErrorModel::StorageFull)
                } else if exists|k: int| 0 <= k < j && trim_spec(#[trigger] group[k].upc) == trim_spec(r.upc) {
                    Err(ErrorModel::DuplicateProductUpc)
                } else {
                    Ok(v.push(product_of_row(r, cid, (first_id + j) as i64, j as i64)))
                }
            },
        }
    }
}

/// The product row made of an import row, its text trimmed.
pub open spec fn product_of_row(r: ProductImportModel, cid: i64, id: i64, order: i64) -> ProductModel {
    ProductModel {
        id,
        carton_id: cid,
        upc: trim_spec(r.upc),
        item_no: trim_spec(r.item_no),
        color_name: trim_spec(r.color_name),
        color_no: trim_spec(r.color_no),
        description: trim_spec(r.description),
        size_dimension: trim_spec(r.size_dimension),
        carton_count: r.carton_count,
        units_per_carton: r.units_per_carton,
        total_units: r.total_units,
        source_order: order,
    }
}

pub open spec fn carton_named(batch_id: i64, no: Seq<char>) -> spec_fn(CartonModel) -> bool {
    |c: CartonModel| c.batch_id == batch_id && c.carton_no == no
}

/// The id of carton `no` of batch `batch_id`, where there is one.
pub open spec fn carton_id_of(cartons: Seq<CartonModel>, batch_id: i64, no: Seq<char>) -> Option<i64> {
    if exists|k: int| 0 <= k < cartons.len() && (carton_named(batch_id, no))(#[trigger] cartons[k]) {
        Some(cartons[choose|k: int| 0 <= k < cartons.len() && (carton_named(batch_id, no))(#[trigger] cartons[k])].id)
    } else {
        None
    }
}

pub open spec fn product_not_of(cid: i64) -> spec_fn(ProductModel) -> bool {
    |p: ProductModel| p.carton_id != cid
}

pub open spec fn reference_setter(cid: i64, qty: i64) -> spec_fn(CartonModel) -> CartonModel {
    |c: CartonModel|
        if c.id == cid {
            CartonModel { reference_qty: Some(qty), ..c }
        } else {
            c
        }
}

impl DbModel {
    /// The product list of carton `cid` replaced by the rows of `group`, and
    /// its reference quantity set to their units.
    pub open spec fn fill_carton(self, cid: i64, group: Seq<ProductImportModel>) -> Result<DbModel, ErrorModel> {
        let kept = self.products.filter(product_not_of(cid));
        match import_products(group, cid, next_id(kept)) {
            Err(e) => Err(e),
            Ok(ps) => Ok(
                DbModel {
                    cartons: self.cartons.map_values(reference_setter(cid, units_sum(group) as i64)),
                    products: kept + ps,
                    ..self
                },
            ),
        }
    }

    /// One carton of an import: found in the batch by its number, or added
    /// to it; then filled. Tells whether it was added.
    pub open spec fn import_carton(self, batch_id: i64, key: Seq<char>, group: Seq<ProductImportModel>) -> Result<
        (DbModel, bool),
        ErrorModel,
    > {
        match carton_id_of(self.cartons, batch_id, key) {
            Some(cid) => match self.fill_carton(cid, group) {
                Err(e) => Err(e),
                Ok(m) => Ok((m, false)),
            },
            None => match self.create_carton(batch_id, key) {
                Err(e) => Err(e),
                Ok((m1, cid)) => match m1.fill_carton(cid, group) {
                    Err(e) => Err(e),
                    Ok(m2) => Ok((m2, true)),
                },
            },
        }
    }

    /// The cartons of `keys` imported in order; counts those added and those
    /// found. The first refusal stops it.
    pub open spec fn import_fold(self, batch_id: i64, rows: Seq<ProductImportModel>, keys: Seq<Seq<char>>) -> Result<
        (DbModel, nat, nat),
        ErrorModel,
    >
        decreases keys.len(),
    {
        if keys.len() == 0 {
            Ok((self, 0, 0))
        } else {
            match self.import_fold(batch_id, rows, keys.drop_last()) {
                Err(e) => Err(e),
                Ok((m1, created, updated)) => match m1.import_carton(batch_id, keys.last(), import_group(rows, keys.last())) {
                    Err(e) => Err(e),
                    Ok((m2, added)) => if added {
                        Ok((m2, created + 1, updated))
                    } else {
                        Ok((m2, created, updated + 1))
                    },
                },
            }
        }
    }

    /// Importing product lists into batch `batch_id`, `keys` being the
    /// trimmed carton numbers of the rows in increasing order: refused when
    /// there is no row or a row is not valid; otherwise each carton in turn.
    pub open spec fn import_cartons(self, batch_id: i64, rows: Seq<ProductImportModel>, keys: Seq<Seq<char>>) -> Result<
        (DbModel, nat, nat),
        ErrorModel,
    > {
        if rows.len() == 0 {
            Err(ErrorModel::EmptyImport)
        } else if !import_rows_valid(rows) {
            Err(ErrorModel::InvalidImportRow)
        } else {
            self.import_fold(batch_id, rows, keys)
        }
    }
}

pub proof fn lemma_units_sum_step(group: Seq<ProductImportModel>, j: int)
    requires
        0 <= j < group.len(),
    ensures
        units_sum(group.take(j + 1)) == units_sum(group.take(j)) + group[j].units_per_carton,
{
    assert(group.take(j + 1).drop_last() =~= group.take(j));
}

/// With positive units, every prefix of a group has at most the group's units.
pub proof fn lemma_units_sum_prefix(group: Seq<ProductImportModel>, j: int)
    requires
        0 <= j <= group.len(),
        forall|k: int| 0 <= k < group.len() ==> (#[trigger] group[k]).units_per_carton >= 1,
    ensures
        j <= units_sum(group.take(j)) <= units_sum(group),
    decreases group.len() - j,
{
    if j < group.len() {
        lemma_units_sum_prefix(group, j + 1);
        lemma_units_sum_step(group, j);
    } else {
        assert(group.take(j) =~= group);
    }
    if j > 0 {
        lemma_units_sum_step(group, j - 1);
        lemma_units_sum_low(group, j - 1);
    }
}

proof fn lemma_units_sum_low(group: Seq<ProductImportModel>, j: int)
    requires
        0 <= j < group.len(),
        forall|k: int| 0 <= k < group.len() ==> (#[trigger] group[k]).units_per_carton >= 1,
    ensures
        units_sum(group.take(j)) >= j,
    decreases j,
{
    if j > 0 {
        lemma_units_sum_low(group, j - 1);
        lemma_units_sum_step(group, j - 1);
    } else {
        assert(group.take(0) =~= Seq::<ProductImportModel>::empty());
    }
}

pub proof fn lemma_import_products_step(group: Seq<ProductImportModel>, cid: i64, first_id: int, j: int)
    requires
        0 <= j < group.len(),
    ensures
        import_products(group.take(j + 1), cid, first_id) == (match import_products(group.take(j), cid, first_id) {
            Err(e) => Err(e),
            Ok(v) => if first_id + j > i64::MAX {
                Err(ErrorModel::StorageFull)
            } else if exists|k: int| 0 <= k < j && trim_spec(#[trigger] group[k].upc) == trim_spec(group[j].upc) {
                Err(ErrorModel::DuplicateProductUpc)
            } else {
                Ok(v.push(product_of_row(group[j], cid, (first_id + j) as i64, j as i64)))
            },
        }),
{
    let t = group.take(j + 1);
    assert(t.drop_last() =~= group.take(j));
    assert(t[j] == group[j]);
    assert forall|k: int| 0 <= k < j implies t[k] == group[k] by {}
}

pub proof fn lemma_import_products_err(group: Seq<ProductImportModel>, cid: i64, first_id: int, j: int)
    requires
        0 <= j <= group.len(),
        import_products(group.take(j), cid, first_id) is Err,
    ensures
        import_products(group, cid, first_id) == import_products(group.take(j), cid, first_id),
    decreases group.len() - j,
{
    if j < group.len() {
        lemma_import_products_step(group, cid, first_id, j);
        lemma_import_products_err(group, cid, first_id, j + 1);
    } else {
        assert(group.take(j) =~= group);
    }
}

/// The rows an accepted group gives: one per import row, ids from `first_id`,
/// with distinct trimmed UPCs.
pub proof fn lemma_import_products_ok(group: Seq<ProductImportModel>, cid: i64, first_id: int)
    requires
        import_products(group, cid, first_id) is Ok,
    ensures
        ({
            let ps = import_products(group, cid, first_id)->Ok_0;
            &&& ps.len() == group.len()
            &&& forall|j: int| 0 <= j < ps.len() ==> #[trigger] ps[j] == product_of_row(group[j], cid, (first_id + j) as i64, j as i64)
            &&& ps.len() > 0 ==> first_id + ps.len() - 1 <= i64::MAX
            &&& forall|j: int, k: int| 0 <= k < j < group.len() ==> trim_spec(#[trigger] group[k].upc) != trim_spec(#[trigger] group[j].upc)
        }),
    decreases group.len(),
{
    if group.len() > 0 {
        let init = group.drop_last();
        lemma_import_products_ok(init, cid, first_id);
        let j = group.len() - 1;
        assert forall|k: int| 0 <= k < j implies init[k] == group[k] by {}
    }
}

/// A carton's id is the same whichever of its entries is looked at.
pub proof fn lemma_carton_id_of(m: DbModel, batch_id: i64, no: Seq<char>, k: int)
    requires
        m.wf(),
        0 <= k < m.cartons.len(),
        (carton_named(batch_id, no))(m.cartons[k]),
    ensures
        carton_id_of(m.cartons, batch_id, no) == Some(m.cartons[k].id),
{
    let c = m.cartons;
    let j = choose|j: int| 0 <= j < c.len() && (carton_named(batch_id, no))(#[trigger] c[j]);
    if c[j].id != c[k].id {
        assert(!(c[j].batch_id == c[k].batch_id && c[j].carton_no == c[k].carton_no));
    }
}

/// Filling a carton keeps the constraints, the ids and batches of the
/// cartons, and the other tables.
#[verifier::spinoff_prover]
pub proof fn lemma_fill_carton_wf(m: DbModel, cid: i64, group: Seq<ProductImportModel>)
    requires
        m.wf(),
        m.has_carton(cid),
        group.len() > 0,
        import_rows_valid(group),
        units_sum(group) <= i64::MAX,
    ensures
        m.fill_carton(cid, group) matches Ok(n) ==> {
            &&& n.wf()
            &&& n.batches == m.batches
            &&& n.records == m.records
            &&& n.photos == m.photos
            &&& n.photo_dir == m.photo_dir
            &&& n.sep == m.sep
            &&& n.cartons.len() == m.cartons.len()
            &&& forall|i: int| 0 <= i < m.cartons.len() ==> (#[trigger] n.cartons[i]).id == m.cartons[i].id
                && n.cartons[i].batch_id == m.cartons[i].batch_id && n.cartons[i].carton_no == m.cartons[i].carton_no
        },
{
    if let Ok(n) = m.fill_carton(cid, group) {
        let kept = m.products.filter(product_not_of(cid));
        let first = next_id(kept);
        let ps = import_products(group, cid, first)->Ok_0;
        let q = units_sum(group);
        assert forall|k: int| 0 <= k < group.len() implies (#[trigger] group[k]).units_per_carton >= 1 by {
            assert(import_row_valid(group[k]));
        }
        lemma_units_sum_prefix(group, 0);
        assert(group.take(0) =~= Seq::<ProductImportModel>::empty());
        lemma_units_sum_low(group, group.len() - 1);
        lemma_units_sum_step(group, group.len() - 1);
        assert(group.take(group.len() as int) =~= group);
        assert(q >= 1);
        let f = reference_setter(cid, q as i64);
        assert forall|i: int| 0 <= i < m.cartons.len() implies #[trigger] n.cartons[i] == f(m.cartons[i]) by {}
        lemma_filter_rows(m.products, product_not_of(cid));
        lemma_import_products_ok(group, cid, first);
        assert(n.products == kept + ps);
        // ids
        assert forall|i: int, j: int| 0 <= i < j < n.products.len() implies n.products[i].id < n.products[j].id by {
            if j < kept.len() {
            } else if i < kept.len() {
                assert(n.products[j] == ps[j - kept.len()]);
                if kept.len() > 0 {
                    assert(kept[i].id <= kept.last().id);
                    if i < kept.len() - 1 {
                        assert(kept[i].id < kept[kept.len() - 1].id);
                    }
                }
            } else {
                assert(n.products[i] == ps[i - kept.len()]);
                assert(n.products[j] == ps[j - kept.len()]);
            }
        }
        assert(ascending(n.products));
        assert(ascending(n.cartons));
        assert(n.wf_ids());
        assert(n.wf_batches());
        assert(n.wf_cartons());
        assert forall|i: int| 0 <= i < n.products.len() implies seq_has_carton(n.cartons, #[trigger] n.products[i].carton_id)
            && n.products[i].units_per_carton > 0 by {
            if i < kept.len() {
                assert(m.products.contains(kept[i]));
                let t = choose|t: int| 0 <= t < m.products.len() && m.products[t] == kept[i];
                assert(seq_has_carton(m.cartons, m.products[t].carton_id));
                let c = choose|c: int| 0 <= c < m.cartons.len() && #[trigger] m.cartons[c].id == m.products[t].carton_id;
                assert(n.cartons[c].id == m.cartons[c].id);
            } else {
                let j = i - kept.len();
                assert(n.products[i] == ps[j]);
                assert(import_row_valid(group[j]));
                let c = choose|c: int| 0 <= c < m.cartons.len() && #[trigger] m.cartons[c].id == cid;
                assert(n.cartons[c].id == m.cartons[c].id);
            }
        }
        assert forall|i: int, j: int|
            0 <= i < n.products.len() && 0 <= j < n.products.len() && #[trigger] n.products[i].id
                != #[trigger] n.products[j].id implies !(n.products[i].carton_id == n.products[j].carton_id
                && n.products[i].upc == n.products[j].upc) by {
            if i < kept.len() && j < kept.len() {
                let ti = choose|t: int| 0 <= t < m.products.len() && m.products[t] == kept[i];
                let tj = choose|t: int| 0 <= t < m.products.len() && m.products[t] == kept[j];
                assert(m.products[ti].id != m.products[tj].id);
            } else if i < kept.len() {
                assert(product_not_of(cid)(kept[i]));
                assert(n.products[j] == ps[j - kept.len()]);
            } else if j < kept.len() {
                assert(product_not_of(cid)(kept[j]));
                assert(n.products[i] == ps[i - kept.len()]);
            } else {
                let a = i - kept.len();
                let b = j - kept.len();
                assert(n.products[i] == ps[a]);
                assert(n.products[j] == ps[b]);
                if a < b {
                    assert(trim_spec(group[a].upc) != trim_spec(group[b].upc));
                } else if b < a {
                    assert(trim_spec(group[b].upc) != trim_spec(group[a].upc));
                }
            }
        }
        assert(n.wf_products());
        assert forall|i: int| 0 <= i < n.records.len() implies seq_has_carton_in(n.cartons, #[trigger] n.records[i].carton_id, n.records[i].batch_id) by {
            let k = choose|k: int| 0 <= k < m.cartons.len() && #[trigger] m.cartons[k].id == m.records[i].carton_id && m.cartons[k].batch_id == m.records[i].batch_id;
            assert(n.cartons[k].id == m.cartons[k].id);
        }
        assert(n.wf_records());
        assert(n.wf_photos());
    }
}

/// Importing one carton keeps the constraints and the batches, records and
/// images.
pub proof fn lemma_import_carton_wf(m: DbModel, batch_id: i64, key: Seq<char>, group: Seq<ProductImportModel>)
    requires
        m.wf(),
        group.len() > 0,
        import_rows_valid(group),
        units_sum(group) <= i64::MAX,
    ensures
        m.import_carton(batch_id, key, group) matches Ok((n, _)) ==> {
            &&& n.wf()
            &&& n.batches == m.batches
            &&& n.records == m.records
            &&& n.photos == m.photos
            &&& n.photo_dir == m.photo_dir
            &&& n.sep == m.sep
        },
{
    match carton_id_of(m.cartons, batch_id, key) {
        Some(cid) => {
            let k = choose|k: int| 0 <= k < m.cartons.len() && (carton_named(batch_id, key))(#[trigger] m.cartons[k]);
            assert(m.has_carton(cid));
            lemma_fill_carton_wf(m, cid, group);
        },
        None => {
            lemma_create_carton_wf(m, batch_id, key);
            if let Ok((m1, cid)) = m.create_carton(batch_id, key) {
                assert(m1.cartons.last().id == cid);
                assert(m1.has_carton(cid));
                lemma_fill_carton_wf(m1, cid, group);
            }
        },
    }
}

/// Each key's group is non-empty, valid and within range.
pub proof fn lemma_import_group(rows: Seq<ProductImportModel>, keys: Seq<Seq<char>>, i: int)
    requires
        keys_named(rows, keys),
        import_rows_valid(rows),
        import_sums_in_range(rows),
        0 <= i < keys.len(),
    ensures
        import_group(rows, keys[i]).len() > 0,
        import_rows_valid(import_group(rows, keys[i])),
        units_sum(import_group(rows, keys[i])) <= i64::MAX,
{
    let g = import_group(rows, keys[i]);
    let k = choose|k: int| 0 <= k < rows.len() && trim_spec(#[trigger] rows[k].carton_no) == keys[i];
    assert(in_group(keys[i])(rows[k]));
    assert(g.contains(rows[k]));
    assert forall|j: int| 0 <= j < g.len() implies import_row_valid(#[trigger] g[j]) by {
        let f = rows.filter(in_group(keys[i]));
        assert(f[j] == g[j]);
        assert(f.contains(f[j]));
        rows.lemma_filter_contains_rev(in_group(keys[i]), f[j]);
        let t = choose|t: int| 0 <= t < rows.len() && rows[t] == f[j];
        assert(import_row_valid(rows[t]));
    }
}

/// Importing the cartons of `keys` keeps the constraints.
pub proof fn lemma_import_fold_wf(m: DbModel, batch_id: i64, rows: Seq<ProductImportModel>, keys: Seq<Seq<char>>)
    requires
        m.wf(),
        keys_named(rows, keys),
        import_rows_valid(rows),
        import_sums_in_range(rows),
    ensures
        m.import_fold(batch_id, rows, keys) matches Ok((n, _, _)) ==> n.wf() && n.batches == m.batches
            && n.records == m.records && n.photos == m.photos && n.photo_dir == m.photo_dir && n.sep == m.sep,
    decreases keys.len(),
{
    if keys.len() > 0 {
        let init = keys.drop_last();
        assert forall|i: int| #![trigger init[i]] 0 <= i < init.len() implies exists|k: int| 0 <= k < rows.len() && trim_spec(#[trigger] rows[k].carton_no) == init[i] by {
            assert(init[i] == keys[i]);
        }
        lemma_import_fold_wf(m, batch_id, rows, init);
        if let Ok((m1, _, _)) = m.import_fold(batch_id, rows, init) {
            lemma_import_group(rows, keys, keys.len() - 1);
            lemma_import_carton_wf(m1, batch_id, keys.last(), import_group(rows, keys.last()));
        }
    }
}

/// Importing keeps the constraints.
pub proof fn lemma_import_wf(m: DbModel, batch_id: i64, rows: Seq<ProductImportModel>, keys: Seq<Seq<char>>)
    requires
        m.wf(),
        import_keys_ok(rows, keys),
        import_sums_in_range(rows),
    ensures
        m.import_cartons(batch_id, rows, keys) matches Ok((n, _, _)) ==> n.wf(),
{
    if rows.len() > 0 && import_rows_valid(rows) {
        lemma_import_fold_wf(m, batch_id, rows, keys);
    }
}

proof fn lemma_increasing_at(keys: Seq<Seq<char>>, i: int, j: int)
    requires
        keys_increasing(keys),
        0 <= i < j < keys.len(),
    ensures
        text_le(keys[i], keys[j]),
        keys[i] != keys[j],
{
    assert(text_le(keys[i], keys[j]) && keys[i] != keys[j]);
}

proof fn lemma_increasing_equal(a: Seq<Seq<char>>, b: Seq<Seq<char>>)
    requires
        keys_increasing(a),
        keys_increasing(b),
        forall|x: Seq<char>| a.contains(x) <==> b.contains(x),
    ensures
        a == b,
    decreases a.len() + b.len(),
{
    if a.len() == 0 {
        if b.len() > 0 {
            assert(b.contains(b[0]));
        }
        assert(a =~= b);
    } else if b.len() == 0 {
        assert(a.contains(a[0]));
    } else {
        let la = a[a.len() - 1];
        let lb = b[b.len() - 1];
        assert(a.contains(la));
        assert(b.contains(lb));
        let j = choose|j: int| 0 <= j < b.len() && b[j] == la;
        let i = choose|i: int| 0 <= i < a.len() && a[i] == lb;
        if j < b.len() - 1 {
            lemma_increasing_at(b, j, b.len() - 1);
            if i < a.len() - 1 {
                lemma_increasing_at(a, i, a.len() - 1);
                crate::order::lemma_text_le_antisym(la, lb);
            }
        }
        if i < a.len() - 1 {
            lemma_increasing_at(a, i, a.len() - 1);
            if j < b.len() - 1 {
                lemma_increasing_at(b, j, b.len() - 1);
            }
        }
        assert(la == lb);
        let a2 = a.drop_last();
        let b2 = b.drop_last();
        assert forall|i: int, j: int| 0 <= i < j < a2.len() implies text_le(a2[i], a2[j]) && a2[i] != a2[j] by {
            lemma_increasing_at(a, i, j);
        }
        assert forall|i: int, j: int| 0 <= i < j < b2.len() implies text_le(b2[i], b2[j]) && b2[i] != b2[j] by {
            lemma_increasing_at(b, i, j);
        }
        assert forall|x: Seq<char>| a2.contains(x) <==> b2.contains(x) by {
            if a2.contains(x) {
                let t = choose|t: int| 0 <= t < a2.len() && a2[t] == x;
                lemma_increasing_at(a, t, a.len() - 1);
                assert(a.contains(x));
                let u = choose|u: int| 0 <= u < b.len() && b[u] == x;
                if u == b.len() - 1 {
                    assert(x == lb);
                }
                assert(b2[u] == x);
            }
            if b2.contains(x) {
                let t = choose|t: int| 0 <= t < b2.len() && b2[t] == x;
                lemma_increasing_at(b, t, b.len() - 1);
                assert(b.contains(x));
                let u = choose|u: int| 0 <= u < a.len() && a[u] == x;
                if u == a.len() - 1 {
                    assert(x == la);
                }
                assert(a2[u] == x);
            }
        }
        lemma_increasing_equal(a2, b2);
        assert(a =~= a2.push(la));
        assert(b =~= b2.push(lb));
    }
}

/// The carton numbers of an import are determined by its rows.
pub proof fn law_import_keys_unique(rows: Seq<ProductImportModel>, a: Seq<Seq<char>>, b: Seq<Seq<char>>)
    requires
        import_keys_ok(rows, a),
        import_keys_ok(rows, b),
    ensures
        a == b,
{
    assert forall|x: Seq<char>| a.contains(x) <==> b.contains(x) by {
        if a.contains(x) {
            let i = choose|i: int| 0 <= i < a.len() && a[i] == x;
            assert(exists|k: int| 0 <= k < rows.len() && trim_spec(#[trigger] rows[k].carton_no) == a[i]);
            let k = choose|k: int| 0 <= k < rows.len() && trim_spec(#[trigger] rows[k].carton_no) == a[i];
            assert(b.contains(trim_spec(rows[k].carton_no)));
        }
        if b.contains(x) {
            let i = choose|i: int| 0 <= i < b.len() && b[i] == x;
            assert(exists|k: int| 0 <= k < rows.len() && trim_spec(#[trigger] rows[k].carton_no) == b[i]);
            let k = choose|k: int| 0 <= k < rows.len() && trim_spec(#[trigger] rows[k].carton_no) == b[i];
            assert(a.contains(trim_spec(rows[k].carton_no)));
        }
    }
    lemma_increasing_equal(a, b);
}

} // verus!
