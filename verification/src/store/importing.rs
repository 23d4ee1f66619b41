//! Importing the product lists of cartons into a batch.

use vstd::prelude::*;
use crate::carton_import::{
    carton_id_of, carton_named, import_group, import_keys_ok, import_products, import_rows_valid,
    import_row_valid, import_sums_in_range, import_views, in_group, keys_increasing, keys_named,
    lemma_carton_id_of, lemma_fill_carton_wf, lemma_import_group, lemma_import_products_err,
    lemma_import_products_step, lemma_import_wf, lemma_units_sum_prefix, lemma_units_sum_step,
    product_not_of, product_of_row, reference_setter, units_sum,
};
use crate::error::{ErrorModel, QaError};
use crate::models::{CartonProductImport, ImportResult, ProductImportModel};
use crate::order::{lemma_text_le_antisym, lemma_text_le_total, lemma_text_le_trans, text_le, text_le_exec};
use crate::schema::{
    CartonModel, CartonRow, DbModel, ProductModel, ProductRow, carton_views, copy_rows, lemma_filter_take_step,
    product_views, string_views,
};
use crate::text::{is_blank, trim, trim_spec};
use super::Database;

verus! {

/// Adds `key` to increasing `keys` where it is not there yet.
fn insert_key(keys: &mut Vec<String>, key: String)
    requires
        keys_increasing(string_views(old(keys)@)),
    ensures
        keys_increasing(string_views(final(keys)@)),
        forall|x: Seq<char>| #[trigger] string_views(final(keys)@).contains(x) <==> (string_views(old(keys)@).contains(x) || x == key@),
{
    let ghost ks = string_views(keys@);
    let mut p: usize = 0;
    while p < keys.len() && text_le_exec(keys[p].as_str(), key.as_str()) && keys[p] != key
        invariant
            p <= keys@.len(),
            ks == string_views(keys@),
            forall|i: int| 0 <= i < p ==> text_le(#[trigger] ks[i], key@) && ks[i] != key@,
        decreases keys@.len() - p,
    {
        assert(ks[p as int] == keys@[p as int]@);
        p = p + 1;
    }
    if p < keys.len() && keys[p] == key {
        assert(ks[p as int] == key@);
        return;
    }
    proof {
        if p < ks.len() {
            assert(ks[p as int] == keys@[p as int]@);
            lemma_text_le_total(ks[p as int], key@);
            assert(text_le(key@, ks[p as int]) && ks[p as int] != key@);
        }
    }
    keys.insert(p, key);
    let ghost t = ks.insert(p as int, key@);
    assert(string_views(keys@) =~= t);
    proof {
        lemma_insert_increasing(ks, p as int, key@);
    }
}

proof fn lemma_insert_increasing(ks: Seq<Seq<char>>, p: int, key: Seq<char>)
    requires
        keys_increasing(ks),
        0 <= p <= ks.len(),
        forall|i: int| 0 <= i < p ==> text_le(#[trigger] ks[i], key) && ks[i] != key,
        p < ks.len() ==> text_le(key, ks[p]) && ks[p] != key,
    ensures
        keys_increasing(ks.insert(p, key)),
        forall|x: Seq<char>| #[trigger] ks.insert(p, key).contains(x) <==> (ks.contains(x) || x == key),
{
    let t = ks.insert(p, key);
    ks.insert_ensures(p, key);
    assert forall|i: int, j: int| 0 <= i < j < t.len() implies text_le(t[i], t[j]) && t[i] != t[j] by {
        if j < p {
            assert(t[i] == ks[i] && t[j] == ks[j]);
        } else if j == p {
            assert(t[i] == ks[i]);
        } else if i < p {
            assert(t[i] == ks[i] && t[j] == ks[j - 1]);
            assert(text_le(ks[i], ks[j - 1]) && ks[i] != ks[j - 1]);
        } else if i == p {
            assert(t[j] == ks[j - 1]);
            if j - 1 > p {
                assert(text_le(ks[p], ks[j - 1]) && ks[p] != ks[j - 1]);
                lemma_text_le_trans(key, ks[p], ks[j - 1]);
                if key == ks[j - 1] {
                    lemma_text_le_antisym(key, ks[p]);
                }
            }
        } else {
            assert(t[i] == ks[i - 1] && t[j] == ks[j - 1]);
            assert(text_le(ks[i - 1], ks[j - 1]) && ks[i - 1] != ks[j - 1]);
        }
    }
    assert forall|x: Seq<char>| #[trigger] t.contains(x) <==> (ks.contains(x) || x == key) by {
        if t.contains(x) {
            let i = choose|i: int| 0 <= i < t.len() && t[i] == x;
            if i < p {
                assert(ks[i] == x);
            } else if i > p {
                assert(ks[i - 1] == x);
            }
        }
        if ks.contains(x) {
            let i = choose|i: int| 0 <= i < ks.len() && ks[i] == x;
            if i < p {
                assert(t[i] == x);
            } else {
                assert(t[i + 1] == x);
            }
        }
        if x == key {
            assert(t[p] == x);
        }
    }
}

/// Whether `upc` is among `upcs`.
fn upc_seen(upcs: &Vec<String>, upc: &String) -> (r: bool)
    ensures
        r == exists|t: int| 0 <= t < upcs@.len() && upcs@[t]@ == upc@,
{
    let mut k: usize = 0;
    while k < upcs.len()
        invariant
            k <= upcs@.len(),
            forall|t: int| 0 <= t < k ==> upcs@[t]@ != upc@,
        decreases upcs@.len() - k,
    {
        if upcs[k] == *upc {
            return true;
        }
        k = k + 1;
    }
    false
}

/// The rows of a valid import with a given carton number are valid.
proof fn lemma_group_valid(rows: Seq<ProductImportModel>, key: Seq<char>)
    requires
        import_rows_valid(rows),
    ensures
        import_rows_valid(import_group(rows, key)),
{
    let g = import_group(rows, key);
    assert forall|j: int| 0 <= j < g.len() implies import_row_valid(#[trigger] g[j]) by {
        let f = rows.filter(in_group(key));
        assert(f[j] == g[j]);
        assert(f.contains(f[j]));
        rows.lemma_filter_contains_rev(in_group(key), f[j]);
        let t = choose|t: int| 0 <= t < rows.len() && rows[t] == f[j];
        assert(import_row_valid(rows[t]));
    }
}

/// The trimmed carton numbers of the rows, each once, in increasing order.
fn import_keys(rows: &Vec<CartonProductImport>) -> (keys: Vec<String>)
    ensures
        import_keys_ok(import_views(rows@), string_views(keys@)),
{
    let ghost rv = import_views(rows@);
    let mut keys: Vec<String> = Vec::new();
    let mut i: usize = 0;
    assert(string_views(keys@) =~= Seq::<Seq<char>>::empty());
    while i < rows.len()
        invariant
            i <= rows@.len(),
            rv == import_views(rows@),
            keys_increasing(string_views(keys@)),
            keys_named(rv, string_views(keys@)),
            forall|k: int| 0 <= k < i ==> string_views(keys@).contains(trim_spec(#[trigger] rv[k].carton_no)),
        decreases rows@.len() - i,
    {
        let key = trim(rows[i].carton_no.as_str());
        assert(rv[i as int] == rows@[i as int]@);
        let ghost before = string_views(keys@);
        let ghost kv = key@;
        insert_key(&mut keys, key);
        proof {
            let ks = string_views(keys@);
            lemma_keys_named_insert(rv, before, ks, kv, i as int);
            assert forall|k: int| 0 <= k < i + 1 implies ks.contains(trim_spec(#[trigger] rv[k].carton_no)) by {
                if k < i {
                    assert(before.contains(trim_spec(rv[k].carton_no)));
                }
            }
        }
        i = i + 1;
    }
    keys
}

proof fn lemma_keys_named_insert(rows: Seq<ProductImportModel>, before: Seq<Seq<char>>, after: Seq<Seq<char>>, key: Seq<char>, i: int)
    requires
        keys_named(rows, before),
        forall|x: Seq<char>| #[trigger] after.contains(x) <==> (before.contains(x) || x == key),
        0 <= i < rows.len(),
        trim_spec(rows[i].carton_no) == key,
    ensures
        keys_named(rows, after),
{
    assert forall|j: int| #![trigger after[j]] 0 <= j < after.len() implies exists|k: int| 0 <= k < rows.len() && trim_spec(#[trigger] rows[k].carton_no) == after[j] by {
        assert(after.contains(after[j]));
        if after[j] != key {
            let b = choose|b: int| 0 <= b < before.len() && before[b] == after[j];
            assert(exists|k: int| 0 <= k < rows.len() && trim_spec(#[trigger] rows[k].carton_no) == before[b]);
        } else {
            assert(trim_spec(rows[i].carton_no) == after[j]);
        }
    }
}

/// The rows of carton `key`, in their order.
fn import_group_exec(rows: &Vec<CartonProductImport>, key: &String) -> (g: Vec<CartonProductImport>)
    ensures
        import_views(g@) == import_group(import_views(rows@), key@),
{
    let ghost rv = import_views(rows@);
    let ghost p = in_group(key@);
    let mut g: Vec<CartonProductImport> = Vec::new();
    let mut i: usize = 0;
    assert(import_views(g@) =~= rv.take(0).filter(p));
    while i < rows.len()
        invariant
            i <= rows@.len(),
            rv == import_views(rows@),
            p == in_group(key@),
            import_views(g@) == rv.take(i as int).filter(p),
        decreases rows@.len() - i,
    {
        proof {
            lemma_filter_take_step(rv, i as int, p);
        }
        assert(rv[i as int] == rows@[i as int]@);
        let no = trim(rows[i].carton_no.as_str());
        if no == *key {
            let ghost prev = g@;
            g.push(rows[i].duplicate());
            assert(import_views(g@) =~= import_views(prev).push(rv[i as int]));
        }
        i = i + 1;
    }
    assert(rv.take(rows@.len() as int) =~= rv);
    g
}

/// Whether every row names a carton and a UPC and has at least one unit.
fn rows_valid_exec(rows: &Vec<CartonProductImport>) -> (r: bool)
    ensures
        r == import_rows_valid(import_views(rows@)),
{
    let ghost rv = import_views(rows@);
    let mut i: usize = 0;
    while i < rows.len()
        invariant
            i <= rows@.len(),
            rv == import_views(rows@),
            forall|k: int| 0 <= k < i ==> import_row_valid(#[trigger] rv[k]),
        decreases rows@.len() - i,
    {
        let row = &rows[i];
        assert(rv[i as int] == row@);
        if is_blank(row.carton_no.as_str()) || is_blank(row.upc.as_str()) || row.units_per_carton < 1 {
            assert(!import_row_valid(rv[i as int]));
            return false;
        }
        i = i + 1;
    }
    true
}

/// Whether the units of each carton of an import fit in an `i64` (always
/// so where a row is not valid, since such an import is refused first).
pub fn import_sums_fit(rows: &Vec<CartonProductImport>) -> (r: bool)
    ensures
        r == import_sums_in_range(import_views(rows@)),
{
    let ghost rv = import_views(rows@);
    if !rows_valid_exec(rows) {
        return true;
    }
    let mut i: usize = 0;
    while i < rows.len()
        invariant
            i <= rows@.len(),
            rv == import_views(rows@),
            import_rows_valid(rv),
            forall|k: int| 0 <= k < i ==> units_sum(import_group(rv, trim_spec(#[trigger] rv[k].carton_no))) <= i64::MAX,
        decreases rows@.len() - i,
    {
        let key = trim(rows[i].carton_no.as_str());
        assert(rv[i as int] == rows@[i as int]@);
        let g = import_group_exec(rows, &key);
        let ghost gv = import_views(g@);
        proof {
            lemma_group_valid(rv, key@);
        }
        let mut s: i64 = 0;
        let mut j: usize = 0;
        assert(gv.take(0) =~= Seq::<ProductImportModel>::empty());
        while j < g.len()
            invariant
                j <= g@.len(),
                i < rows@.len(),
                rv == import_views(rows@),
                gv == import_views(g@),
                gv == import_group(rv, trim_spec(rv[i as int].carton_no)),
                import_rows_valid(gv),
                import_rows_valid(rv),
                s == units_sum(gv.take(j as int)),
            decreases g@.len() - j,
        {
            assert(gv[j as int] == g@[j as int]@);
            assert(import_row_valid(gv[j as int]));
            proof {
                lemma_units_sum_step(gv, j as int);
                assert forall|k: int| 0 <= k < gv.len() implies (#[trigger] gv[k]).units_per_carton >= 1 by {
                    assert(import_row_valid(gv[k]));
                }
                lemma_units_sum_prefix(gv, j + 1);
            }
            if s > i64::MAX - g[j].units_per_carton {
                assert(units_sum(import_group(rv, trim_spec(rv[i as int].carton_no))) > i64::MAX);
                return false;
            }
            s = s + g[j].units_per_carton;
            j = j + 1;
        }
        assert(gv.take(g@.len() as int) =~= gv);
        i = i + 1;
    }
    true
}

impl Database {
    /// A copy of the store.
    fn duplicate(&self) -> (r: Database)
        ensures
            r@ == self@,
    {
        proof {
            use_type_invariant(self);
        }
        Database {
            batches: copy_rows(&self.batches),
            cartons: copy_rows(&self.cartons),
            products: copy_rows(&self.products),
            records: copy_rows(&self.records),
            photos: copy_rows(&self.photos),
            photo_dir: self.photo_dir.clone(),
            sep: self.sep,
        }
    }

    /// The id of carton `key` of batch `batch_id`, where there is one.
    fn carton_id_exec(&self, batch_id: i64, key: &String) -> (r: Option<i64>)
        ensures
            r == carton_id_of(self@.cartons, batch_id, key@),
    {
        proof {
            use_type_invariant(self);
        }
        let ghost cs = self@.cartons;
        let mut i: usize = 0;
        while i < self.cartons.len()
            invariant
                i <= self.cartons@.len(),
                cs == self@.cartons,
                self@.wf(),
                forall|k: int| 0 <= k < i ==> !(carton_named(batch_id, key@))(#[trigger] cs[k]),
            decreases self.cartons@.len() - i,
        {
            assert(cs[i as int] == self.cartons@[i as int]@);
            if self.cartons[i].batch_id == batch_id && self.cartons[i].carton_no == *key {
                proof {
                    lemma_carton_id_of(self@, batch_id, key@, i as int);
                }
                return Some(self.cartons[i].id);
            }
            i = i + 1;
        }
        None
    }

    /// Replaces the product list of carton `cid` by the rows of `group` and
    /// sets its reference quantity to their units.
    #[verifier::rlimit(40)]
    fn fill_carton_exec(&mut self, cid: i64, group: &Vec<CartonProductImport>) -> (r: Result<(), QaError>)
        requires
            old(self)@.has_carton(cid),
            import_views(group@).len() > 0,
            import_rows_valid(import_views(group@)),
            units_sum(import_views(group@)) <= i64::MAX,
        ensures
            match r {
                Ok(()) => old(self)@.fill_carton(cid, import_views(group@)) == Ok::<DbModel, ErrorModel>(final(self)@),
                Err(e) => old(self)@.fill_carton(cid, import_views(group@)) == Err::<DbModel, ErrorModel>(e@)
                    && final(self)@ == old(self)@,
            },
    {
        proof {
            use_type_invariant(&*self);
        }
        let ghost m = self@;
        let ghost gv = import_views(group@);
        // the products of the other cartons
        let ghost keep = product_not_of(cid);
        let mut prods: Vec<ProductRow> = Vec::new();
        let mut i: usize = 0;
        while i < self.products.len()
            invariant
                i <= self.products@.len(),
                m == self@,
                keep == product_not_of(cid),
                product_views(prods@) == m.products.take(i as int).filter(keep),
            decreases self.products@.len() - i,
        {
            proof {
                lemma_filter_take_step(m.products, i as int, keep);
            }
            assert(m.products[i as int] == self.products@[i as int]@);
            if self.products[i].carton_id != cid {
                let ghost prev = prods@;
                prods.push(self.products[i].duplicate());
                assert(product_views(prods@) =~= product_views(prev).push(m.products[i as int]));
            }
            i = i + 1;
        }
        assert(m.products.take(m.products.len() as int) =~= m.products);
        let ghost kept = m.products.filter(keep);
        let nk = prods.len();
        let first: i128 = if nk == 0 {
            1
        } else {
            (prods[nk - 1].id as i128) + 1
        };
        assert(first == crate::schema::next_id(kept));
        // the group's rows
        let mut upcs: Vec<String> = Vec::new();
        let ghost mut ps: Seq<ProductModel> = seq![];
        let mut sum: i64 = 0;
        let mut j: usize = 0;
        proof {
            assert(gv.take(0) =~= Seq::<ProductImportModel>::empty());
            assert forall|k: int| 0 <= k < gv.len() implies (#[trigger] gv[k]).units_per_carton >= 1 by {
                assert(import_row_valid(gv[k]));
            }
        }
        assert(product_views(prods@) =~= kept + ps);
        while j < group.len()
            invariant
                j <= group@.len(),
                gv == import_views(group@),
                units_sum(gv) <= i64::MAX,
                forall|k: int| 0 <= k < gv.len() ==> (#[trigger] gv[k]).units_per_carton >= 1,
                m == self@,
                m == old(self)@,
                kept == m.products.filter(product_not_of(cid)),
                first == crate::schema::next_id(kept),
                first >= i64::MIN,
                upcs@.len() == j,
                forall|k: int| 0 <= k < j ==> (#[trigger] upcs@[k])@ == trim_spec(gv[k].upc),
                import_products(gv.take(j as int), cid, first as int) == Ok::<Seq<ProductModel>, ErrorModel>(ps),
                product_views(prods@) == kept + ps,
                sum == units_sum(gv.take(j as int)),
            decreases group@.len() - j,
        {
            proof {
                lemma_import_products_step(gv, cid, first as int, j as int);
                lemma_units_sum_step(gv, j as int);
                lemma_units_sum_prefix(gv, j + 1);
            }
            let row = &group[j];
            assert(gv[j as int] == row@);
            if first + (j as i128) > 9223372036854775807i128 {
                proof {
                    lemma_import_products_err(gv, cid, first as int, j + 1);
                }
                return Err(QaError::StorageFull);
            }
            let upc = trim(row.upc.as_str());
            if upc_seen(&upcs, &upc) {
                proof {
                    let t = choose|t: int| 0 <= t < upcs@.len() && upcs@[t]@ == upc@;
                    assert(trim_spec(gv[t].upc) == trim_spec(gv[j as int].upc));
                    lemma_import_products_err(gv, cid, first as int, j + 1);
                }
                return Err(QaError::DuplicateProductUpc);
            }
            assert(!exists|t: int| 0 <= t < j && trim_spec(#[trigger] gv[t].upc) == trim_spec(gv[j as int].upc)) by {
                if exists|t: int| 0 <= t < j && trim_spec(#[trigger] gv[t].upc) == trim_spec(gv[j as int].upc) {
                    let t = choose|t: int| 0 <= t < j && trim_spec(#[trigger] gv[t].upc) == trim_spec(gv[j as int].upc);
                    assert(upcs@[t]@ == upc@);
                }
            }
            let ghost prev = prods@;
            prods.push(
                ProductRow {
                    id: (first + (j as i128)) as i64,
                    carton_id: cid,
                    upc: upc.clone(),
                    item_no: trim(row.item_no.as_str()),
                    color_name: trim(row.color_name.as_str()),
                    color_no: trim(row.color_no.as_str()),
                    description: trim(row.description.as_str()),
                    size_dimension: trim(row.size_dimension.as_str()),
                    carton_count: row.carton_count,
                    units_per_carton: row.units_per_carton,
                    total_units: row.total_units,
                    source_order: j as i64,
                },
            );
            upcs.push(upc);
            proof {
                let pr = product_of_row(gv[j as int], cid, (first + j) as i64, j as i64);
                assert(prods@[prods@.len() - 1]@ == pr);
                assert(product_views(prods@) =~= product_views(prev).push(pr));
                ps = ps.push(pr);
            }
            sum = sum + row.units_per_carton;
            j = j + 1;
        }
        assert(gv.take(group@.len() as int) =~= gv);
        // the reference quantity
        let ghost f = reference_setter(cid, sum);
        let mut cartons: Vec<CartonRow> = Vec::new();
        let mut c: usize = 0;
        while c < self.cartons.len()
            invariant
                c <= self.cartons@.len(),
                m == self@,
                f == reference_setter(cid, sum),
                carton_views(cartons@) == m.cartons.take(c as int).map_values(f),
            decreases self.cartons@.len() - c,
        {
            let row = &self.cartons[c];
            assert(m.cartons[c as int] == row@);
            let ghost prev = cartons@;
            assert(carton_views(prev).len() == prev.len());
            assert(prev.len() == c);
            if row.id == cid {
                cartons.push(
                    CartonRow {
                        id: row.id,
                        batch_id: row.batch_id,
                        carton_no: row.carton_no.clone(),
                        reference_qty: Some(sum),
                        status: row.status.clone(),
                    },
                );
            } else {
                cartons.push(row.duplicate());
            }
            assert(cartons@[c as int]@ == f(m.cartons[c as int]));
            assert(m.cartons.take(c + 1) =~= m.cartons.take(c as int).push(m.cartons[c as int]));
            assert(carton_views(cartons@) =~= carton_views(prev).push(cartons@[c as int]@));
            assert(carton_views(cartons@) =~= m.cartons.take(c + 1).map_values(f));
            c = c + 1;
        }
        assert(m.cartons.take(m.cartons.len() as int) =~= m.cartons);
        proof {
            lemma_fill_carton_wf(m, cid, gv);
        }
        let (batches, _old_cartons, _old_products, records, photos, photo_dir, sep) = self.take_parts();
        self.put_parts(batches, cartons, prods, records, photos, photo_dir, sep);
        Ok(())
    }

    /// Imports one carton: found in the batch by its number or added to it,
    /// then filled; tells whether it was added.
    fn import_carton_exec(&mut self, batch_id: i64, key: &String, group: &Vec<CartonProductImport>) -> (r: Result<
        bool,
        QaError,
    >)
        requires
            import_views(group@).len() > 0,
            import_rows_valid(import_views(group@)),
            units_sum(import_views(group@)) <= i64::MAX,
        ensures
            match r {
                Ok(added) => old(self)@.import_carton(batch_id, key@, import_views(group@)) == Ok::<
                    (DbModel, bool),
                    ErrorModel,
                >((final(self)@, added)),
                Err(e) => old(self)@.import_carton(batch_id, key@, import_views(group@)) == Err::<
                    (DbModel, bool),
                    ErrorModel,
                >(e@),
            },
    {
        proof {
            use_type_invariant(&*self);
        }
        match self.carton_id_exec(batch_id, key) {
            Some(cid) => {
                proof {
                    let cs = self@.cartons;
                    let k = choose|k: int| 0 <= k < cs.len() && (carton_named(batch_id, key@))(#[trigger] cs[k]);
                    assert(cs[k].id == cid);
                }
                match self.fill_carton_exec(cid, group) {
                    Err(e) => Err(e),
                    Ok(()) => Ok(false),
                }
            },
            None => {
                let ghost m = self@;
                let cid = match self.create_carton(batch_id, key.clone()) {
                    Err(e) => {
                        return Err(e);
                    },
                    Ok(cid) => cid,
                };
                proof {
                    let m1 = self@;
                    assert(m1.cartons.last().id == cid);
                    assert(m1.cartons[m1.cartons.len() - 1].id == cid);
                }
                match self.fill_carton_exec(cid, group) {
                    Err(e) => Err(e),
                    Ok(()) => Ok(true),
                }
            },
        }
    }

    /// Imports product lists into batch `batch_id` as one change: each carton
    /// of the rows, in increasing order of its trimmed number, is found in
    /// the batch or added to it; its product list is replaced by its rows
    /// and its reference quantity set to their units.
    pub fn import_cartons(&mut self, batch_id: i64, rows: Vec<CartonProductImport>) -> (r: Result<ImportResult, QaError>)
        requires
            import_sums_in_range(import_views(rows@)),
        ensures
            exists|keys: Seq<Seq<char>>| #[trigger] import_keys_ok(import_views(rows@), keys) && match r {
                Ok(res) => match old(self)@.import_cartons(batch_id, import_views(rows@), keys) {
                    Ok((n, c, u)) => {
                        &&& final(self)@ == n
                        &&& res.imported == keys.len() as i64
                        &&& res.created == c as i64
                        &&& res.updated == u as i64
                        &&& res.products == rows@.len() as i64
                    },
                    Err(_) => false,
                },
                Err(e) => old(self)@.import_cartons(batch_id, import_views(rows@), keys) == Err::<
                    (DbModel, nat, nat),
                    ErrorModel,
                >(e@) && final(self)@ == old(self)@,
            },
    {
        proof {
            use_type_invariant(&*self);
        }
        let ghost rv = import_views(rows@);
        let keys = import_keys(&rows);
        let ghost kv = string_views(keys@);
        assert(import_keys_ok(rv, kv));
        if rows.len() == 0 {
            return Err(QaError::EmptyImport);
        }
        if !rows_valid_exec(&rows) {
            return Err(QaError::InvalidImportRow);
        }
        let ghost m = self@;
        let mut work = self.duplicate();
        let mut created: usize = 0;
        let mut updated: usize = 0;
        let mut t: usize = 0;
        assert(kv.take(0) =~= Seq::<Seq<char>>::empty());
        while t < keys.len()
            invariant
                t <= keys@.len(),
                kv == string_views(keys@),
                rv == import_views(rows@),
                m == self@,
                import_keys_ok(rv, kv),
                import_rows_valid(rv),
                import_sums_in_range(rv),
                created + updated == t,
                m.import_fold(batch_id, rv, kv.take(t as int)) == Ok::<(DbModel, nat, nat), ErrorModel>(
                    (work@, created as nat, updated as nat),
                ),
            decreases keys@.len() - t,
        {
            let group = import_group_exec(&rows, &keys[t]);
            proof {
                lemma_import_group(rv, kv, t as int);
                assert(kv[t as int] == keys@[t as int]@);
                assert(kv.take(t + 1).drop_last() =~= kv.take(t as int));
                assert(kv.take(t + 1).last() == kv[t as int]);
            }
            match work.import_carton_exec(batch_id, &keys[t], &group) {
                Err(e) => {
                    proof {
                        lemma_import_fold_err(m, batch_id, rv, kv, t + 1);
                    }
                    return Err(e);
                },
                Ok(added) => {
                    if added {
                        created = created + 1;
                    } else {
                        updated = updated + 1;
                    }
                },
            }
            t = t + 1;
        }
        assert(kv.take(keys@.len() as int) =~= kv);
        proof {
            lemma_import_wf(m, batch_id, rv, kv);
        }
        *self = work;
        Ok(
            ImportResult {
                imported: keys.len() as i64,
                created: created as i64,
                updated: updated as i64,
                products: rows.len() as i64,
            },
        )
    }
}

/// A refusal part-way through an import is the import's answer.
proof fn lemma_import_fold_err(m: DbModel, batch_id: i64, rows: Seq<ProductImportModel>, keys: Seq<Seq<char>>, t: int)
    requires
        0 <= t <= keys.len(),
        m.import_fold(batch_id, rows, keys.take(t)) is Err,
    ensures
        m.import_fold(batch_id, rows, keys) == m.import_fold(batch_id, rows, keys.take(t)),
    decreases keys.len() - t,
{
    if t < keys.len() {
        assert(keys.take(t + 1).drop_last() =~= keys.take(t));
        lemma_import_fold_err(m, batch_id, rows, keys, t + 1);
    } else {
        assert(keys.take(t) =~= keys);
    }
}

} // verus!
