//! Properties that span the operations of the library: the store, the sheets
//! read for imports and the layout of the export workbooks.

use vstd::prelude::*;
use crate::export::{
    defect_copies, defect_lines_spec, defect_sum, grade_is, grade_lines_spec, graded_sum, pieces_before,
    positive_quantities, seal_lines_spec, seal_no_spec, sealed_sum, seal_sheet_spec, SheetStepModel, WorkSheetModel,
    GradeLinesModel, GradeSheetModel, SealLinesModel, DefectLinesModel, PhotoImageModel, grade_sheets_spec,
    apply_sheet_steps, auto_sheet_names_spec, seal_steps_spec, template_sheets,
};
use crate::models::PhotoRowModel;
use crate::models::{BatchModel, CartonSummary, ProductImportModel, RecordEditModel, RecordInputModel, RecordRowModel};
use crate::schema::{
    record_of_batch, photo_kept, photo_not_of, photo_rows, RowId, record_order, record_key_le, sorted_by,
    CartonModel, DbModel, RecordModel, carton_in_batch_pred, carton_qty, grade_qty, lemma_ascending_unique,
    lemma_grades_distinct, record_of_carton, seq_has_carton_in, status_completed, status_inspecting, status_setter,
    EditState, apply_edit, apply_edits, edit_ids_known, lemma_apply_edits_step, record_in_carton, record_stays,
    record_updater, retained, PhotoModel, lemma_filter_rows, photo_of, ProductModel, product_of, ascending,
    next_id, lemma_apply_edits_wf, lemma_drop_unnamed_wf, lemma_validate_edits_prefix, seq_has_record,
    batch_other_than, carton_outside_batch, record_outside_batch, seq_has_batch,
};
use crate::error::ErrorModel;
use vstd::set_lib::lemma_len_subset;
use crate::text::{
    all_digits, digit_char, digit_value, digits_value, int_decimal, is_ws, lemma_trim_idempotent, nat_digits,
    parse_i64_spec, trim_end_spec, trim_spec, trim_start_spec,
};
use crate::carton_import::{
    carton_id_of, carton_named, import_group, import_keys_ok, import_row_valid, import_products, import_rows_valid, import_sums_in_range,
    keys_increasing, keys_named, lemma_import_products_ok, product_not_of, product_of_row, reference_setter, units_sum,
};
use crate::order::text_le;
use crate::validate::valid_grade;
use crate::sheet::{
    CellModel, FloatReading, number_text, not_comma, parse_optional_integer_spec, box_header, carton_count_header, cell_at, color_name_header, color_no_header, description_header,
    find_header, header_col, header_key, is_header_row, item_header, number_at, parse_carton_sheet_spec,
    reading_at, sheet_row, sheet_rows, size_header, total_units_header, units_header, upc_header, value_at,
};

verus! {

broadcast use vstd::seq_lib::group_filter_ensures;

proof fn lemma_partition(rs: Seq<RecordModel>, cid: i64)
    requires
        forall|k: int| 0 <= k < rs.len() ==> valid_grade(#[trigger] rs[k].grade),
    ensures
        carton_qty(rs, cid) == grade_qty(rs, cid, seq!['A']) + grade_qty(rs, cid, seq!['B']) + grade_qty(
            rs,
            cid,
            seq!['C'],
        ) + grade_qty(rs, cid, seq!['D']),
    decreases rs.len(),
{
    if rs.len() > 0 {
        let init = rs.drop_last();
        assert forall|k: int| 0 <= k < init.len() implies valid_grade(#[trigger] init[k].grade) by {
            assert(init[k] == rs[k]);
        }
        lemma_partition(init, cid);
        assert(valid_grade(rs[rs.len() - 1].grade));
        lemma_grades_distinct();
    }
}

/// The pieces inspected in a carton are those of its four grades together.
pub proof fn law_grades_partition_inspected(m: DbModel, cid: i64)
    requires
        m.wf(),
    ensures
        carton_qty(m.records, cid) == grade_qty(m.records, cid, seq!['A']) + grade_qty(m.records, cid, seq!['B'])
            + grade_qty(m.records, cid, seq!['C']) + grade_qty(m.records, cid, seq!['D']),
{
    assert forall|k: int| 0 <= k < m.records.len() implies valid_grade(#[trigger] m.records[k].grade) by {
        assert(m.wf_records());
        assert(seq_has_carton_in(m.cartons, m.records[k].carton_id, m.records[k].batch_id));
    }
    lemma_partition(m.records, cid);
}

/// In the listing of a carton whose total is in range, the sealed pieces
/// are those graded A, B and C, and the inspected ones those of all grades.
pub proof fn law_summary_totals(m: DbModel, c: CartonModel)
    requires
        m.wf(),
        carton_qty(m.records, c.id) <= i64::MAX,
    ensures
        m.summary(c).inspected_qty == m.summary(c).grade_a + m.summary(c).grade_b + m.summary(c).grade_c
            + m.summary(c).grade_d,
        m.summary(c).sealed_qty == m.summary(c).grade_a + m.summary(c).grade_b + m.summary(c).grade_c,
{
    law_grades_partition_inspected(m, c.id);
    assert forall|k: int| 0 <= k < m.records.len() implies (#[trigger] m.records[k]).quantity > 0 by {
        assert(m.wf_records());
        assert(seq_has_carton_in(m.cartons, m.records[k].carton_id, m.records[k].batch_id));
    }
    crate::schema::lemma_qty_bounds(m.records, c.id, seq!['A'], 0);
    crate::schema::lemma_qty_bounds(m.records, c.id, seq!['B'], 0);
    crate::schema::lemma_qty_bounds(m.records, c.id, seq!['C'], 0);
    crate::schema::lemma_qty_bounds(m.records, c.id, seq!['D'], 0);
}

/// Reopening a carton that was being inspected undoes completing it.
pub proof fn law_reopen_undoes_complete(m: DbModel, id: i64)
    requires
        m.wf(),
        forall|k: int| 0 <= k < m.cartons.len() && #[trigger] m.cartons[k].id == id ==> m.cartons[k].status
            == status_inspecting(),
    ensures
        m.complete_carton(id) matches Ok(n) ==> n.set_status(id, status_inspecting()) == m,
{
    if let Ok(n) = m.complete_carton(id) {
        let back = n.set_status(id, status_inspecting());
        assert forall|k: int| 0 <= k < m.cartons.len() implies #[trigger] back.cartons[k] == m.cartons[k] by {
            let f = status_setter(id, status_completed());
            let g = status_setter(id, status_inspecting());
            assert(n.cartons[k] == f(m.cartons[k]));
            assert(back.cartons[k] == g(n.cartons[k]));
        }
        assert(back.cartons =~= m.cartons);
    }
}

/// Completing a carton is refused exactly while it has no records (its
/// total being in range), and sets its status to completed.
pub proof fn law_complete_needs_records(m: DbModel, id: i64)
    requires
        m.wf(),
        carton_qty(m.records, id) <= i64::MAX,
    ensures
        m.complete_carton(id) is Err <==> !(exists|k: int| 0 <= k < m.records.len() && #[trigger] m.records[k].carton_id == id),
        m.complete_carton(id) matches Ok(n) ==> forall|k: int| 0 <= k < n.cartons.len() && #[trigger] n.cartons[k].id == id
            ==> n.cartons[k].status == status_completed(),
{
    assert forall|k: int| 0 <= k < m.records.len() implies (#[trigger] m.records[k]).quantity > 0 by {
        assert(m.wf_records());
        assert(seq_has_carton_in(m.cartons, m.records[k].carton_id, m.records[k].batch_id));
    }
    lemma_qty_zero(m.records, id);
    if let Ok(n) = m.complete_carton(id) {
        assert forall|k: int| 0 <= k < n.cartons.len() && #[trigger] n.cartons[k].id == id implies n.cartons[k].status
            == status_completed() by {
            assert(n.cartons[k] == status_setter(id, status_completed())(m.cartons[k]));
        }
    }
}

proof fn lemma_qty_zero(rs: Seq<RecordModel>, cid: i64)
    requires
        forall|k: int| 0 <= k < rs.len() ==> (#[trigger] rs[k]).quantity > 0,
    ensures
        carton_qty(rs, cid) >= 0,
        carton_qty(rs, cid) == 0 <==> !(exists|k: int| 0 <= k < rs.len() && #[trigger] rs[k].carton_id == cid),
    decreases rs.len(),
{
    if rs.len() > 0 {
        let init = rs.drop_last();
        assert forall|k: int| 0 <= k < init.len() implies (#[trigger] init[k]).quantity > 0 by {
            assert(init[k] == rs[k]);
        }
        lemma_qty_zero(init, cid);
        if exists|k: int| 0 <= k < init.len() && #[trigger] init[k].carton_id == cid {
            let k = choose|k: int| 0 <= k < init.len() && #[trigger] init[k].carton_id == cid;
            assert(rs[k].carton_id == cid);
        }
        if exists|k: int| 0 <= k < rs.len() && #[trigger] rs[k].carton_id == cid {
            let k = choose|k: int| 0 <= k < rs.len() && #[trigger] rs[k].carton_id == cid;
            if k < init.len() {
                assert(init[k].carton_id == cid);
            }
        }
    }
}

/// A batch just added is listed first, before the batches listed before.
pub proof fn law_created_batch_listed_first(m: DbModel, batch_no: Seq<char>, date: Seq<char>)
    requires
        m.wf(),
    ensures
        m.create_batch(batch_no, date) matches Ok((n, id)) ==> {
            &&& n.batches.reverse()[0] == (BatchModel { id, batch_no: trim_spec(batch_no), inspection_date: date })
            &&& n.batches.reverse().drop_first() == m.batches.reverse()
        },
{
    if let Ok((n, id)) = m.create_batch(batch_no, date) {
        assert(n.batches.reverse().drop_first() =~= m.batches.reverse());
    }
}

/// A record just added is listed last among the records of its carton,
/// trimmed, with its grade and quantity.
pub proof fn law_created_record_listed(m: DbModel, input: RecordInputModel, uuids: Seq<Seq<char>>)
    requires
        m.wf(),
    ensures
        m.create_record(input, uuids) matches Ok((n, id, _)) ==> n.carton_records(input.batch_id, input.carton_id)
            == m.carton_records(input.batch_id, input.carton_id).push(
            RecordRowModel {
                id,
                carton_id: input.carton_id,
                carton_no: m.carton_no_of(input.carton_id),
                barcode: trim_spec(input.barcode),
                grade: input.grade,
                quantity: input.quantity,
                exception_reason: trim_spec(input.exception_reason),
            },
        ),
{
    if let Ok((n, id, _)) = m.create_record(input, uuids) {
        let p = record_of_carton(input.batch_id, input.carton_id);
        let r = n.records.last();
        assert(n.records == m.records.push(r));
        m.records.lemma_filter_push(r, p);
        assert(n.cartons == m.cartons);
        let a = n.records.filter(p).map_values(n.joiner());
        let b = m.records.filter(p).map_values(m.joiner()).push(n.joined(r));
        assert(a =~= b);
    }
}

/// Deleting a batch leaves no carton, record or image of it, keeps every
/// other batch, and names the files of exactly its images.
pub proof fn law_delete_batch_leaves_nothing(m: DbModel, id: i64)
    requires
        m.wf(),
    ensures
        m.delete_batch(id) is Err <==> !m.has_batch(id),
        m.delete_batch(id) matches Ok((n, paths)) ==> {
            &&& !n.has_batch(id)
            &&& forall|k: int| 0 <= k < n.cartons.len() ==> (#[trigger] n.cartons[k]).batch_id != id
            &&& forall|k: int| 0 <= k < n.records.len() ==> (#[trigger] n.records[k]).batch_id != id
            &&& forall|k: int| 0 <= k < n.photos.len() ==> !m.record_in_batch((#[trigger] n.photos[k]).record_id, id)
            &&& forall|k: int| 0 <= k < m.batches.len() && (#[trigger] m.batches[k]).id != id ==> n.batches.contains(m.batches[k])
            &&& paths == m.batch_photo_paths(id)
        },
{
    if let Ok((n, paths)) = m.delete_batch(id) {
        let pb = crate::schema::batch_other_than(id);
        assert forall|k: int| 0 <= k < n.batches.len() implies (#[trigger] n.batches[k]).id != id by {
            assert(pb(n.batches[k]));
        }
        assert forall|k: int| 0 <= k < m.batches.len() && (#[trigger] m.batches[k]).id != id implies n.batches.contains(m.batches[k]) by {
            assert(pb(m.batches[k]));
        }
        assert forall|k: int| 0 <= k < n.cartons.len() implies (#[trigger] n.cartons[k]).batch_id != id by {
            assert(crate::schema::carton_outside_batch(id)(n.cartons[k]));
        }
        assert forall|k: int| 0 <= k < n.records.len() implies (#[trigger] n.records[k]).batch_id != id by {
            assert(crate::schema::record_outside_batch(id)(n.records[k]));
        }
        assert forall|k: int| 0 <= k < n.photos.len() implies !m.record_in_batch((#[trigger] n.photos[k]).record_id, id) by {
            assert(m.photo_outside_batch(id)(n.photos[k]));
        }
    }
}

proof fn lemma_sealed_sum(m: DbModel, rs: Seq<RecordModel>, batch_id: i64, cid: i64)
    requires
        forall|k: int| 0 <= k < rs.len() ==> valid_grade(#[trigger] rs[k].grade),
        forall|k: int| 0 <= k < rs.len() && (#[trigger] rs[k]).carton_id == cid ==> rs[k].batch_id == batch_id,
    ensures
        sealed_sum(rs.filter(record_of_carton(batch_id, cid)).map_values(m.joiner())) == carton_qty(rs, cid)
            - grade_qty(rs, cid, seq!['D']),
    decreases rs.len(),
{
    reveal(Seq::filter);
    if rs.len() > 0 {
        let init = rs.drop_last();
        assert forall|k: int| 0 <= k < init.len() implies valid_grade(#[trigger] init[k].grade) by {
            assert(init[k] == rs[k]);
        }
        assert forall|k: int| 0 <= k < init.len() && (#[trigger] init[k]).carton_id == cid implies init[k].batch_id == batch_id by {
            assert(init[k] == rs[k]);
        }
        lemma_sealed_sum(m, init, batch_id, cid);
        let p = record_of_carton(batch_id, cid);
        let x = rs.last();
        assert(rs.filter(p) == if p(x) { init.filter(p).push(x) } else { init.filter(p) });
        let mapped = rs.filter(p).map_values(m.joiner());
        if p(x) {
            assert(mapped.drop_last() =~= init.filter(p).map_values(m.joiner()));
            assert(mapped.last() == m.joined(x));
            assert(valid_grade(rs[rs.len() - 1].grade));
            lemma_grades_distinct();
            assert(grade_is(m.joined(x), 'D') <==> x.grade == seq!['D']);
        } else {
            assert(mapped =~= init.filter(p).map_values(m.joiner()));
            assert(valid_grade(rs[rs.len() - 1].grade));
        }
    }
}

proof fn lemma_graded_sum(m: DbModel, rs: Seq<RecordModel>, batch_id: i64, cid: i64, g: char)
    requires
        forall|k: int| 0 <= k < rs.len() && (#[trigger] rs[k]).carton_id == cid ==> rs[k].batch_id == batch_id,
    ensures
        graded_sum(rs.filter(record_of_carton(batch_id, cid)).map_values(m.joiner()), g) == grade_qty(rs, cid, seq![g]),
    decreases rs.len(),
{
    reveal(Seq::filter);
    if rs.len() > 0 {
        let init = rs.drop_last();
        assert forall|k: int| 0 <= k < init.len() && (#[trigger] init[k]).carton_id == cid implies init[k].batch_id == batch_id by {
            assert(init[k] == rs[k]);
        }
        lemma_graded_sum(m, init, batch_id, cid, g);
        let p = record_of_carton(batch_id, cid);
        let x = rs.last();
        assert(rs.filter(p) == if p(x) { init.filter(p).push(x) } else { init.filter(p) });
        let mapped = rs.filter(p).map_values(m.joiner());
        if p(x) {
            assert(mapped.drop_last() =~= init.filter(p).map_values(m.joiner()));
            assert(mapped.last() == m.joined(x));
        } else {
            assert(mapped =~= init.filter(p).map_values(m.joiner()));
            assert(rs[rs.len() - 1].carton_id == cid ==> rs[rs.len() - 1].batch_id == batch_id);
        }
    }
}

/// A carton is listed with its own id, number, reference quantity and
/// status, and (where its total is in range) the totals of the records
/// listed for it: inspected, all pieces; A, B, C and D, the pieces
/// of the records of that grade; sealed, those not graded D.
pub proof fn law_listed_totals_are_record_totals(m: DbModel, batch_id: i64, c: CartonModel)
    requires
        m.wf(),
        m.cartons.contains(c),
        c.batch_id == batch_id,
        carton_qty(m.records, c.id) <= i64::MAX,
    ensures
        ({
            let rs = m.carton_records(batch_id, c.id);
            let s = m.summary(c);
            &&& s.id == c.id && s.carton_no == c.carton_no && s.reference_qty == c.reference_qty && s.status == c.status
            &&& s.grade_a == graded_sum(rs, 'A')
            &&& s.grade_b == graded_sum(rs, 'B')
            &&& s.grade_c == graded_sum(rs, 'C')
            &&& s.grade_d == graded_sum(rs, 'D')
            &&& s.sealed_qty == sealed_sum(rs)
            &&& s.inspected_qty == graded_sum(rs, 'A') + graded_sum(rs, 'B') + graded_sum(rs, 'C') + graded_sum(rs, 'D')
        }),
{
    let rs = m.records;
    assert forall|k: int| 0 <= k < rs.len() && (#[trigger] rs[k]).carton_id == c.id implies rs[k].batch_id == batch_id by {
        assert(m.wf_records());
        assert(seq_has_carton_in(m.cartons, rs[k].carton_id, rs[k].batch_id));
        let j = choose|j: int| 0 <= j < m.cartons.len() && #[trigger] m.cartons[j].id == rs[k].carton_id && m.cartons[j].batch_id == rs[k].batch_id;
        let i = choose|i: int| 0 <= i < m.cartons.len() && m.cartons[i] == c;
        lemma_ascending_unique(m.cartons, i, j);
    }
    assert forall|k: int| 0 <= k < rs.len() implies (#[trigger] rs[k]).quantity > 0 by {
        assert(m.wf_records());
        assert(seq_has_carton_in(m.cartons, rs[k].carton_id, rs[k].batch_id));
    }
    lemma_graded_sum(m, rs, batch_id, c.id, 'A');
    lemma_graded_sum(m, rs, batch_id, c.id, 'B');
    lemma_graded_sum(m, rs, batch_id, c.id, 'C');
    lemma_graded_sum(m, rs, batch_id, c.id, 'D');
    crate::schema::lemma_qty_bounds(rs, c.id, seq!['A'], 0);
    crate::schema::lemma_qty_bounds(rs, c.id, seq!['B'], 0);
    crate::schema::lemma_qty_bounds(rs, c.id, seq!['C'], 0);
    crate::schema::lemma_qty_bounds(rs, c.id, seq!['D'], 0);
    law_seal_total_is_sealed(m, batch_id, c);
    law_summary_totals(m, c);
}

/// The total of a carton's seal sheet is its number of sealed pieces.
pub proof fn law_seal_total_is_sealed(m: DbModel, batch_id: i64, c: CartonModel)
    requires
        m.wf(),
        m.cartons.contains(c),
        c.batch_id == batch_id,
        carton_qty(m.records, c.id) <= i64::MAX,
    ensures
        seal_sheet_spec(m.summary(c), m.carton_records(batch_id, c.id)).total == m.summary(c).sealed_qty,
{
    let rs = m.records;
    assert forall|k: int| 0 <= k < rs.len() implies valid_grade(#[trigger] rs[k].grade) by {
        assert(m.wf_records());
        assert(seq_has_carton_in(m.cartons, rs[k].carton_id, rs[k].batch_id));
    }
    assert forall|k: int| 0 <= k < rs.len() && (#[trigger] rs[k]).carton_id == c.id implies rs[k].batch_id == batch_id by {
        assert(m.wf_records());
        assert(seq_has_carton_in(m.cartons, rs[k].carton_id, rs[k].batch_id));
        let j = choose|j: int| 0 <= j < m.cartons.len() && #[trigger] m.cartons[j].id == rs[k].carton_id && m.cartons[j].batch_id == rs[k].batch_id;
        let i = choose|i: int| 0 <= i < m.cartons.len() && m.cartons[i] == c;
        lemma_ascending_unique(m.cartons, i, j);
    }
    lemma_sealed_sum(m, rs, batch_id, c.id);
    assert forall|k: int| 0 <= k < rs.len() implies (#[trigger] rs[k]).quantity > 0 by {
        assert(m.wf_records());
        assert(seq_has_carton_in(m.cartons, rs[k].carton_id, rs[k].batch_id));
    }
    crate::schema::lemma_qty_bounds(rs, c.id, seq!['D'], 0);
}

/// Product `p` holds what import row `r`, the `j`-th of its carton, gives:
/// its texts trimmed, its counts and units as read, its place in the list.
pub open spec fn product_from_row(p: ProductModel, r: ProductImportModel, j: int) -> bool {
    &&& p.upc == trim_spec(r.upc)
    &&& p.item_no == trim_spec(r.item_no)
    &&& p.color_name == trim_spec(r.color_name)
    &&& p.color_no == trim_spec(r.color_no)
    &&& p.description == trim_spec(r.description)
    &&& p.size_dimension == trim_spec(r.size_dimension)
    &&& p.carton_count == r.carton_count
    &&& p.units_per_carton == r.units_per_carton
    &&& p.total_units == r.total_units
    &&& p.source_order == j as i64
}

/// The products `ps` of a carton are those of the import rows `group`, in
/// order: one per row.
pub open spec fn products_match(ps: Seq<ProductModel>, group: Seq<ProductImportModel>) -> bool {
    &&& ps.len() == group.len()
    &&& forall|j: int| 0 <= j < ps.len() ==> product_from_row(#[trigger] ps[j], group[j], j)
}

/// Carton `key` of batch `batch_id` holds what the import rows `group` give:
/// their units as its reference quantity, and their products.
pub open spec fn carton_imported(n: DbModel, batch_id: i64, key: Seq<char>, group: Seq<ProductImportModel>) -> bool {
    exists|k: int|
        0 <= k < n.cartons.len() && (#[trigger] n.cartons[k]).batch_id == batch_id && n.cartons[k].carton_no == key
            && n.cartons[k].reference_qty == Some(units_sum(group) as i64)
            && products_match(n.products.filter(product_of(n.cartons[k].id)), group)
}

proof fn lemma_filter_none<T>(s: Seq<T>, p: spec_fn(T) -> bool)
    requires
        forall|i: int| 0 <= i < s.len() ==> !p(#[trigger] s[i]),
    ensures
        s.filter(p) == Seq::<T>::empty(),
    decreases s.len(),
{
    reveal(Seq::filter);
    if s.len() > 0 {
        lemma_filter_none(s.drop_last(), p);
        assert(!p(s[s.len() - 1]));
    }
}

proof fn lemma_filter_all<T>(s: Seq<T>, p: spec_fn(T) -> bool)
    requires
        forall|i: int| 0 <= i < s.len() ==> p(#[trigger] s[i]),
    ensures
        s.filter(p) == s,
    decreases s.len(),
{
    reveal(Seq::filter);
    if s.len() > 0 {
        lemma_filter_all(s.drop_last(), p);
        assert(p(s[s.len() - 1]));
        assert(s.drop_last().push(s.last()) =~= s);
    }
}

proof fn lemma_filter_filter<T>(s: Seq<T>, p: spec_fn(T) -> bool, q: spec_fn(T) -> bool)
    requires
        forall|x: T| #[trigger] q(x) ==> p(x),
    ensures
        s.filter(p).filter(q) == s.filter(q),
    decreases s.len(),
{
    reveal(Seq::filter);
    if s.len() > 0 {
        let init = s.drop_last();
        lemma_filter_filter(init, p, q);
        let x = s.last();
        assert(s.filter(p) == if p(x) { init.filter(p).push(x) } else { init.filter(p) });
        if p(x) {
            init.filter(p).lemma_filter_push(x, q);
        }
    }
}

/// After carton `cid` is filled from `group`, its products are those of the
/// group.
#[verifier::spinoff_prover]
proof fn lemma_import_products_match(group: Seq<ProductImportModel>, cid: i64, first: int)
    requires
        import_products(group, cid, first) is Ok,
    ensures
        products_match(import_products(group, cid, first)->Ok_0, group),
{
    let ps = import_products(group, cid, first)->Ok_0;
    lemma_import_products_ok(group, cid, first);
    assert forall|j: int| 0 <= j < ps.len() implies product_from_row(#[trigger] ps[j], group[j], j) by {
        assert(ps[j] == product_of_row(group[j], cid, (first + j) as i64, j as i64));
    }
}

#[verifier::spinoff_prover]
proof fn lemma_fill_products(m: DbModel, cid: i64, group: Seq<ProductImportModel>)
    ensures
        m.fill_carton(cid, group) matches Ok(n) ==> products_match(n.products.filter(product_of(cid)), group),
{
    if let Ok(n) = m.fill_carton(cid, group) {
        let kept = m.products.filter(product_not_of(cid));
        let first = crate::schema::next_id(kept);
        let ps = import_products(group, cid, first)->Ok_0;
        lemma_import_products_ok(group, cid, first);
        Seq::filter_distributes_over_add(kept, ps, product_of(cid));
        assert forall|i: int| 0 <= i < kept.len() implies !product_of(cid)(#[trigger] kept[i]) by {
            assert(product_not_of(cid)(kept[i]));
        }
        lemma_filter_none(kept, product_of(cid));
        assert forall|i: int| 0 <= i < ps.len() implies product_of(cid)(#[trigger] ps[i]) by {
            assert(ps[i] == product_of_row(group[i], cid, (first + i) as i64, i as i64));
        }
        lemma_filter_all(ps, product_of(cid));
        assert(n.products.filter(product_of(cid)) =~= ps);
        lemma_import_products_match(group, cid, first);
    }
}

/// Filling carton `cid` leaves the products of every other carton as they
/// were.
#[verifier::spinoff_prover]
proof fn lemma_fill_keeps_products(m: DbModel, cid: i64, group: Seq<ProductImportModel>, other: i64)
    requires
        other != cid,
    ensures
        m.fill_carton(cid, group) matches Ok(n) ==> n.products.filter(product_of(other)) == m.products.filter(product_of(other)),
{
    if let Ok(n) = m.fill_carton(cid, group) {
        let kept = m.products.filter(product_not_of(cid));
        let first = crate::schema::next_id(kept);
        let ps = import_products(group, cid, first)->Ok_0;
        lemma_import_products_ok(group, cid, first);
        Seq::filter_distributes_over_add(kept, ps, product_of(other));
        assert forall|i: int| 0 <= i < ps.len() implies !product_of(other)(#[trigger] ps[i]) by {
            assert(ps[i] == product_of_row(group[i], cid, (first + i) as i64, i as i64));
        }
        lemma_filter_none(ps, product_of(other));
        assert forall|x: ProductModel| #[trigger] product_of(other)(x) implies product_not_of(cid)(x) by {}
        lemma_filter_filter(m.products, product_not_of(cid), product_of(other));
        assert(n.products.filter(product_of(other)) =~= m.products.filter(product_of(other)));
    }
}

proof fn lemma_import_carton_keeps(
    m: DbModel,
    batch_id: i64,
    key: Seq<char>,
    group: Seq<ProductImportModel>,
    other: Seq<char>,
    og: Seq<ProductImportModel>,
)
    requires
        m.wf(),
        trim_spec(key) == key,
        key != other,
        carton_imported(m, batch_id, other, og),
    ensures
        m.import_carton(batch_id, key, group) matches Ok((n, _)) ==> carton_imported(n, batch_id, other, og),
{
    let k = choose|k: int|
        0 <= k < m.cartons.len() && (#[trigger] m.cartons[k]).batch_id == batch_id && m.cartons[k].carton_no == other
            && m.cartons[k].reference_qty == Some(units_sum(og) as i64)
            && products_match(m.products.filter(product_of(m.cartons[k].id)), og);
    let ok = m.cartons[k].id;
    match carton_id_of(m.cartons, batch_id, key) {
        Some(cid) => {
            let j = choose|j: int| 0 <= j < m.cartons.len() && (carton_named(batch_id, key))(#[trigger] m.cartons[j]);
            assert(m.cartons[j].id == cid);
            if ok == cid {
                lemma_ascending_unique(m.cartons, k, j);
            }
            lemma_fill_keeps_products(m, cid, group, ok);
            if let Ok(n) = m.fill_carton(cid, group) {
                assert(n.cartons[k] == reference_setter(cid, units_sum(group) as i64)(m.cartons[k]));
                assert(n.cartons[k].batch_id == batch_id);
            }
        },
        None => {
            if let Ok((m1, cid)) = m.create_carton(batch_id, key) {
                assert(m1.cartons[k] == m.cartons[k]);
                if m.cartons.len() > 0 && k < m.cartons.len() - 1 {
                    assert(m.cartons[k].id < m.cartons[m.cartons.len() - 1].id);
                }
                assert(ok != cid);
                assert(m1.products == m.products);
                lemma_fill_keeps_products(m1, cid, group, ok);
                if let Ok(n) = m1.fill_carton(cid, group) {
                    assert(n.cartons[k] == reference_setter(cid, units_sum(group) as i64)(m1.cartons[k]));
                    assert(n.cartons[k].batch_id == batch_id);
                }
            }
        },
    }
}

proof fn lemma_import_carton_sets(m: DbModel, batch_id: i64, key: Seq<char>, group: Seq<ProductImportModel>)
    requires
        m.wf(),
        trim_spec(key) == key,
    ensures
        m.import_carton(batch_id, key, group) matches Ok((n, _)) ==> carton_imported(n, batch_id, key, group),
{
    match carton_id_of(m.cartons, batch_id, key) {
        Some(cid) => {
            let j = choose|j: int| 0 <= j < m.cartons.len() && (carton_named(batch_id, key))(#[trigger] m.cartons[j]);
            assert(m.cartons[j].id == cid);
            lemma_fill_products(m, cid, group);
            if let Ok(n) = m.fill_carton(cid, group) {
                assert(n.cartons[j] == reference_setter(cid, units_sum(group) as i64)(m.cartons[j]));
                assert(n.cartons[j].batch_id == batch_id);
            }
        },
        None => {
            if let Ok((m1, cid)) = m.create_carton(batch_id, key) {
                let j = m.cartons.len() as int;
                assert(m1.cartons[j].id == cid);
                lemma_fill_products(m1, cid, group);
                if let Ok(n) = m1.fill_carton(cid, group) {
                    assert(n.cartons[j] == reference_setter(cid, units_sum(group) as i64)(m1.cartons[j]));
                    assert(n.cartons[j].batch_id == batch_id);
                }
            }
        },
    }
}

proof fn lemma_keys_distinct(keys: Seq<Seq<char>>, i: int, j: int)
    requires
        keys_increasing(keys),
        0 <= i < j < keys.len(),
    ensures
        keys[i] != keys[j],
{
    assert(text_le(keys[i], keys[j]) && keys[i] != keys[j]);
}

proof fn lemma_import_fold_imported(m: DbModel, batch_id: i64, rows: Seq<ProductImportModel>, keys: Seq<Seq<char>>)
    requires
        m.wf(),
        keys_increasing(keys),
        keys_named(rows, keys),
        import_rows_valid(rows),
        import_sums_in_range(rows),
    ensures
        m.import_fold(batch_id, rows, keys) matches Ok((n, c, u)) ==> {
            &&& c + u == keys.len()
            &&& forall|i: int| 0 <= i < keys.len() ==> carton_imported(n, batch_id, #[trigger] keys[i], import_group(rows, keys[i]))
        },
    decreases keys.len(),
{
    if keys.len() > 0 {
        let init = keys.drop_last();
        assert forall|i: int| #![trigger init[i]] 0 <= i < init.len() implies exists|k: int| 0 <= k < rows.len() && trim_spec(#[trigger] rows[k].carton_no) == init[i] by {
            assert(init[i] == keys[i]);
        }
        assert(keys_increasing(init)) by {
            assert forall|i: int, j: int| 0 <= i < j < init.len() implies text_le(init[i], init[j]) && init[i] != init[j] by {
                assert(init[i] == keys[i] && init[j] == keys[j]);
            }
        }
        lemma_import_fold_imported(m, batch_id, rows, init);
        crate::carton_import::lemma_import_fold_wf(m, batch_id, rows, init);
        if let Ok((m1, c1, u1)) = m.import_fold(batch_id, rows, init) {
            let key = keys.last();
            let group = import_group(rows, key);
            let w = choose|w: int| 0 <= w < rows.len() && trim_spec(#[trigger] rows[w].carton_no) == keys[keys.len() - 1];
            lemma_trim_idempotent(rows[w].carton_no);
            assert(trim_spec(key) == key);
            lemma_import_carton_sets(m1, batch_id, key, group);
            if let Ok((n, _)) = m1.import_carton(batch_id, key, group) {
                assert forall|i: int| 0 <= i < keys.len() implies carton_imported(n, batch_id, #[trigger] keys[i], import_group(rows, keys[i])) by {
                    if i < keys.len() - 1 {
                        assert(init[i] == keys[i]);
                        assert(key == keys[keys.len() - 1]);
                        lemma_keys_distinct(keys, i, keys.len() - 1);
                        lemma_import_carton_keeps(m1, batch_id, key, group, keys[i], import_group(rows, keys[i]));
                    }
                }
            }
        }
    }
}

/// After an import, each carton of the import is in the batch with its
/// number; its reference quantity is the units of its rows, and its products
/// are those of its rows, in order. Every carton was either added or found.
pub proof fn law_import_fills_cartons(m: DbModel, batch_id: i64, rows: Seq<ProductImportModel>, keys: Seq<Seq<char>>)
    requires
        m.wf(),
        import_keys_ok(rows, keys),
        import_sums_in_range(rows),
    ensures
        m.import_cartons(batch_id, rows, keys) matches Ok((n, c, u)) ==> {
            &&& c + u == keys.len()
            &&& forall|i: int| 0 <= i < keys.len() ==> carton_imported(n, batch_id, #[trigger] keys[i], import_group(rows, keys[i]))
        },
{
    if rows.len() > 0 && import_rows_valid(rows) {
        lemma_import_fold_imported(m, batch_id, rows, keys);
    }
}

/// Record `id` is one of carton `cid`.
pub open spec fn record_present(db: DbModel, id: i64, cid: i64) -> bool {
    exists|k: int| 0 <= k < db.records.len() && (#[trigger] db.records[k]).id == id && db.records[k].carton_id == cid
}

/// Record `id` of carton `cid` holds what edit `e` gives: its barcode and
/// reason trimmed, its grade and quantity.
pub open spec fn record_edited(db: DbModel, id: i64, cid: i64, e: RecordEditModel) -> bool {
    exists|k: int|
        0 <= k < db.records.len() && (#[trigger] db.records[k]).id == id && db.records[k].carton_id == cid
            && db.records[k].barcode == trim_spec(e.barcode) && db.records[k].grade == e.grade
            && db.records[k].quantity == e.quantity && db.records[k].exception_reason == trim_spec(e.exception_reason)
}

proof fn lemma_edit_keeps_present(st: EditState, e: RecordEditModel, u: Seq<Seq<char>>, b: i64, c: i64, x: i64)
    requires
        record_present(st.db, x, c),
    ensures
        apply_edit(st, e, u, b, c) matches Ok(s2) ==> record_present(s2.db, x, c),
{
    let k = choose|k: int| 0 <= k < st.db.records.len() && (#[trigger] st.db.records[k]).id == x && st.db.records[k].carton_id == c;
    if let Ok(s2) = apply_edit(st, e, u, b, c) {
        match e.id {
            Some(y) => {
                assert(s2.db.records[k] == record_updater(y, c, e)(st.db.records[k]));
            },
            None => {
                assert(s2.db.records[k] == st.db.records[k]);
            },
        }
    }
}

proof fn lemma_edit_keeps_edited(st: EditState, e: RecordEditModel, u: Seq<Seq<char>>, b: i64, c: i64, x: i64, ex: RecordEditModel)
    requires
        e.id != Some(x),
        record_edited(st.db, x, c, ex),
    ensures
        apply_edit(st, e, u, b, c) matches Ok(s2) ==> record_edited(s2.db, x, c, ex),
{
    let k = choose|k: int|
        0 <= k < st.db.records.len() && (#[trigger] st.db.records[k]).id == x && st.db.records[k].carton_id == c
            && st.db.records[k].barcode == trim_spec(ex.barcode) && st.db.records[k].grade == ex.grade
            && st.db.records[k].quantity == ex.quantity && st.db.records[k].exception_reason == trim_spec(ex.exception_reason);
    if let Ok(s2) = apply_edit(st, e, u, b, c) {
        match e.id {
            Some(y) => {
                assert(s2.db.records[k] == record_updater(y, c, e)(st.db.records[k]));
            },
            None => {
                assert(s2.db.records[k] == st.db.records[k]);
            },
        }
    }
}

proof fn lemma_edit_sets(st: EditState, e: RecordEditModel, u: Seq<Seq<char>>, b: i64, c: i64, x: i64)
    requires
        e.id == Some(x),
        record_present(st.db, x, c),
    ensures
        apply_edit(st, e, u, b, c) matches Ok(s2) ==> record_edited(s2.db, x, c, e),
{
    let k = choose|k: int| 0 <= k < st.db.records.len() && (#[trigger] st.db.records[k]).id == x && st.db.records[k].carton_id == c;
    if let Ok(s2) = apply_edit(st, e, u, b, c) {
        assert(s2.db.records[k] == record_updater(x, c, e)(st.db.records[k]));
    }
}

proof fn lemma_fold_present(st: EditState, edits: Seq<RecordEditModel>, us: Seq<Seq<Seq<char>>>, b: i64, c: i64, x: i64, j: int)
    requires
        record_present(st.db, x, c),
        0 <= j <= edits.len(),
    ensures
        apply_edits(st, edits.take(j), us, b, c) matches Ok(s) ==> record_present(s.db, x, c),
    decreases j,
{
    if j > 0 {
        lemma_fold_present(st, edits, us, b, c, x, j - 1);
        lemma_apply_edits_step(st, edits, us, b, c, j - 1);
        if let Ok(s1) = apply_edits(st, edits.take(j - 1), us, b, c) {
            lemma_edit_keeps_present(s1, edits[j - 1], us[j - 1], b, c, x);
        }
    } else {
        assert(edits.take(0) =~= Seq::<RecordEditModel>::empty());
    }
}

proof fn lemma_fold_edited(
    st: EditState,
    edits: Seq<RecordEditModel>,
    us: Seq<Seq<Seq<char>>>,
    b: i64,
    c: i64,
    x: i64,
    k: int,
    j: int,
)
    requires
        record_present(st.db, x, c),
        0 <= k < j <= edits.len(),
        edits[k].id == Some(x),
        forall|t: int| k < t < edits.len() ==> (#[trigger] edits[t]).id != Some(x),
    ensures
        apply_edits(st, edits.take(j), us, b, c) matches Ok(s) ==> record_edited(s.db, x, c, edits[k]),
    decreases j,
{
    lemma_apply_edits_step(st, edits, us, b, c, j - 1);
    if j - 1 == k {
        lemma_fold_present(st, edits, us, b, c, x, k);
        if let Ok(s1) = apply_edits(st, edits.take(k), us, b, c) {
            lemma_edit_sets(s1, edits[k], us[k], b, c, x);
        }
    } else {
        lemma_fold_edited(st, edits, us, b, c, x, k, j - 1);
        if let Ok(s1) = apply_edits(st, edits.take(j - 1), us, b, c) {
            lemma_edit_keeps_edited(s1, edits[j - 1], us[j - 1], b, c, x, edits[k]);
        }
    }
}

/// A record that a successful rewrite names is, after the records it does
/// not name are dropped, one of the carton's.
proof fn lemma_named_present(m: DbModel, batch_id: i64, carton_id: i64, edits: Seq<RecordEditModel>, uuids: Seq<Seq<Seq<char>>>, j: int, y: i64)
    requires
        m.wf(),
        0 <= j < edits.len(),
        edits[j].id == Some(y),
        m.replace_carton_records(batch_id, carton_id, edits, uuids) is Ok,
    ensures
        record_present(m.drop_unnamed(edits, carton_id).db, y, carton_id),
{
    assert(edit_ids_known(m.records, carton_id, edits));
    assert(edits[j].id matches Some(z) ==> record_in_carton(m.records, carton_id, z));
    let i = choose|i: int| 0 <= i < m.records.len() && #[trigger] m.records[i].id == y && m.records[i].carton_id == carton_id;
    let st0 = m.drop_unnamed(edits, carton_id);
    let p = record_stays(edits, carton_id);
    assert(retained(edits, y));
    assert(p(m.records[i]));
    assert(m.records.filter(p).contains(m.records[i]));
    let t = choose|t: int| 0 <= t < st0.db.records.len() && st0.db.records[t] == m.records[i];
    assert(st0.db.records[t].id == y);
}

proof fn lemma_edit_adds(st: EditState, e: RecordEditModel, u: Seq<Seq<char>>, b: i64, c: i64)
    requires
        e.id is None,
    ensures
        apply_edit(st, e, u, b, c) matches Ok(s2) ==> record_edited(s2.db, next_id(st.db.records) as i64, c, e),
{
    if let Ok(s2) = apply_edit(st, e, u, b, c) {
        let k = st.db.records.len() as int;
        assert(s2.db.records[k].id == next_id(st.db.records) as i64);
    }
}

proof fn lemma_present_below_next(db: DbModel, y: i64, c: i64)
    requires
        ascending(db.records),
        record_present(db, y, c),
    ensures
        y < next_id(db.records),
{
    let k = choose|k: int| 0 <= k < db.records.len() && (#[trigger] db.records[k]).id == y && db.records[k].carton_id == c;
    if k < db.records.len() - 1 {
        assert(db.records[k].id < db.records[db.records.len() - 1].id);
    }
}

proof fn lemma_fold_added(
    m: DbModel,
    batch_id: i64,
    carton_id: i64,
    edits: Seq<RecordEditModel>,
    us: Seq<Seq<Seq<char>>>,
    k: int,
    j: int,
    nid: i64,
)
    requires
        m.wf(),
        m.replace_carton_records(batch_id, carton_id, edits, us) is Ok,
        0 <= k < j <= edits.len(),
        edits[k].id is None,
        apply_edits(m.drop_unnamed(edits, carton_id), edits.take(k), us, batch_id, carton_id) matches Ok(sk)
            && nid == next_id(sk.db.records),
    ensures
        apply_edits(m.drop_unnamed(edits, carton_id), edits.take(j), us, batch_id, carton_id) matches Ok(s)
            ==> record_edited(s.db, nid, carton_id, edits[k]),
    decreases j,
{
    let st0 = m.drop_unnamed(edits, carton_id);
    lemma_apply_edits_step(st0, edits, us, batch_id, carton_id, j - 1);
    if j - 1 == k {
        let sk = apply_edits(st0, edits.take(k), us, batch_id, carton_id)->Ok_0;
        lemma_edit_adds(sk, edits[k], us[k], batch_id, carton_id);
    } else {
        lemma_fold_added(m, batch_id, carton_id, edits, us, k, j - 1, nid);
        if let Ok(s1) = apply_edits(st0, edits.take(j - 1), us, batch_id, carton_id) {
            let e = edits[j - 1];
            if let Some(y) = e.id {
                // a named record is older than the new one
                lemma_named_present(m, batch_id, carton_id, edits, us, j - 1, y);
                lemma_fold_present(st0, edits, us, batch_id, carton_id, y, k);
                let sk = apply_edits(st0, edits.take(k), us, batch_id, carton_id)->Ok_0;
                lemma_prefix_wf(m, batch_id, carton_id, edits, us, k);
                lemma_present_below_next(sk.db, y, carton_id);
            }
            lemma_edit_keeps_edited(s1, e, us[j - 1], batch_id, carton_id, nid, edits[k]);
        }
    }
}

/// The store after the records of a prefix of a successful rewrite keeps
/// the constraints.
proof fn lemma_prefix_wf(m: DbModel, batch_id: i64, carton_id: i64, edits: Seq<RecordEditModel>, us: Seq<Seq<Seq<char>>>, k: int)
    requires
        m.wf(),
        m.replace_carton_records(batch_id, carton_id, edits, us) is Ok,
        0 <= k <= edits.len(),
    ensures
        apply_edits(m.drop_unnamed(edits, carton_id), edits.take(k), us, batch_id, carton_id) matches Ok(s) ==> s.db.wf(),
{
    let st0 = m.drop_unnamed(edits, carton_id);
    lemma_drop_unnamed_wf(m, edits, carton_id);
    lemma_validate_edits_prefix(edits, k);
    let pre = edits.take(k);
    assert forall|j: int| 0 <= j < pre.len() implies (#[trigger] pre[j].id matches Some(x) ==> seq_has_record(st0.db.records, x)) by {
        assert(pre[j] == edits[j]);
    }
    assert(st0.db.has_carton_in(carton_id, batch_id));
    lemma_apply_edits_wf(st0, pre, us, batch_id, carton_id);
}

/// Rewriting the records of a carton adds a record of the carton for each
/// new record of the edit, with its barcode and reason trimmed, and its grade
/// and quantity.
pub proof fn law_replace_adds_new_records(
    m: DbModel,
    batch_id: i64,
    carton_id: i64,
    edits: Seq<RecordEditModel>,
    uuids: Seq<Seq<Seq<char>>>,
    k: int,
)
    requires
        m.wf(),
        0 <= k < edits.len(),
        edits[k].id is None,
    ensures
        m.replace_carton_records(batch_id, carton_id, edits, uuids) matches Ok(st) ==> exists|id: i64|
            record_edited(st.db, id, carton_id, edits[k]),
{
    if let Ok(st) = m.replace_carton_records(batch_id, carton_id, edits, uuids) {
        let st0 = m.drop_unnamed(edits, carton_id);
        lemma_apply_edits_step(st0, edits, uuids, batch_id, carton_id, k);
        lemma_apply_edits_prefix_ok(st0, edits, uuids, batch_id, carton_id, k);
        let sk = apply_edits(st0, edits.take(k), uuids, batch_id, carton_id)->Ok_0;
        let nid = next_id(sk.db.records) as i64;
        let s1 = apply_edits(st0, edits.take(k + 1), uuids, batch_id, carton_id);
        lemma_apply_edits_prefix_ok(st0, edits, uuids, batch_id, carton_id, k + 1);
        assert(s1 is Ok);
        assert(next_id(sk.db.records) <= i64::MAX);
        lemma_fold_added(m, batch_id, carton_id, edits, uuids, k, edits.len() as int, nid);
        assert(edits.take(edits.len() as int) =~= edits);
        assert(record_edited(st.db, nid, carton_id, edits[k]));
    }
}

/// Where the whole of a list of edits applies, so does each prefix.
proof fn lemma_apply_edits_prefix_ok(
    st: EditState,
    edits: Seq<RecordEditModel>,
    us: Seq<Seq<Seq<char>>>,
    b: i64,
    c: i64,
    k: int,
)
    requires
        0 <= k <= edits.len(),
        apply_edits(st, edits, us, b, c) is Ok,
    ensures
        apply_edits(st, edits.take(k), us, b, c) is Ok,
    decreases edits.len() - k,
{
    if k < edits.len() {
        lemma_apply_edits_prefix_ok(st, edits, us, b, c, k + 1);
        lemma_apply_edits_step(st, edits, us, b, c, k);
    } else {
        assert(edits.take(k) =~= edits);
    }
}

/// Rewriting the records of a carton gives each record it names (by the
/// last edit naming it) the edit's barcode and reason, trimmed, and its
/// grade and quantity.
pub proof fn law_replace_updates_named_records(
    m: DbModel,
    batch_id: i64,
    carton_id: i64,
    edits: Seq<RecordEditModel>,
    uuids: Seq<Seq<Seq<char>>>,
    k: int,
    x: i64,
)
    requires
        m.wf(),
        0 <= k < edits.len(),
        edits[k].id == Some(x),
        forall|t: int| k < t < edits.len() ==> (#[trigger] edits[t]).id != Some(x),
    ensures
        m.replace_carton_records(batch_id, carton_id, edits, uuids) matches Ok(st) ==> record_edited(st.db, x, carton_id, edits[k]),
{
    if let Ok(st) = m.replace_carton_records(batch_id, carton_id, edits, uuids) {
        let st0 = m.drop_unnamed(edits, carton_id);
        lemma_named_present(m, batch_id, carton_id, edits, uuids, k, x);
        lemma_fold_edited(st0, edits, uuids, batch_id, carton_id, x, k, edits.len() as int);
        assert(edits.take(edits.len() as int) =~= edits);
    }
}

/// A record has at most three images.
pub proof fn law_at_most_three_images(m: DbModel, rid: i64)
    requires
        m.wf(),
    ensures
        m.photos.filter(photo_of(rid)).len() <= 3,
{
    broadcast use vstd::set::group_set_axioms;

    let f = m.photos.filter(photo_of(rid));
    lemma_filter_rows(m.photos, photo_of(rid));
    let orders = f.map_values(|p: PhotoModel| p.photo_order as int);
    assert forall|i: int, j: int| 0 <= i < orders.len() && 0 <= j < orders.len() && i != j implies orders[i] != orders[j] by {
        assert(m.photos.contains(f[i]) && m.photos.contains(f[j]));
        let a = choose|a: int| 0 <= a < m.photos.len() && m.photos[a] == f[i];
        let b = choose|b: int| 0 <= b < m.photos.len() && m.photos[b] == f[j];
        if i < j {
            assert(f[i].id < f[j].id);
        } else {
            assert(f[j].id < f[i].id);
        }
        assert(photo_of(rid)(f[i]) && photo_of(rid)(f[j]));
        assert(m.photos[a].id != m.photos[b].id);
    }
    assert(orders.no_duplicates());
    orders.unique_seq_to_set();
    let three = Set::<int>::empty().insert(1).insert(2).insert(3);
    assert forall|o: int| orders.to_set().contains(o) implies three.contains(o) by {
        let i = choose|i: int| 0 <= i < orders.len() && orders[i] == o;
        assert(m.photos.contains(f[i]));
        let a = choose|a: int| 0 <= a < m.photos.len() && m.photos[a] == f[i];
        assert(1 <= m.photos[a].photo_order <= 3);
    }
    assert(three.len() == 3);
    lemma_len_subset(orders.to_set(), three);
}

/// Deleting a batch just added gives back the store as it was, with no
/// file to remove.
pub proof fn law_delete_undoes_create_batch(m: DbModel, batch_no: Seq<char>, date: Seq<char>)
    requires
        m.wf(),
    ensures
        m.create_batch(batch_no, date) matches Ok((n, id)) ==> n.delete_batch(id) == Ok::<(DbModel, Seq<Seq<char>>), ErrorModel>((m, seq![])),
{
    if let Ok((n, id)) = m.create_batch(batch_no, date) {
        let last = m.batches.len() as int;
        assert(n.batches[last].id == id);
        assert(n.has_batch(id));
        // no row of the store belongs to the new batch
        assert forall|i: int| 0 <= i < m.batches.len() implies (#[trigger] m.batches[i]).id != id by {
            if i < m.batches.len() - 1 {
                assert(m.batches[i].id < m.batches[m.batches.len() - 1].id);
            }
        }
        assert forall|i: int| 0 <= i < m.cartons.len() implies (#[trigger] m.cartons[i]).batch_id != id by {
            assert(seq_has_batch(m.batches, m.cartons[i].batch_id));
        }
        assert forall|i: int| 0 <= i < m.records.len() implies (#[trigger] m.records[i]).batch_id != id by {
            assert(seq_has_carton_in(m.cartons, m.records[i].carton_id, m.records[i].batch_id));
            let c = choose|c: int| 0 <= c < m.cartons.len() && #[trigger] m.cartons[c].id == m.records[i].carton_id
                && m.cartons[c].batch_id == m.records[i].batch_id;
            assert(m.cartons[c].batch_id != id);
        }
        lemma_filter_all(n.batches.drop_last(), batch_other_than(id));
        assert(n.batches.drop_last() =~= m.batches);
        reveal(Seq::filter);
        assert(n.batches.filter(batch_other_than(id)) == n.batches.drop_last().filter(batch_other_than(id)));
        lemma_filter_all(m.cartons, carton_outside_batch(id));
        assert forall|i: int| 0 <= i < m.products.len() implies n.product_outside_batch(id)(#[trigger] m.products[i]) by {
            if n.carton_in_batch(m.products[i].carton_id, id) {
                let c = choose|c: int| 0 <= c < n.cartons.len() && #[trigger] n.cartons[c].id == m.products[i].carton_id
                    && n.cartons[c].batch_id == id;
                assert(m.cartons[c].batch_id != id);
            }
        }
        lemma_filter_all(m.products, n.product_outside_batch(id));
        lemma_filter_all(m.records, record_outside_batch(id));
        assert forall|i: int| 0 <= i < m.photos.len() implies n.photo_outside_batch(id)(#[trigger] m.photos[i]) by {
            if n.record_in_batch(m.photos[i].record_id, id) {
                let r = choose|r: int| 0 <= r < n.records.len() && #[trigger] n.records[r].id == m.photos[i].record_id
                    && n.records[r].batch_id == id;
                assert(m.records[r].batch_id != id);
            }
        }
        lemma_filter_all(m.photos, n.photo_outside_batch(id));
        assert forall|i: int| 0 <= i < m.photos.len() implies !n.photo_inside_batch(id)(#[trigger] m.photos[i]) by {
            assert(n.photo_outside_batch(id)(m.photos[i]));
        }
        lemma_filter_none(m.photos, n.photo_inside_batch(id));
        assert(n.batch_photo_paths(id) =~= seq![]);
        let (d, paths) = n.delete_batch(id)->Ok_0;
        assert(d =~= m);
    }
}

/// Rows read from a sheet: each names a carton and a UPC, both trimmed, and
/// has at least one unit; no carton and UPC pair comes twice.
pub open spec fn sheet_rows_sound(rows: Seq<ProductImportModel>) -> bool {
    &&& import_rows_valid(rows)
    &&& forall|k: int| #![trigger rows[k]] 0 <= k < rows.len() ==> trim_spec(rows[k].carton_no) == rows[k].carton_no
        && trim_spec(rows[k].upc) == rows[k].upc
    &&& forall|j: int, k: int| 0 <= j < k < rows.len() ==> !(#[trigger] rows[j].carton_no == #[trigger] rows[k].carton_no
        && rows[j].upc == rows[k].upc)
}

proof fn lemma_value_trimmed(grid: Seq<Seq<CellModel>>, header: Seq<CellModel>, r: int, name: Seq<char>)
    ensures
        ({
            let v = match header_col(header, name) {
                Some(c) => trim_spec(cell_at(grid, r, c).text),
                None => seq![],
            };
            v.len() > 0 ==> trim_spec(v) == v
        }),
{
    if let Some(c) = header_col(header, name) {
        lemma_trim_idempotent(cell_at(grid, r, c).text);
    }
}

proof fn lemma_sheet_rows_sound(grid: Seq<Seq<CellModel>>, h: int, end: int)
    ensures
        sheet_rows(grid, h, end) matches Ok((rows, cur)) ==> sheet_rows_sound(rows) && trim_spec(cur) == cur,
    decreases end - h,
{
    if end > h + 1 {
        lemma_sheet_rows_sound(grid, h, end - 1);
        if let Ok((rows, cur)) = sheet_rows(grid, h, end - 1) {
            lemma_value_trimmed(grid, grid[h], end - 1, box_header());
            lemma_value_trimmed(grid, grid[h], end - 1, upc_header());
            if let Ok((rows2, cur2)) = sheet_row(grid, grid[h], end - 1, rows, cur) {
                if rows2.len() > rows.len() {
                    let x = rows2.last();
                    assert(rows2 =~= rows.push(x));
                    assert(trim_spec(x.carton_no) == x.carton_no);
                    assert(trim_spec(x.upc) == x.upc);
                    assert forall|j: int, k: int| 0 <= j < k < rows2.len() implies !(#[trigger] rows2[j].carton_no
                        == #[trigger] rows2[k].carton_no && rows2[j].upc == rows2[k].upc) by {
                        if k == rows.len() {
                            assert(rows2[j] == rows[j]);
                        }
                    }
                    assert forall|k: int| 0 <= k < rows2.len() implies import_row_valid(#[trigger] rows2[k]) by {
                        if k < rows.len() {
                            assert(rows2[k] == rows[k]);
                        }
                    }
                }
            }
        }
    }
}

/// What is read from a sheet, the import takes row by row: every row names a
/// carton and a UPC, both trimmed, and has at least one unit, and no carton
/// and UPC pair is read twice.
pub proof fn law_sheet_rows_sound(grid: Seq<Seq<CellModel>>)
    ensures
        parse_carton_sheet_spec(grid) matches Ok(rows) ==> sheet_rows_sound(rows),
{
    if let Some(h) = crate::sheet::find_header(grid, 0) {
        lemma_sheet_rows_sound(grid, h, grid.len() as int);
    }
}

/// Whether `p` orders the numbers below its length anew: each once.
pub open spec fn is_permutation(p: Seq<int>) -> bool {
    &&& forall|c: int| 0 <= c < p.len() ==> 0 <= #[trigger] p[c] < p.len()
    &&& forall|i: int, j: int| 0 <= i < j < p.len() ==> #[trigger] p[i] != #[trigger] p[j]
    &&& forall|c: int| 0 <= c < p.len() ==> #[trigger] p.contains(c)
}

/// The sheet whose column `c` is column `p[c]` of `grid`.
pub open spec fn permute_columns(grid: Seq<Seq<CellModel>>, p: Seq<int>) -> Seq<Seq<CellModel>> {
    grid.map_values(|row: Seq<CellModel>| Seq::new(p.len(), |c: int| row[p[c]]))
}

/// No two cells of `row` have the same key.
pub open spec fn keys_distinct(row: Seq<CellModel>) -> bool {
    forall|i: int, j: int| 0 <= i < j < row.len() ==> header_key(#[trigger] row[i].text) != header_key(#[trigger] row[j].text)
}

proof fn lemma_header_col_found(row: Seq<CellModel>, name: Seq<char>)
    ensures
        header_col(row, name) matches Some(c) ==> 0 <= c < row.len() && header_key(row[c].text) == name,
        header_col(row, name) is None ==> forall|c: int| 0 <= c < row.len() ==> header_key(#[trigger] row[c].text) != name,
    decreases row.len(),
{
    if row.len() > 0 {
        lemma_header_col_found(row.drop_last(), name);
        assert forall|c: int| 0 <= c < row.len() - 1 implies row.drop_last()[c] == #[trigger] row[c] by {}
    }
}

proof fn lemma_header_col_same_keys(row: Seq<CellModel>, row2: Seq<CellModel>, name: Seq<char>)
    requires
        row2.len() == row.len(),
        forall|c: int| 0 <= c < row.len() ==> header_key(#[trigger] row2[c].text) == header_key(row[c].text),
    ensures
        header_col(row2, name) == header_col(row, name),
    decreases row.len(),
{
    if row.len() > 0 {
        assert(row2.last() == row2[row.len() - 1]);
        lemma_header_col_same_keys(row.drop_last(), row2.drop_last(), name);
    }
}

proof fn lemma_header_col_permuted(row: Seq<CellModel>, p: Seq<int>, name: Seq<char>)
    requires
        is_permutation(p),
        row.len() == p.len(),
    ensures
        ({
            let row2 = Seq::new(p.len(), |c: int| row[p[c]]);
            &&& (header_col(row2, name) is Some <==> header_col(row, name) is Some)
            &&& keys_distinct(row) ==> (header_col(row2, name) matches Some(c2) ==> header_col(row, name) == Some(p[c2]))
        }),
{
    let row2 = Seq::new(p.len(), |c: int| row[p[c]]);
    lemma_header_col_found(row, name);
    lemma_header_col_found(row2, name);
    if let Some(c2) = header_col(row2, name) {
        assert(row2[c2] == row[p[c2]]);
        if keys_distinct(row) {
            let c = header_col(row, name)->Some_0;
            if c < p[c2] {
                assert(header_key(row[c].text) != header_key(row[p[c2]].text));
            } else if p[c2] < c {
                assert(header_key(row[p[c2]].text) != header_key(row[c].text));
            }
        }
    }
    if let Some(c) = header_col(row, name) {
        assert(p.contains(c));
        let i = choose|i: int| 0 <= i < p.len() && #[trigger] p[i] == c;
        assert(row2[i] == row[c]);
    }
}

proof fn lemma_find_header_permuted(grid: Seq<Seq<CellModel>>, p: Seq<int>, r: int)
    requires
        is_permutation(p),
        forall|k: int| 0 <= k < grid.len() ==> (#[trigger] grid[k]).len() == p.len(),
    ensures
        find_header(permute_columns(grid, p), r) == find_header(grid, r),
    decreases 30 - r,
{
    let grid2 = permute_columns(grid, p);
    if 0 <= r < grid.len() && r < 30 {
        assert(grid2[r] == Seq::new(p.len(), |c: int| grid[r][p[c]]));
        lemma_header_col_permuted(grid[r], p, box_header());
        lemma_header_col_permuted(grid[r], p, upc_header());
        lemma_header_col_permuted(grid[r], p, units_header());
        assert(is_header_row(grid2[r]) == is_header_row(grid[r]));
        lemma_find_header_permuted(grid, p, r + 1);
    }
}

proof fn lemma_value_permuted(grid: Seq<Seq<CellModel>>, p: Seq<int>, h: int, r: int, name: Seq<char>)
    requires
        is_permutation(p),
        forall|k: int| 0 <= k < grid.len() ==> (#[trigger] grid[k]).len() == p.len(),
        0 <= h < grid.len(),
        0 <= r < grid.len(),
        keys_distinct(grid[h]),
    ensures
        value_at(permute_columns(grid, p), permute_columns(grid, p)[h], r, name) == value_at(grid, grid[h], r, name),
        reading_at(permute_columns(grid, p), permute_columns(grid, p)[h], r, name) == reading_at(grid, grid[h], r, name),
{
    let grid2 = permute_columns(grid, p);
    assert(grid2[h] == Seq::new(p.len(), |c: int| grid[h][p[c]]));
    lemma_header_col_permuted(grid[h], p, name);
    if let Some(c2) = header_col(grid2[h], name) {
        lemma_header_col_found(grid2[h], name);
        assert(grid2[r] == Seq::new(p.len(), |c: int| grid[r][p[c]]));
        assert(cell_at(grid2, r, c2) == cell_at(grid, r, p[c2]));
    }
}

/// Where every column is read the same from two sheets at row `r`, so is
/// the row.
proof fn lemma_sheet_row_agrees(
    grid: Seq<Seq<CellModel>>,
    header: Seq<CellModel>,
    grid2: Seq<Seq<CellModel>>,
    header2: Seq<CellModel>,
    r: int,
    rows: Seq<ProductImportModel>,
    cur: Seq<char>,
)
    requires
        forall|name: Seq<char>| #[trigger] value_at(grid2, header2, r, name) == value_at(grid, header, r, name)
            && reading_at(grid2, header2, r, name) == reading_at(grid, header, r, name),
    ensures
        sheet_row(grid2, header2, r, rows, cur) == sheet_row(grid, header, r, rows, cur),
{
    assert(value_at(grid2, header2, r, box_header()) == value_at(grid, header, r, box_header()));
    assert(value_at(grid2, header2, r, upc_header()) == value_at(grid, header, r, upc_header()));
    assert(value_at(grid2, header2, r, units_header()) == value_at(grid, header, r, units_header()));
    assert(value_at(grid2, header2, r, item_header()) == value_at(grid, header, r, item_header()));
    assert(value_at(grid2, header2, r, color_name_header()) == value_at(grid, header, r, color_name_header()));
    assert(value_at(grid2, header2, r, color_no_header()) == value_at(grid, header, r, color_no_header()));
    assert(value_at(grid2, header2, r, description_header()) == value_at(grid, header, r, description_header()));
    assert(value_at(grid2, header2, r, size_header()) == value_at(grid, header, r, size_header()));
    assert(value_at(grid2, header2, r, carton_count_header()) == value_at(grid, header, r, carton_count_header()));
    assert(value_at(grid2, header2, r, total_units_header()) == value_at(grid, header, r, total_units_header()));
    assert(number_at(grid2, header2, r, units_header()) == number_at(grid, header, r, units_header()));
    assert(number_at(grid2, header2, r, carton_count_header()) == number_at(grid, header, r, carton_count_header()));
    assert(number_at(grid2, header2, r, total_units_header()) == number_at(grid, header, r, total_units_header()));
}

proof fn lemma_sheet_rows_permuted(grid: Seq<Seq<CellModel>>, p: Seq<int>, h: int, end: int)
    requires
        is_permutation(p),
        forall|k: int| 0 <= k < grid.len() ==> (#[trigger] grid[k]).len() == p.len(),
        0 <= h < grid.len(),
        end <= grid.len(),
        keys_distinct(grid[h]),
    ensures
        sheet_rows(permute_columns(grid, p), h, end) == sheet_rows(grid, h, end),
    decreases end - h,
{
    if end > h + 1 {
        lemma_sheet_rows_permuted(grid, p, h, end - 1);
        if let Ok((rows, cur)) = sheet_rows(grid, h, end - 1) {
            let grid2 = permute_columns(grid, p);
            assert forall|name: Seq<char>| #[trigger] value_at(grid2, grid2[h], end - 1, name) == value_at(grid, grid[h], end - 1, name)
                && reading_at(grid2, grid2[h], end - 1, name) == reading_at(grid, grid[h], end - 1, name) by {
                lemma_value_permuted(grid, p, h, end - 1, name);
            }
            lemma_sheet_row_agrees(grid, grid[h], grid2, grid2[h], end - 1, rows, cur);
        }
    }
}

/// Columns are found by their header, not by their place: reordering the
/// columns of a sheet leaves what is read from it unchanged, provided no two
/// cells of the header row have the same key.
pub proof fn law_column_order_does_not_matter(grid: Seq<Seq<CellModel>>, p: Seq<int>)
    requires
        is_permutation(p),
        forall|k: int| 0 <= k < grid.len() ==> (#[trigger] grid[k]).len() == p.len(),
        find_header(grid, 0) matches Some(h) ==> keys_distinct(grid[h]),
    ensures
        parse_carton_sheet_spec(permute_columns(grid, p)) == parse_carton_sheet_spec(grid),
{
    lemma_find_header_permuted(grid, p, 0);
    if let Some(h) = find_header(grid, 0) {
        lemma_find_header_range(grid, 0);
        lemma_sheet_rows_permuted(grid, p, h, grid.len() as int);
    }
}

proof fn lemma_find_header_range(grid: Seq<Seq<CellModel>>, r: int)
    ensures
        find_header(grid, r) matches Some(h) ==> 0 <= h < grid.len() && h < 30 && r <= h && is_header_row(grid[h])
            && forall|k: int| r <= k < h ==> !is_header_row(#[trigger] grid[k]),
    decreases 30 - r,
{
    if 0 <= r < grid.len() && r < 30 && !is_header_row(grid[r]) {
        lemma_find_header_range(grid, r + 1);
    }
}

proof fn lemma_find_header_relabeled(grid: Seq<Seq<CellModel>>, grid2: Seq<Seq<CellModel>>, h: int, r: int)
    requires
        find_header(grid, r) == Some(h),
        grid2.len() == grid.len(),
        forall|k: int| 0 <= k < grid.len() && k != h ==> #[trigger] grid2[k] == grid[k],
        grid2[h].len() == grid[h].len(),
        forall|c: int| 0 <= c < grid[h].len() ==> header_key(#[trigger] grid2[h][c].text) == header_key(grid[h][c].text),
    ensures
        find_header(grid2, r) == Some(h),
    decreases 30 - r,
{
    lemma_find_header_range(grid, r);
    if r < h {
        assert(grid2[r] == grid[r]);
        lemma_find_header_relabeled(grid, grid2, h, r + 1);
    } else {
        lemma_header_col_same_keys(grid[h], grid2[h], box_header());
        lemma_header_col_same_keys(grid[h], grid2[h], upc_header());
        lemma_header_col_same_keys(grid[h], grid2[h], units_header());
    }
}

proof fn lemma_sheet_rows_relabeled(grid: Seq<Seq<CellModel>>, grid2: Seq<Seq<CellModel>>, h: int, end: int)
    requires
        0 <= h < grid.len(),
        end <= grid.len(),
        grid2.len() == grid.len(),
        forall|k: int| 0 <= k < grid.len() && k != h ==> #[trigger] grid2[k] == grid[k],
        grid2[h].len() == grid[h].len(),
        forall|c: int| 0 <= c < grid[h].len() ==> header_key(#[trigger] grid2[h][c].text) == header_key(grid[h][c].text),
    ensures
        sheet_rows(grid2, h, end) == sheet_rows(grid, h, end),
    decreases end - h,
{
    if end > h + 1 {
        lemma_sheet_rows_relabeled(grid, grid2, h, end - 1);
        if let Ok((rows, cur)) = sheet_rows(grid, h, end - 1) {
            let r = end - 1;
            assert(grid2[r] == grid[r]);
            assert forall|name: Seq<char>| #[trigger] value_at(grid2, grid2[h], r, name) == value_at(grid, grid[h], r, name)
                && reading_at(grid2, grid2[h], r, name) == reading_at(grid, grid[h], r, name) by {
                lemma_header_col_same_keys(grid[h], grid2[h], name);
            }
            lemma_sheet_row_agrees(grid, grid[h], grid2, grid2[h], r, rows, cur);
        }
    }
}

/// Header cells are compared by their key (trimmed, rid of byte-order marks,
/// whitespace runs made single spaces, upper case): replacing the cells of
/// the header row by others with the same keys leaves what is read from the
/// sheet unchanged.
pub proof fn law_headers_compared_by_key(grid: Seq<Seq<CellModel>>, grid2: Seq<Seq<CellModel>>, h: int)
    requires
        find_header(grid, 0) == Some(h),
        grid2.len() == grid.len(),
        forall|k: int| 0 <= k < grid.len() && k != h ==> #[trigger] grid2[k] == grid[k],
        grid2[h].len() == grid[h].len(),
        forall|c: int| 0 <= c < grid[h].len() ==> header_key(#[trigger] grid2[h][c].text) == header_key(grid[h][c].text),
    ensures
        parse_carton_sheet_spec(grid2) == parse_carton_sheet_spec(grid),
{
    lemma_find_header_range(grid, 0);
    lemma_find_header_relabeled(grid, grid2, h, 0);
    lemma_sheet_rows_relabeled(grid, grid2, h, grid.len() as int);
}

/// What record `x` adds to the pieces counted before record `r`.
pub open spec fn piece_before(x: RecordRowModel, r: RecordRowModel) -> int {
    if x.carton_id == r.carton_id && !grade_is(x, 'D') && x.id < r.id {
        x.quantity as int
    } else {
        0
    }
}

proof fn lemma_pieces_before_remove(s: Seq<RecordRowModel>, i: int, r: RecordRowModel)
    requires
        0 <= i < s.len(),
    ensures
        pieces_before(s, r) == pieces_before(s.remove(i), r) + piece_before(s[i], r),
    decreases s.len(),
{
    if i == s.len() - 1 {
        assert(s.remove(i) =~= s.drop_last());
    } else {
        assert(s.remove(i).drop_last() =~= s.drop_last().remove(i));
        assert(s.remove(i).last() == s.last());
        lemma_pieces_before_remove(s.drop_last(), i, r);
    }
}

proof fn lemma_pieces_before_permuted(s: Seq<RecordRowModel>, t: Seq<RecordRowModel>, r: RecordRowModel)
    requires
        s.to_multiset() == t.to_multiset(),
    ensures
        pieces_before(s, r) == pieces_before(t, r),
    decreases s.len(),
{
    broadcast use vstd::seq_lib::group_to_multiset_ensures;

    if s.len() > 0 {
        let a = s.last();
        assert(s.to_multiset().count(a) > 0);
        assert(t.contains(a));
        let i = t.index_of(a);
        assert(s.remove(s.len() - 1) =~= s.drop_last());
        lemma_pieces_before_remove(t, i, r);
        lemma_pieces_before_permuted(s.drop_last(), t.remove(i), r);
    } else {
        assert(t.to_multiset().len() == 0);
    }
}

proof fn lemma_pieces_before_in_carton(m: DbModel, t: Seq<RecordModel>, batch_id: i64, r: RecordRowModel)
    ensures
        pieces_before(t.filter(record_of_batch(batch_id)).map_values(m.joiner()), r) == pieces_before(
            t.filter(record_of_carton(batch_id, r.carton_id)).map_values(m.joiner()),
            r,
        ),
    decreases t.len(),
{
    reveal(Seq::filter);
    if t.len() > 0 {
        let x = t.last();
        lemma_pieces_before_in_carton(m, t.drop_last(), batch_id, r);
        let fb = t.drop_last().filter(record_of_batch(batch_id));
        let fc = t.drop_last().filter(record_of_carton(batch_id, r.carton_id));
        if record_of_batch(batch_id)(x) {
            assert(fb.push(x).map_values(m.joiner()) =~= fb.map_values(m.joiner()).push(m.joined(x)));
            assert(fb.push(x).map_values(m.joiner()).drop_last() =~= fb.map_values(m.joiner()));
        }
        if record_of_carton(batch_id, r.carton_id)(x) {
            assert(fc.push(x).map_values(m.joiner()) =~= fc.map_values(m.joiner()).push(m.joined(x)));
            assert(fc.push(x).map_values(m.joiner()).drop_last() =~= fc.map_values(m.joiner()));
        }
    }
}

proof fn lemma_pieces_before_sealed(cs: Seq<RecordRowModel>, i: int, n: int)
    requires
        0 <= i < cs.len(),
        0 <= n <= cs.len(),
        forall|a: int, b: int| 0 <= a < b < cs.len() ==> (#[trigger] cs[a]).id < (#[trigger] cs[b]).id,
        forall|k: int| 0 <= k < cs.len() ==> (#[trigger] cs[k]).carton_id == cs[i].carton_id,
    ensures
        pieces_before(cs.take(n), cs[i]) == sealed_sum(cs.take(if n <= i { n } else { i })),
    decreases n,
{
    if n > 0 {
        lemma_pieces_before_sealed(cs, i, n - 1);
        assert(cs.take(n).drop_last() =~= cs.take(n - 1));
        assert(cs.take(n).last() == cs[n - 1]);
    }
}

/// The seal number that the defect sheet shows for a single piece not graded
/// D is the number of that piece's line on its carton's seal sheet: whatever
/// order the records of the batch are listed in, the record is one of its
/// carton's records, and the line written for it there is numbered so.
pub proof fn law_seal_no_is_seal_line(m: DbModel, batch_id: i64, rs: Seq<RecordRowModel>, j: int)
    requires
        m.wf(),
        rs.to_multiset() == m.batch_records(batch_id).to_multiset(),
        0 <= j < rs.len(),
        rs[j].quantity <= 1,
        !grade_is(rs[j], 'D'),
    ensures
        ({
            let cs = m.carton_records(batch_id, rs[j].carton_id);
            exists|i: int|
                0 <= i < cs.len() && cs[i] == rs[j] && seal_no_spec(rs, rs[j]) == int_decimal(
                    (#[trigger] seal_lines_spec(cs, i + 1)).last().first_no,
                )
        }),
{
    broadcast use vstd::seq_lib::group_to_multiset_ensures;

    let r = rs[j];
    let cid = r.carton_id;
    let bs = m.batch_records(batch_id);
    let fb = m.records.filter(record_of_batch(batch_id));
    let fc = m.records.filter(record_of_carton(batch_id, cid));
    let cs = m.carton_records(batch_id, cid);
    crate::schema::lemma_filter_rows(m.records, record_of_batch(batch_id));
    crate::schema::lemma_filter_rows(m.records, record_of_carton(batch_id, cid));
    assert(rs.contains(r));
    assert(rs.to_multiset().count(r) > 0);
    assert(bs.contains(r));
    let k = choose|k: int| 0 <= k < bs.len() && bs[k] == r;
    let x = fb[k];
    assert(bs[k] == m.joined(x));
    assert(m.records.contains(x));
    let xi = choose|xi: int| 0 <= xi < m.records.len() && m.records[xi] == x;
    assert(record_of_batch(batch_id)(fb[k]));
    assert(record_of_carton(batch_id, cid)(m.records[xi]));
    assert(fc.contains(x));
    let i = choose|i: int| 0 <= i < fc.len() && fc[i] == x;
    assert(cs[i] == r);
    assert forall|a: int, b: int| 0 <= a < b < cs.len() implies (#[trigger] cs[a]).id < (#[trigger] cs[b]).id by {
        assert(cs[a] == m.joined(fc[a]));
        assert(cs[b] == m.joined(fc[b]));
    }
    assert forall|q: int| 0 <= q < cs.len() implies (#[trigger] cs[q]).carton_id == cs[i].carton_id by {
        assert(cs[q] == m.joined(fc[q]));
        assert(record_of_carton(batch_id, cid)(fc[q]));
    }
    lemma_pieces_before_permuted(rs, bs, r);
    lemma_pieces_before_in_carton(m, m.records, batch_id, r);
    lemma_pieces_before_sealed(cs, i, cs.len() as int);
    assert(cs.take(cs.len() as int) =~= cs);
    assert(seal_lines_spec(cs, i + 1) == seal_lines_spec(cs, i).push(seal_lines_spec(cs, i + 1).last()));
}

/// The body of a carton's seal sheet: one line group per record not graded
/// D, in order, numbered on from 1 without gap or overlap from row 3, the
/// last ending at the carton's sealed pieces.
pub proof fn law_seal_lines_follow_on(rs: Seq<RecordRowModel>, n: int)
    requires
        positive_quantities(rs),
        0 <= n <= rs.len(),
    ensures
        ({
            let ls = seal_lines_spec(rs, n);
            &&& forall|k: int| #![trigger ls[k]] 0 <= k < ls.len() ==> ls[k].first_row == ls[k].first_no + 2
                && ls[k].count >= 1 && ls[k].grade != seq!['D']
            &&& ls.len() > 0 ==> ls[0].first_no == 1
            &&& forall|k: int| 0 <= k < ls.len() - 1 ==> #[trigger] ls[k + 1].first_no == ls[k].first_no + ls[k].count
            &&& ls.len() == 0 ==> sealed_sum(rs.take(n)) == 0
            &&& ls.len() > 0 ==> ls.last().first_no + ls.last().count - 1 == sealed_sum(rs.take(n))
        }),
    decreases n,
{
    if n > 0 {
        law_seal_lines_follow_on(rs, n - 1);
        assert(rs.take(n).drop_last() =~= rs.take(n - 1));
        assert(rs.take(n).last() == rs[n - 1]);
        assert(rs[n - 1].quantity > 0);
        let prev = seal_lines_spec(rs, n - 1);
        let ls = seal_lines_spec(rs, n);
        if !grade_is(rs[n - 1], 'D') {
            assert(ls == prev.push(ls.last()));
            assert forall|k: int| 0 <= k < prev.len() implies ls[k] == prev[k] by {}
        }
    }
}

/// The lines of a grade sheet: one line group per record of that grade, in
/// order, from row 2 without gap or overlap, one row per piece.
pub proof fn law_grade_lines_follow_on(rs: Seq<RecordRowModel>, g: char, n: int)
    requires
        positive_quantities(rs),
        0 <= n <= rs.len(),
    ensures
        ({
            let ls = grade_lines_spec(rs, g, n);
            &&& forall|k: int| #![trigger ls[k]] 0 <= k < ls.len() ==> ls[k].count >= 1 && ls[k].grade == seq![g]
            &&& ls.len() > 0 ==> ls[0].first_row == 2
            &&& forall|k: int| 0 <= k < ls.len() - 1 ==> #[trigger] ls[k + 1].first_row == ls[k].first_row + ls[k].count
            &&& ls.len() == 0 ==> graded_sum(rs.take(n), g) == 0
            &&& ls.len() > 0 ==> ls.last().first_row + ls.last().count - 2 == graded_sum(rs.take(n), g)
        }),
    decreases n,
{
    if n > 0 {
        law_grade_lines_follow_on(rs, g, n - 1);
        assert(rs.take(n).drop_last() =~= rs.take(n - 1));
        assert(rs.take(n).last() == rs[n - 1]);
        assert(rs[n - 1].quantity > 0);
        let prev = grade_lines_spec(rs, g, n - 1);
        let ls = grade_lines_spec(rs, g, n);
        if grade_is(rs[n - 1], g) {
            assert(ls == prev.push(ls.last()));
            assert forall|k: int| 0 <= k < prev.len() implies ls[k] == prev[k] by {}
        }
    }
}

/// The lines of the defect sheet: one line group per record not graded A,
/// in order, from row 2 without gap or overlap.
pub proof fn law_defect_lines_follow_on(rs: Seq<RecordRowModel>, photos: Seq<Seq<PhotoRowModel>>, n: int)
    requires
        positive_quantities(rs),
        0 <= n <= rs.len(),
        photos.len() == rs.len(),
    ensures
        ({
            let ls = defect_lines_spec(rs, photos, n);
            &&& forall|k: int| #![trigger ls[k]] 0 <= k < ls.len() ==> ls[k].count >= 1 && ls[k].grade != seq!['A']
            &&& ls.len() > 0 ==> ls[0].first_row == 2
            &&& forall|k: int| 0 <= k < ls.len() - 1 ==> #[trigger] ls[k + 1].first_row == ls[k].first_row + ls[k].count
            &&& ls.len() == 0 ==> defect_sum(rs.take(n)) == 0
            &&& ls.len() > 0 ==> ls.last().first_row + ls.last().count - 2 == defect_sum(rs.take(n))
        }),
    decreases n,
{
    if n > 0 {
        law_defect_lines_follow_on(rs, photos, n - 1);
        assert(rs.take(n).drop_last() =~= rs.take(n - 1));
        assert(rs.take(n).last() == rs[n - 1]);
        assert(rs[n - 1].quantity > 0);
        let prev = defect_lines_spec(rs, photos, n - 1);
        let ls = defect_lines_spec(rs, photos, n);
        if !grade_is(rs[n - 1], 'A') {
            assert(defect_copies(rs[n - 1]) >= 1);
            assert(ls == prev.push(ls.last()));
            assert forall|k: int| 0 <= k < prev.len() implies ls[k] == prev[k] by {}
        }
    }
}

proof fn lemma_apply_sheet_steps_concat(
    sheets: Seq<WorkSheetModel>,
    a: Seq<SheetStepModel>,
    b: Seq<SheetStepModel>,
    cartons: Seq<Seq<char>>,
)
    ensures
        apply_sheet_steps(sheets, a + b, cartons) == match apply_sheet_steps(sheets, a, cartons) {
            None => None,
            Some(x) => apply_sheet_steps(x, b, cartons),
        },
    decreases b.len(),
{
    if b.len() == 0 {
        assert(a + b =~= a);
    } else {
        assert((a + b).drop_last() =~= a + b.drop_last());
        assert((a + b).last() == b.last());
        lemma_apply_sheet_steps_concat(sheets, a, b.drop_last(), cartons);
    }
}

proof fn lemma_apply_adds(sheets: Seq<WorkSheetModel>, names: Seq<Seq<char>>, cartons: Seq<Seq<char>>, k: int)
    requires
        sheets.len() > 0,
        0 <= k <= names.len(),
    ensures
        apply_sheet_steps(
            sheets,
            names.map_values(|name: Seq<char>| SheetStepModel::AddCopy(name)).take(k),
            cartons,
        ) == Some(sheets + template_sheets(names.take(k))),
    decreases k,
{
    let adds = names.map_values(|name: Seq<char>| SheetStepModel::AddCopy(name));
    if k == 0 {
        assert(sheets + template_sheets(names.take(0)) =~= sheets);
        assert(adds.take(0) =~= Seq::<SheetStepModel>::empty());
    } else {
        lemma_apply_adds(sheets, names, cartons, k - 1);
        assert(adds.take(k).drop_last() =~= adds.take(k - 1));
        assert(sheets + template_sheets(names.take(k)) =~= (sheets + template_sheets(names.take(k - 1))).push(
            WorkSheetModel { name: names[k - 1], seal: None },
        ));
    }
}

proof fn lemma_apply_fills(sheets: Seq<WorkSheetModel>, cartons: Seq<Seq<char>>, k: int)
    requires
        sheets.len() >= cartons.len(),
        0 <= k <= cartons.len(),
    ensures
        apply_sheet_steps(
            sheets,
            Seq::new(cartons.len(), |j: int| SheetStepModel::Fill { sheet: j, seal: j }).take(k),
            cartons,
        ) == Some(Seq::new(sheets.len(), |j: int| if j < k {
            WorkSheetModel { name: cartons[j], seal: Some(j) }
        } else {
            sheets[j]
        })),
    decreases k,
{
    let fills = Seq::new(cartons.len(), |j: int| SheetStepModel::Fill { sheet: j, seal: j });
    if k == 0 {
        assert(fills.take(0) =~= Seq::<SheetStepModel>::empty());
        assert(Seq::new(sheets.len(), |j: int| if j < 0 {
            WorkSheetModel { name: cartons[j], seal: Some(j) }
        } else {
            sheets[j]
        }) =~= sheets);
    } else {
        lemma_apply_fills(sheets, cartons, k - 1);
        assert(fills.take(k).drop_last() =~= fills.take(k - 1));
        let prev = Seq::new(sheets.len(), |j: int| if j < k - 1 {
            WorkSheetModel { name: cartons[j], seal: Some(j) }
        } else {
            sheets[j]
        });
        assert(prev.update(k - 1, WorkSheetModel { name: cartons[k - 1], seal: Some(k - 1) }) =~= Seq::new(
            sheets.len(),
            |j: int| if j < k {
                WorkSheetModel { name: cartons[j], seal: Some(j) }
            } else {
                sheets[j]
            },
        ));
    }
}

proof fn lemma_apply_removes(sheets: Seq<WorkSheetModel>, cartons: Seq<Seq<char>>, n: int, k: int)
    requires
        0 <= n <= sheets.len(),
        0 <= k <= sheets.len() - n,
    ensures
        apply_sheet_steps(
            sheets,
            Seq::new((sheets.len() - n) as nat, |i: int| SheetStepModel::Remove(sheets.len() - 1 - i)).take(k),
            cartons,
        ) == Some(sheets.take(sheets.len() - k)),
    decreases k,
{
    let total = sheets.len() as int;
    let removes = Seq::new((total - n) as nat, |i: int| SheetStepModel::Remove(total - 1 - i));
    if k == 0 {
        assert(removes.take(0) =~= Seq::<SheetStepModel>::empty());
        assert(sheets.take(total) =~= sheets);
    } else {
        lemma_apply_removes(sheets, cartons, n, k - 1);
        assert(removes.take(k).drop_last() =~= removes.take(k - 1));
        assert(sheets.take(total - (k - 1)).remove(total - k) =~= sheets.take(total - k));
    }
}

/// Each carton gets a sheet of its own: whatever the template's sheets are
/// named and however many there are (one at least, where sheets have to be
/// added), the steps leave exactly one sheet per seal sheet, in order, named
/// by its carton number and filled with that seal sheet.
pub proof fn law_each_carton_gets_its_own_sheet(names: Seq<Seq<char>>, cartons: Seq<Seq<char>>)
    requires
        names.len() > 0 || cartons.len() == 0,
    ensures
        apply_sheet_steps(template_sheets(names), seal_steps_spec(names.len(), cartons.len()), cartons) == Some(
            Seq::new(cartons.len(), |k: int| WorkSheetModel { name: cartons[k], seal: Some(k) }),
        ),
{
    let t = names.len();
    let n = cartons.len();
    let total: int = if n > t { n as int } else { t as int };
    let added = auto_sheet_names_spec(t, n);
    let adds = added.map_values(|name: Seq<char>| SheetStepModel::AddCopy(name));
    let fills = Seq::new(n, |k: int| SheetStepModel::Fill { sheet: k, seal: k });
    let removes = Seq::new((total - n) as nat, |i: int| SheetStepModel::Remove(total - 1 - i));
    let s0 = template_sheets(names);
    lemma_apply_sheet_steps_concat(s0, adds + fills, removes, cartons);
    lemma_apply_sheet_steps_concat(s0, adds, fills, cartons);
    let s1 = s0 + template_sheets(added);
    if added.len() > 0 {
        lemma_apply_adds(s0, added, cartons, added.len() as int);
        assert(adds.take(added.len() as int) =~= adds);
        assert(added.take(added.len() as int) =~= added);
    } else {
        assert(adds =~= Seq::<SheetStepModel>::empty());
        assert(s1 =~= s0);
    }
    assert(s1.len() == total);
    lemma_apply_fills(s1, cartons, n as int);
    assert(fills.take(n as int) =~= fills);
    let s2 = Seq::new(s1.len(), |j: int| if j < n {
        WorkSheetModel { name: cartons[j], seal: Some(j) }
    } else {
        s1[j]
    });
    lemma_apply_removes(s2, cartons, n as int, total - n);
    assert(removes.take(total - n) =~= removes);
    assert(s2.take(n as int) =~= Seq::new(n, |k: int| WorkSheetModel { name: cartons[k], seal: Some(k) }));
}

proof fn lemma_nat_digits(n: nat)
    ensures
        nat_digits(n).len() > 0,
        all_digits(nat_digits(n)),
        digits_value(nat_digits(n)) == n,
    decreases n,
{
    let d = digit_char(n % 10);
    assert(digit_value(d) == n % 10 && '0' <= d <= '9') by {
        let x: nat = n % 10;
        assert(((x + 48) as u8) as u32 == x + 48);
    }
    if n >= 10 {
        lemma_nat_digits(n / 10);
        let s = nat_digits(n);
        assert(s.drop_last() =~= nat_digits(n / 10));
        assert(s.last() == d);
        assert forall|i: int| 0 <= i < s.len() implies crate::text::is_digit(#[trigger] s[i]) by {
            if i < s.len() - 1 {
                assert(s[i] == nat_digits(n / 10)[i]);
            }
        }
        assert(digits_value(s) == digits_value(nat_digits(n / 10)) * 10 + digit_value(d));
        assert((n / 10) * 10 + n % 10 == n);
    } else {
        assert(n % 10 == n);
        assert(nat_digits(n).drop_last() =~= Seq::<char>::empty());
        assert(digits_value(nat_digits(n)) == digits_value(Seq::<char>::empty()) * 10 + digit_value(d));
    }
}

/// An integer cell holding the text that `Display` writes for `n` reads as
/// `n`, whatever its `f64` reading was.
pub proof fn law_integer_text_reads_back(n: i64, reading: FloatReading)
    ensures
        parse_optional_integer_spec(int_decimal(n as int), reading) == Ok::<Option<i64>, crate::error::ErrorModel>(Some(n)),
{
    let neg: nat = if n < 0 { (-n) as nat } else { n as nat };
    lemma_nat_digits(neg);
    let s = int_decimal(n as int);
    let body = nat_digits(neg);
    assert(!is_ws(s[0]) && !is_ws(s.last()) && s.len() > 0) by {
        if n < 0 {
            assert(s[0] == '-');
            assert(s.last() == body.last());
            assert(crate::text::is_digit(body[body.len() - 1]));
        } else {
            assert(crate::text::is_digit(body[0]));
            assert(crate::text::is_digit(body[body.len() - 1]));
        }
    }
    assert(trim_start_spec(s) == s);
    assert(trim_end_spec(s) == s);
    assert forall|i: int| 0 <= i < s.len() implies not_comma(#[trigger] s[i]) by {
        if n < 0 {
            if i > 0 {
                assert(s[i] == body[i - 1]);
                assert(crate::text::is_digit(body[i - 1]));
            }
        } else {
            assert(crate::text::is_digit(body[i]));
        }
    }
    lemma_filter_all(s, |c: char| not_comma(c));
    assert(number_text(s) == s);
    if n < 0 {
        assert(s.drop_first() =~= body);
    }
    assert(parse_i64_spec(s) == Some(n));
}

/// Records that are not in carton `carton_id`.
pub open spec fn record_elsewhere(carton_id: i64) -> spec_fn(RecordModel) -> bool {
    |r: RecordModel| r.carton_id != carton_id
}

proof fn lemma_updater_keeps_elsewhere(s: Seq<RecordModel>, id: i64, c: i64, e: RecordEditModel)
    ensures
        s.map_values(record_updater(id, c, e)).filter(record_elsewhere(c)) == s.filter(record_elsewhere(c)),
    decreases s.len(),
{
    reveal(Seq::filter);
    if s.len() > 0 {
        lemma_updater_keeps_elsewhere(s.drop_last(), id, c, e);
        let t = s.map_values(record_updater(id, c, e));
        assert(t.drop_last() =~= s.drop_last().map_values(record_updater(id, c, e)));
        let x = s.last();
        let y = record_updater(id, c, e)(x);
        assert(t.last() == y);
        assert(y.carton_id == x.carton_id);
        if x.carton_id != c {
            assert(y == x);
        }
    }
}

proof fn lemma_stays_keeps_elsewhere(s: Seq<RecordModel>, edits: Seq<RecordEditModel>, c: i64)
    ensures
        s.filter(record_stays(edits, c)).filter(record_elsewhere(c)) == s.filter(record_elsewhere(c)),
    decreases s.len(),
{
    reveal(Seq::filter);
    if s.len() > 0 {
        let x = s.last();
        let f = s.drop_last().filter(record_stays(edits, c));
        lemma_stays_keeps_elsewhere(s.drop_last(), edits, c);
        if record_stays(edits, c)(x) {
            assert(f.push(x).drop_last() =~= f);
        }
    }
}

proof fn lemma_apply_edits_frame(st: EditState, edits: Seq<RecordEditModel>, uuids: Seq<Seq<Seq<char>>>, b: i64, c: i64)
    ensures
        apply_edits(st, edits, uuids, b, c) matches Ok(s2) ==> {
            &&& s2.db.batches == st.db.batches
            &&& s2.db.cartons == st.db.cartons
            &&& s2.db.products == st.db.products
            &&& s2.db.records.filter(record_elsewhere(c)) == st.db.records.filter(record_elsewhere(c))
        },
    decreases edits.len(),
{
    reveal(Seq::filter);
    if edits.len() > 0 {
        lemma_apply_edits_frame(st, edits.drop_last(), uuids, b, c);
        if let Ok(s1) = apply_edits(st, edits.drop_last(), uuids, b, c) {
            let e = edits.last();
            match e.id {
                Some(id) => {
                    lemma_updater_keeps_elsewhere(s1.db.records, id, c, e);
                },
                None => {
                    if let Ok(s2) = apply_edit(s1, e, uuids[edits.len() - 1], b, c) {
                        let x = s2.db.records.last();
                        assert(s2.db.records.drop_last() =~= s1.db.records);
                        assert(x.carton_id == c);
                    }
                },
            }
        }
    }
}

/// The images of a record are those of `photos` and of new rows for
/// another record.
proof fn lemma_photos_of_other(photos: Seq<PhotoModel>, files: Seq<crate::schema::FileModel>, id: i64, first: int, x: i64)
    requires
        id != x,
    ensures
        (photos + photo_rows(files, id, first)).filter(photo_of(x)) == photos.filter(photo_of(x)),
{
    let rows = photo_rows(files, id, first);
    Seq::filter_distributes_over_add(photos, rows, photo_of(x));
    lemma_filter_none(rows, photo_of(x));
    assert(photos.filter(photo_of(x)) + Seq::<PhotoModel>::empty() =~= photos.filter(photo_of(x)));
}

proof fn lemma_apply_edits_photos_frame(
    st: EditState,
    edits: Seq<RecordEditModel>,
    uuids: Seq<Seq<Seq<char>>>,
    b: i64,
    c: i64,
    r: RecordModel,
)
    requires
        ascending(st.db.records),
        st.db.records.contains(r),
        r.carton_id != c,
        forall|j: int| 0 <= j < edits.len() ==> (#[trigger] edits[j].id matches Some(y) ==> y != r.id),
    ensures
        apply_edits(st, edits, uuids, b, c) matches Ok(s2) ==> {
            &&& ascending(s2.db.records)
            &&& s2.db.records.contains(r)
            &&& s2.db.photos.filter(photo_of(r.id)) == st.db.photos.filter(photo_of(r.id))
        },
    decreases edits.len(),
{
    if edits.len() > 0 {
        let n = edits.len() - 1;
        assert forall|j: int| 0 <= j < edits.drop_last().len() implies (#[trigger] edits.drop_last()[j].id matches Some(
            y,
        ) ==> y != r.id) by {
            assert(edits.drop_last()[j] == edits[j]);
        }
        lemma_apply_edits_photos_frame(st, edits.drop_last(), uuids, b, c, r);
        if let Ok(s1) = apply_edits(st, edits.drop_last(), uuids, b, c) {
            let e = edits.last();
            assert(e == edits[n]);
            if let Ok(s2) = apply_edit(s1, e, uuids[n], b, c) {
                let k = choose|k: int| 0 <= k < s1.db.records.len() && s1.db.records[k] == r;
                match e.id {
                    Some(id) => {
                        let upd = record_updater(id, c, e);
                        let t = s1.db.records.map_values(upd);
                        assert(t[k] == r);
                        assert forall|a: int, bb: int| 0 <= a < bb < t.len() implies t[a].row_id() < t[bb].row_id() by {
                            assert(t[a].id == s1.db.records[a].id);
                            assert(t[bb].id == s1.db.records[bb].id);
                        }
                        if e.photos.len() > 0 {
                            let kept = s1.db.photos.filter(photo_not_of(id));
                            let first = next_id(kept);
                            let files = crate::schema::plan_photos(s1.db.photo_dir, s1.db.sep, id, e.photos, uuids[n], first)->Ok_0;
                            lemma_photos_of_other(kept, files, id, first, r.id);
                            lemma_filter_filter(s1.db.photos, photo_not_of(id), photo_of(r.id));
                        }
                    },
                    None => {
                        let id = next_id(s1.db.records);
                        assert(s1.db.records.len() > 0);
                        if k < s1.db.records.len() - 1 {
                            assert(s1.db.records[k].row_id() < s1.db.records[s1.db.records.len() - 1].row_id());
                        }
                        assert(id > r.id);
                        let first = next_id(s1.db.photos);
                        let files = crate::schema::plan_photos(s1.db.photo_dir, s1.db.sep, id as i64, e.photos, uuids[n], first)->Ok_0;
                        lemma_photos_of_other(s1.db.photos, files, id as i64, first, r.id);
                        crate::schema::lemma_push_ascending(s1.db.records, s2.db.records.last());
                        assert(s2.db.records =~= s1.db.records.push(s2.db.records.last()));
                        assert(s2.db.records[k] == r);
                    },
                }
            }
        }
    }
}

/// A carton edit changes nothing outside its carton: batches, cartons and
/// product lists stay as they were, and so do the records of every other
/// carton, in order, and their images.
pub proof fn law_replace_keeps_other_cartons(
    m: DbModel,
    batch_id: i64,
    carton_id: i64,
    edits: Seq<RecordEditModel>,
    uuids: Seq<Seq<Seq<char>>>,
)
    requires
        m.wf(),
    ensures
        m.replace_carton_records(batch_id, carton_id, edits, uuids) matches Ok(st) ==> {
            &&& st.db.batches == m.batches
            &&& st.db.cartons == m.cartons
            &&& st.db.products == m.products
            &&& st.db.records.filter(record_elsewhere(carton_id)) == m.records.filter(record_elsewhere(carton_id))
            &&& forall|k: int| 0 <= k < m.records.len() && (#[trigger] m.records[k]).carton_id != carton_id
                ==> st.db.photos.filter(photo_of(m.records[k].id)) == m.photos.filter(photo_of(m.records[k].id))
        },
{
    let st0 = m.drop_unnamed(edits, carton_id);
    lemma_apply_edits_frame(st0, edits, uuids, batch_id, carton_id);
    lemma_stays_keeps_elsewhere(m.records, edits, carton_id);
    if let Ok(st) = m.replace_carton_records(batch_id, carton_id, edits, uuids) {
        assert forall|k: int| 0 <= k < m.records.len() && (#[trigger] m.records[k]).carton_id != carton_id
            implies st.db.photos.filter(photo_of(m.records[k].id)) == m.photos.filter(photo_of(m.records[k].id)) by {
            let r = m.records[k];
            lemma_filter_rows(m.records, record_stays(edits, carton_id));
            assert(record_stays(edits, carton_id)(r));
            assert forall|j: int| 0 <= j < edits.len() implies (#[trigger] edits[j].id matches Some(y) ==> y != r.id) by {
                if let Some(y) = edits[j].id {
                    assert(record_in_carton(m.records, carton_id, y));
                    if y == r.id {
                        let q = choose|q: int| 0 <= q < m.records.len() && #[trigger] m.records[q].id == y
                            && m.records[q].carton_id == carton_id;
                        lemma_ascending_unique(m.records, q, k);
                    }
                }
            }
            lemma_apply_edits_photos_frame(st0, edits, uuids, batch_id, carton_id, r);
            let kept = photo_kept(m.records, edits, carton_id);
            assert forall|p: PhotoModel| #[trigger] photo_of(r.id)(p) implies kept(p) by {
                if (crate::schema::photo_dropped(m.records, edits, carton_id))(p) {
                    let q = choose|q: int| 0 <= q < m.records.len() && #[trigger] m.records[q].id == p.record_id
                        && m.records[q].carton_id == carton_id && !retained(edits, m.records[q].id);
                    lemma_ascending_unique(m.records, q, k);
                }
            }
            lemma_filter_filter(m.photos, kept, photo_of(r.id));
        }
    }
}

/// Listed records of carton `carton_id`.
pub open spec fn row_in_carton(carton_id: i64) -> spec_fn(RecordRowModel) -> bool {
    |r: RecordRowModel| r.carton_id == carton_id
}

proof fn lemma_batch_rows_of_carton(m: DbModel, t: Seq<RecordModel>, b: i64, c: i64)
    ensures
        t.filter(record_of_batch(b)).map_values(m.joiner()).filter(row_in_carton(c)) == t.filter(
            record_of_carton(b, c),
        ).map_values(m.joiner()),
    decreases t.len(),
{
    reveal(Seq::filter);
    if t.len() > 0 {
        let x = t.last();
        lemma_batch_rows_of_carton(m, t.drop_last(), b, c);
        let fb = t.drop_last().filter(record_of_batch(b));
        let fc = t.drop_last().filter(record_of_carton(b, c));
        if record_of_batch(b)(x) {
            let mb = fb.push(x).map_values(m.joiner());
            assert(mb =~= fb.map_values(m.joiner()).push(m.joined(x)));
            assert(mb.drop_last() =~= fb.map_values(m.joiner()));
            if row_in_carton(c)(m.joined(x)) {
                let g = fb.map_values(m.joiner()).filter(row_in_carton(c));
                assert(g.push(m.joined(x)).drop_last() =~= g);
            }
        }
        if record_of_carton(b, c)(x) {
            assert(fc.push(x).map_values(m.joiner()) =~= fc.map_values(m.joiner()).push(m.joined(x)));
        }
    }
}

proof fn lemma_filter_count<T>(s: Seq<T>, p: spec_fn(T) -> bool, x: T)
    ensures
        s.filter(p).to_multiset().count(x) == if p(x) { s.to_multiset().count(x) } else { 0 },
    decreases s.len(),
{
    broadcast use vstd::seq_lib::group_to_multiset_ensures;

    reveal(Seq::filter);
    if s.len() == 0 {
        assert(s.filter(p) =~= Seq::<T>::empty());
    } else {
        let a = s.last();
        lemma_filter_count(s.drop_last(), p, x);
        assert(s.drop_last().push(a) =~= s);
        let f = s.drop_last().filter(p);
        if p(a) {
            assert(s.filter(p) == f.push(a));
        }
    }
}

proof fn lemma_filter_same_multiset<T>(s: Seq<T>, t: Seq<T>, p: spec_fn(T) -> bool)
    requires
        s.to_multiset() == t.to_multiset(),
    ensures
        s.filter(p).to_multiset() == t.filter(p).to_multiset(),
{
    assert forall|x: T| s.filter(p).to_multiset().count(x) == t.filter(p).to_multiset().count(x) by {
        lemma_filter_count(s, p, x);
        lemma_filter_count(t, p, x);
    }
    assert(s.filter(p).to_multiset() =~= t.filter(p).to_multiset());
}

proof fn lemma_filter_sorted<T>(s: Seq<T>, p: spec_fn(T) -> bool, le: spec_fn(T, T) -> bool)
    requires
        sorted_by(s, le),
    ensures
        sorted_by(s.filter(p), le),
        forall|i: int| 0 <= i < s.filter(p).len() ==> s.contains(#[trigger] s.filter(p)[i]) && p(s.filter(p)[i]),
    decreases s.len(),
{
    reveal(Seq::filter);
    if s.len() > 0 {
        let x = s.last();
        let r = s.drop_last();
        assert(sorted_by(r, le)) by {
            assert forall|i: int, j: int| 0 <= i < j < r.len() implies le(r[i], r[j]) by {
                assert(r[i] == s[i] && r[j] == s[j]);
            }
        }
        lemma_filter_sorted(r, p, le);
        let f = r.filter(p);
        assert forall|i: int| 0 <= i < f.len() implies s.contains(#[trigger] f[i]) by {
            let k = choose|k: int| 0 <= k < r.len() && r[k] == f[i];
            assert(s[k] == f[i]);
        }
        if p(x) {
            let g = f.push(x);
            assert(s.filter(p) == g);
            assert forall|i: int, j: int| 0 <= i < j < g.len() implies le(g[i], g[j]) by {
                if j == f.len() {
                    let k = choose|k: int| 0 <= k < r.len() && r[k] == f[i];
                    assert(s[k] == g[i]);
                    assert(g[j] == s[s.len() - 1]);
                } else {
                    assert(g[i] == f[i] && g[j] == f[j]);
                }
            }
            assert forall|i: int| 0 <= i < g.len() implies s.contains(#[trigger] g[i]) && p(g[i]) by {
                if i == f.len() {
                    assert(s[s.len() - 1] == g[i]);
                } else {
                    assert(g[i] == f[i]);
                }
            }
        }
    }
}

/// Two listings with the same rows, each in id order, where rows of `s`
/// with the same id are the same, are the same listing.
proof fn lemma_same_rows_by_id(s: Seq<RecordRowModel>, t: Seq<RecordRowModel>)
    requires
        s.to_multiset() == t.to_multiset(),
        forall|i: int, j: int| 0 <= i < j < s.len() ==> (#[trigger] s[i]).id <= (#[trigger] s[j]).id,
        forall|i: int, j: int| 0 <= i < j < t.len() ==> (#[trigger] t[i]).id <= (#[trigger] t[j]).id,
        forall|i: int, j: int| 0 <= i < s.len() && 0 <= j < s.len() && (#[trigger] s[i]).id == (#[trigger] s[j]).id ==> s[i] == s[j],
    ensures
        s == t,
    decreases s.len(),
{
    broadcast use vstd::seq_lib::group_to_multiset_ensures;

    if s.len() == 0 {
        assert(t.to_multiset().len() == 0);
        assert(s =~= t);
    } else {
        let a = s.last();
        assert(s.to_multiset().count(a) > 0);
        assert(t.contains(a));
        assert(t.len() > 0);
        let b = t.last();
        assert(t.to_multiset().count(b) > 0);
        assert(s.contains(b));
        let ia = choose|i: int| 0 <= i < t.len() && t[i] == a;
        let ib = choose|i: int| 0 <= i < s.len() && s[i] == b;
        if ia < t.len() - 1 {
            assert(t[ia].id <= t[t.len() - 1].id);
        }
        if ib < s.len() - 1 {
            assert(s[ib].id <= s[s.len() - 1].id);
        }
        assert(s[ib] == s[s.len() - 1]);
        assert(a == b);
        assert(s.remove(s.len() - 1) =~= s.drop_last());
        assert(t.remove(t.len() - 1) =~= t.drop_last());
        vstd::seq_lib::to_multiset_remove(s, s.len() - 1);
        vstd::seq_lib::to_multiset_remove(t, t.len() - 1);
        let s1 = s.drop_last();
        let t1 = t.drop_last();
        assert forall|i: int, j: int| 0 <= i < j < s1.len() implies (#[trigger] s1[i]).id <= (#[trigger] s1[j]).id by {
            assert(s1[i] == s[i] && s1[j] == s[j]);
        }
        assert forall|i: int, j: int| 0 <= i < j < t1.len() implies (#[trigger] t1[i]).id <= (#[trigger] t1[j]).id by {
            assert(t1[i] == t[i] && t1[j] == t[j]);
        }
        assert forall|i: int, j: int| 0 <= i < s1.len() && 0 <= j < s1.len() && (#[trigger] s1[i]).id == (#[trigger] s1[j]).id
            implies s1[i] == s1[j] by {
            assert(s1[i] == s[i] && s1[j] == s[j]);
        }
        lemma_same_rows_by_id(s1, t1);
        assert(s =~= s1.push(a));
        assert(t =~= t1.push(b));
    }
}

/// Listing one carton's records gives the listing of the whole batch with
/// only that carton's rows kept, in the same order.
pub proof fn law_carton_listing_is_batch_listing_filtered(m: DbModel, batch_id: i64, carton_id: i64, rs: Seq<RecordRowModel>)
    requires
        m.wf(),
        sorted_by(rs, record_order()),
        rs.to_multiset() == m.batch_records(batch_id).to_multiset(),
    ensures
        rs.filter(row_in_carton(carton_id)) == m.carton_records(batch_id, carton_id),
{
    broadcast use vstd::seq_lib::group_to_multiset_ensures;

    let bs = m.batch_records(batch_id);
    let cs = m.carton_records(batch_id, carton_id);
    let fr = rs.filter(row_in_carton(carton_id));
    let fb = m.records.filter(record_of_batch(batch_id));
    let fc = m.records.filter(record_of_carton(batch_id, carton_id));
    lemma_batch_rows_of_carton(m, m.records, batch_id, carton_id);
    lemma_filter_same_multiset(rs, bs, row_in_carton(carton_id));
    lemma_filter_sorted(rs, row_in_carton(carton_id), record_order());
    lemma_filter_rows(m.records, record_of_batch(batch_id));
    lemma_filter_rows(m.records, record_of_carton(batch_id, carton_id));
    assert forall|i: int| 0 <= i < fr.len() implies (#[trigger] fr[i]).carton_no == m.carton_no_of(carton_id) by {
        assert(rs.contains(fr[i]));
        let k = choose|k: int| 0 <= k < rs.len() && rs[k] == fr[i];
        assert(rs.to_multiset().count(rs[k]) > 0);
        assert(bs.contains(fr[i]));
        let q = choose|q: int| 0 <= q < bs.len() && bs[q] == fr[i];
        assert(bs[q] == m.joined(fb[q]));
        assert(row_in_carton(carton_id)(fr[i]));
    }
    assert forall|i: int, j: int| 0 <= i < j < fr.len() implies (#[trigger] fr[i]).id <= (#[trigger] fr[j]).id by {
        assert(record_key_le(fr[i], fr[j]));
    }
    assert forall|i: int, j: int| 0 <= i < j < cs.len() implies (#[trigger] cs[i]).id <= (#[trigger] cs[j]).id by {
        assert(cs[i] == m.joined(fc[i]));
        assert(cs[j] == m.joined(fc[j]));
        assert(fc[i].row_id() < fc[j].row_id());
    }
    assert forall|i: int, j: int| 0 <= i < cs.len() && 0 <= j < cs.len() && (#[trigger] cs[i]).id == (#[trigger] cs[j]).id
        implies cs[i] == cs[j] by {
        assert(cs[i] == m.joined(fc[i]));
        assert(cs[j] == m.joined(fc[j]));
        lemma_ascending_unique(fc, i, j);
    }
    lemma_same_rows_by_id(cs, fr);
}

proof fn lemma_reimport_fold(n1: DbModel, batch_id: i64, rows: Seq<ProductImportModel>, keys: Seq<Seq<char>>, k: int)
    requires
        n1.wf(),
        0 <= k <= keys.len(),
        forall|i: int| 0 <= i < keys.len() ==> carton_imported(n1, batch_id, #[trigger] keys[i], import_group(rows, keys[i])),
    ensures
        n1.import_fold(batch_id, rows, keys.take(k)) matches Ok((m2, c, u)) ==> m2.cartons == n1.cartons && c == 0 && u == k,
    decreases k,
{
    if k > 0 {
        lemma_reimport_fold(n1, batch_id, rows, keys, k - 1);
        let t = keys.take(k);
        assert(t.drop_last() =~= keys.take(k - 1));
        assert(t.last() == keys[k - 1]);
        if let Ok((m1, c1, u1)) = n1.import_fold(batch_id, rows, keys.take(k - 1)) {
            let key = keys[k - 1];
            let group = import_group(rows, key);
            assert(carton_imported(n1, batch_id, key, group));
            let kk = choose|kk: int|
                0 <= kk < n1.cartons.len() && (#[trigger] n1.cartons[kk]).batch_id == batch_id && n1.cartons[kk].carton_no == key
                    && n1.cartons[kk].reference_qty == Some(units_sum(group) as i64)
                    && products_match(n1.products.filter(product_of(n1.cartons[kk].id)), group);
            assert((carton_named(batch_id, key))(n1.cartons[kk]));
            crate::carton_import::lemma_carton_id_of(n1, batch_id, key, kk);
            let cid = n1.cartons[kk].id;
            if let Ok(m2) = m1.fill_carton(cid, group) {
                let setter = reference_setter(cid, units_sum(group) as i64);
                assert forall|j: int| 0 <= j < n1.cartons.len() implies setter(#[trigger] n1.cartons[j]) == n1.cartons[j] by {
                    if n1.cartons[j].id == cid {
                        lemma_ascending_unique(n1.cartons, j, kk);
                    }
                }
                assert(m2.cartons =~= n1.cartons);
            }
        }
    }
}

/// Importing the same rows again adds no carton and changes none: every
/// carton of the import is found, and each keeps the reference quantity the
/// first import gave it; the products of each carton are again those of its
/// rows.
pub proof fn law_import_twice_finds_every_carton(
    m: DbModel,
    batch_id: i64,
    rows: Seq<ProductImportModel>,
    keys: Seq<Seq<char>>,
)
    requires
        m.wf(),
        import_keys_ok(rows, keys),
        import_sums_in_range(rows),
    ensures
        m.import_cartons(batch_id, rows, keys) matches Ok((n1, _, _)) ==> (n1.import_cartons(batch_id, rows, keys) matches Ok(
            (n2, c, u),
        ) ==> {
            &&& c == 0
            &&& u == keys.len()
            &&& n2.cartons == n1.cartons
            &&& forall|i: int| 0 <= i < keys.len() ==> carton_imported(n2, batch_id, #[trigger] keys[i], import_group(rows, keys[i]))
        }),
{
    if let Ok((n1, _, _)) = m.import_cartons(batch_id, rows, keys) {
        law_import_fills_cartons(m, batch_id, rows, keys);
        crate::carton_import::lemma_import_wf(m, batch_id, rows, keys);
        lemma_reimport_fold(n1, batch_id, rows, keys, keys.len() as int);
        assert(keys.take(keys.len() as int) =~= keys);
        law_import_fills_cartons(n1, batch_id, rows, keys);
    }
}

/// Records of grade `g`.
pub open spec fn has_grade(g: char) -> spec_fn(RecordRowModel) -> bool {
    |r: RecordRowModel| r.grade == seq![g]
}

/// Records not of grade `g`.
pub open spec fn lacks_grade(g: char) -> spec_fn(RecordRowModel) -> bool {
    |r: RecordRowModel| r.grade != seq![g]
}

/// Grade-sheet line `l` is record `r`: its carton, barcode, grade and
/// reason, one row per piece.
pub open spec fn grade_line_of(l: GradeLinesModel, r: RecordRowModel) -> bool {
    &&& l.carton_no == r.carton_no
    &&& l.barcode == r.barcode
    &&& l.grade == r.grade
    &&& l.reason == r.exception_reason
    &&& l.count == r.quantity
}

/// Seal line `l` is record `r`: its barcode, grade and reason, one row per
/// piece.
pub open spec fn seal_line_of(l: SealLinesModel, r: RecordRowModel) -> bool {
    &&& l.barcode == r.barcode
    &&& l.grade == r.grade
    &&& l.reason == r.exception_reason
    &&& l.count == r.quantity
}

/// Defect line `l` is record `r`: its reason, grade, carton, barcode and
/// id; a B record one row keeping its quantity, any other one row per piece
/// of quantity 1.
pub open spec fn defect_line_of(l: DefectLinesModel, r: RecordRowModel) -> bool {
    &&& l.reason == r.exception_reason
    &&& l.grade == r.grade
    &&& l.carton_no == r.carton_no
    &&& l.barcode == r.barcode
    &&& l.record_id == r.id
    &&& if r.grade == seq!['B'] {
        l.quantity == r.quantity && l.count == 1
    } else {
        l.quantity == 1 && l.count == r.quantity
    }
}

proof fn lemma_take_filter_step<T>(rs: Seq<T>, p: spec_fn(T) -> bool, n: int)
    requires
        0 < n <= rs.len(),
    ensures
        rs.take(n).filter(p) == if p(rs[n - 1]) {
            rs.take(n - 1).filter(p).push(rs[n - 1])
        } else {
            rs.take(n - 1).filter(p)
        },
{
    reveal(Seq::filter);
    assert(rs.take(n).drop_last() =~= rs.take(n - 1));
    assert(rs.take(n).last() == rs[n - 1]);
}

/// The lines of the grade sheet of grade `g` are the records of that grade,
/// in order, one line group each.
pub proof fn law_grade_lines_are_its_records(rs: Seq<RecordRowModel>, g: char, n: int)
    requires
        0 <= n <= rs.len(),
    ensures
        ({
            let ls = grade_lines_spec(rs, g, n);
            let f = rs.take(n).filter(has_grade(g));
            &&& ls.len() == f.len()
            &&& forall|k: int| 0 <= k < ls.len() ==> grade_line_of(#[trigger] ls[k], f[k])
        }),
    decreases n,
{
    if n == 0 {
        reveal(Seq::filter);
        assert(rs.take(0) =~= Seq::<RecordRowModel>::empty());
    } else {
        law_grade_lines_are_its_records(rs, g, n - 1);
        lemma_take_filter_step(rs, has_grade(g), n);
        let ls = grade_lines_spec(rs, g, n);
        let prev = grade_lines_spec(rs, g, n - 1);
        let f0 = rs.take(n - 1).filter(has_grade(g));
        if grade_is(rs[n - 1], g) {
            assert(ls == prev.push(ls.last()));
            assert forall|k: int| 0 <= k < ls.len() implies grade_line_of(#[trigger] ls[k], f0.push(rs[n - 1])[k]) by {
                if k < prev.len() {
                    assert(ls[k] == prev[k]);
                }
            }
        }
    }
}

/// The body lines of a seal sheet are the records not graded D, in order,
/// one line group each.
pub proof fn law_seal_lines_are_its_records(rs: Seq<RecordRowModel>, n: int)
    requires
        0 <= n <= rs.len(),
    ensures
        ({
            let ls = seal_lines_spec(rs, n);
            let f = rs.take(n).filter(lacks_grade('D'));
            &&& ls.len() == f.len()
            &&& forall|k: int| 0 <= k < ls.len() ==> seal_line_of(#[trigger] ls[k], f[k])
        }),
    decreases n,
{
    if n == 0 {
        reveal(Seq::filter);
        assert(rs.take(0) =~= Seq::<RecordRowModel>::empty());
    } else {
        law_seal_lines_are_its_records(rs, n - 1);
        lemma_take_filter_step(rs, lacks_grade('D'), n);
        let ls = seal_lines_spec(rs, n);
        let prev = seal_lines_spec(rs, n - 1);
        let f0 = rs.take(n - 1).filter(lacks_grade('D'));
        if !grade_is(rs[n - 1], 'D') {
            assert(ls == prev.push(ls.last()));
            assert forall|k: int| 0 <= k < ls.len() implies seal_line_of(#[trigger] ls[k], f0.push(rs[n - 1])[k]) by {
                if k < prev.len() {
                    assert(ls[k] == prev[k]);
                }
            }
        }
    }
}

/// The images of a defect line are the images `ps` of its record, in
/// order: each its file, from column G, H or I by its number (1, 2, 3) to the
/// next column.
pub open spec fn images_of(images: Seq<PhotoImageModel>, ps: Seq<PhotoRowModel>) -> bool {
    &&& images.len() == ps.len()
    &&& forall|j: int| #![trigger images[j]] 0 <= j < images.len() ==> {
        &&& images[j].path == ps[j].file_path
        &&& ps[j].photo_order == 1 ==> images[j].column == 'G' && images[j].next_column == 'H'
        &&& ps[j].photo_order == 2 ==> images[j].column == 'H' && images[j].next_column == 'I'
        &&& ps[j].photo_order == 3 ==> images[j].column == 'I' && images[j].next_column == 'J'
    }
}

/// A record with its images, on the defect sheet where it is not graded A.
pub open spec fn on_defect_sheet() -> spec_fn((RecordRowModel, Seq<PhotoRowModel>)) -> bool {
    |x: (RecordRowModel, Seq<PhotoRowModel>)| x.0.grade != seq!['A']
}

/// The lines of the defect sheet are the records not graded A, in order,
/// one line group each, with the images of that record.
pub proof fn law_defect_lines_are_its_records(rs: Seq<RecordRowModel>, photos: Seq<Seq<PhotoRowModel>>, n: int)
    requires
        0 <= n <= rs.len(),
        photos.len() == rs.len(),
    ensures
        ({
            let ls = defect_lines_spec(rs, photos, n);
            let f = Seq::new(rs.len(), |i: int| (rs[i], photos[i])).take(n).filter(on_defect_sheet());
            &&& ls.len() == f.len()
            &&& forall|k: int| 0 <= k < ls.len() ==> defect_line_of(#[trigger] ls[k], f[k].0) && images_of(ls[k].images, f[k].1)
        }),
    decreases n,
{
    let z = Seq::new(rs.len(), |i: int| (rs[i], photos[i]));
    if n == 0 {
        reveal(Seq::filter);
        assert(z.take(0) =~= Seq::<(RecordRowModel, Seq<PhotoRowModel>)>::empty());
    } else {
        law_defect_lines_are_its_records(rs, photos, n - 1);
        lemma_take_filter_step(z, on_defect_sheet(), n);
        let ls = defect_lines_spec(rs, photos, n);
        let prev = defect_lines_spec(rs, photos, n - 1);
        let f0 = z.take(n - 1).filter(on_defect_sheet());
        assert(z[n - 1] == (rs[n - 1], photos[n - 1]));
        if !grade_is(rs[n - 1], 'A') {
            assert(ls == prev.push(ls.last()));
            let imgs = ls.last().images;
            assert(images_of(imgs, photos[n - 1]));
            assert forall|k: int| 0 <= k < ls.len() implies defect_line_of(#[trigger] ls[k], f0.push(z[n - 1])[k].0)
                && images_of(ls[k].images, f0.push(z[n - 1])[k].1) by {
                if k < prev.len() {
                    assert(ls[k] == prev[k]);
                }
            }
        }
    }
}

/// A grade sheet lists its grade: its name begins with the grade letter,
/// and its lines are exactly the records of that grade, in order.
pub open spec fn sheet_lists_grade(sheet: GradeSheetModel, rs: Seq<RecordRowModel>, g: char) -> bool {
    let f = rs.filter(has_grade(g));
    &&& sheet.name.len() > 0
    &&& sheet.name[0] == g
    &&& sheet.lines.len() == f.len()
    &&& forall|k: int| 0 <= k < sheet.lines.len() ==> grade_line_of(#[trigger] sheet.lines[k], f[k])
}

/// The report's grade sheets are, in order, "A 良品", "B 可增值", "C 可修復"
/// and "D 不可修復", each listing the records of the grade its name begins
/// with.
pub proof fn law_grade_sheets_list_their_grade(rs: Seq<RecordRowModel>)
    ensures
        grade_sheets_spec(rs).len() == 4,
        grade_sheets_spec(rs)[0].name == "A 良品"@ && sheet_lists_grade(grade_sheets_spec(rs)[0], rs, 'A'),
        grade_sheets_spec(rs)[1].name == "B 可增值"@ && sheet_lists_grade(grade_sheets_spec(rs)[1], rs, 'B'),
        grade_sheets_spec(rs)[2].name == "C 可修復"@ && sheet_lists_grade(grade_sheets_spec(rs)[2], rs, 'C'),
        grade_sheets_spec(rs)[3].name == "D 不可修復"@ && sheet_lists_grade(grade_sheets_spec(rs)[3], rs, 'D'),
{
    reveal_strlit("A 良品");
    reveal_strlit("B 可增值");
    reveal_strlit("C 可修復");
    reveal_strlit("D 不可修復");
    assert(rs.take(rs.len() as int) =~= rs);
    law_grade_lines_are_its_records(rs, 'A', rs.len() as int);
    law_grade_lines_are_its_records(rs, 'B', rs.len() as int);
    law_grade_lines_are_its_records(rs, 'C', rs.len() as int);
    law_grade_lines_are_its_records(rs, 'D', rs.len() as int);
}

/// Product row `x` was read from sheet row `r` under header row `header`:
/// each field is the trimmed text, or the number, of the cell in the column
/// whose header key is that field's header; the carton number is that of
/// the row where the row names one.
pub open spec fn row_read_from(grid: Seq<Seq<CellModel>>, header: Seq<CellModel>, r: int, x: ProductImportModel) -> bool {
    &&& x.upc == value_at(grid, header, r, "UPC"@)
    &&& x.item_no == value_at(grid, header, r, "货号"@)
    &&& x.color_name == value_at(grid, header, r, "COLOR NAME"@)
    &&& x.color_no == value_at(grid, header, r, "COLOR#"@)
    &&& x.description == value_at(grid, header, r, "MERCHANDISE DESCRIPTION"@)
    &&& x.size_dimension == value_at(grid, header, r, "SIZE OR DIMENSION"@)
    &&& number_at(grid, header, r, "# OF UNITS PER CRTN"@) == Ok::<Option<i64>, ErrorModel>(Some(x.units_per_carton))
    &&& number_at(grid, header, r, "# OF CRTN"@) == Ok::<Option<i64>, ErrorModel>(x.carton_count)
    &&& number_at(grid, header, r, "TOTAL UNITS"@) == Ok::<Option<i64>, ErrorModel>(x.total_units)
    &&& value_at(grid, header, r, "BOX #"@).len() > 0 ==> x.carton_no == value_at(grid, header, r, "BOX #"@)
}

/// Product row `x` was read from some sheet row after header row `h` and
/// before row `end`.
pub open spec fn read_between(grid: Seq<Seq<CellModel>>, h: int, end: int, x: ProductImportModel) -> bool {
    exists|r: int| h < r < end && #[trigger] row_read_from(grid, grid[h], r, x)
}

proof fn lemma_sheet_rows_read_from(grid: Seq<Seq<CellModel>>, h: int, end: int)
    ensures
        sheet_rows(grid, h, end) matches Ok((rows, _)) ==> forall|k: int|
            0 <= k < rows.len() ==> read_between(grid, h, end, #[trigger] rows[k]),
    decreases end - h,
{
    if end > h + 1 {
        lemma_sheet_rows_read_from(grid, h, end - 1);
        if let Ok((rows, cur)) = sheet_rows(grid, h, end - 1) {
            if let Ok((rows2, _)) = sheet_row(grid, grid[h], end - 1, rows, cur) {
                assert(rows2.len() == rows.len() || rows2 == rows.push(rows2.last()));
                assert forall|k: int| 0 <= k < rows2.len() implies read_between(grid, h, end, #[trigger] rows2[k]) by {
                    if k < rows.len() {
                        assert(rows2[k] == rows[k]);
                        assert(read_between(grid, h, end - 1, rows[k]));
                        let r = choose|r: int| h < r < end - 1 && #[trigger] row_read_from(grid, grid[h], r, rows[k]);
                        assert(row_read_from(grid, grid[h], r, rows2[k]));
                    } else {
                        assert(row_read_from(grid, grid[h], end - 1, rows2[k]));
                    }
                }
            }
        }
    }
}

/// Every product row read from a sheet comes from one sheet row below the
/// header row: each field from the column its header names.
pub proof fn law_rows_read_from_their_columns(grid: Seq<Seq<CellModel>>)
    ensures
        parse_carton_sheet_spec(grid) matches Ok(rows) ==> find_header(grid, 0) matches Some(h) && forall|k: int|
            0 <= k < rows.len() ==> read_between(grid, h, grid.len() as int, #[trigger] rows[k]),
{
    if let Some(h) = find_header(grid, 0) {
        lemma_sheet_rows_read_from(grid, h, grid.len() as int);
    }
}

/// A carton's seal sheet is named by its carton number; its total line
/// follows the body lines, holds the pieces not graded D and the note of the
/// pieces packed (the reference quantity, else those inspected) and those
/// taken out as D; the rows after it are hidden up to row 34 at least.
pub proof fn law_seal_sheet_frame(c: CartonSummary, rs: Seq<RecordRowModel>)
    ensures
        ({
            let sh = seal_sheet_spec(c, rs);
            let packed = match c.reference_qty {
                Some(q) => q,
                None => c.inspected_qty,
            };
            &&& sh.carton_no == c.carton_no
            &&& sh.total == sealed_sum(rs)
            &&& sh.total_row == sh.total + 3
            &&& sh.note == "原箱共"@ + int_decimal(packed as int) + "件，取出"@ + int_decimal(c.grade_d as int) + "件D"@
            &&& sh.hide_to >= 34 && sh.hide_to >= sh.total_row + 1
            &&& (sh.hide_to == 34 || sh.hide_to == sh.total_row + 1)
        }),
{
}

} // verus!
