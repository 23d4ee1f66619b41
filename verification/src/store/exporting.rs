//! What exporting a batch reads from the store, and the layout it gives.

use vstd::prelude::*;
use crate::error::{ErrorModel, QaError};
use crate::export::{
    ExportPlan, SealSheet, export_layout, export_layout_spec, defect_lines, defect_lines_spec, defect_lines_views, export_file_names, grade_sheet_views,
    grade_sheets, grade_sheets_spec, photo_lists_views, positive_quantities, record_row_views_of, report_file_name,
    seal_file_name, seal_sheet, seal_sheet_spec, seal_sheet_views,
};
use crate::models::{Batch, BatchModel, CartonSummary, PhotoRow, PhotoRowModel, RecordRow, RecordRowModel};
use crate::schema::{
    DbModel, PhotoModel, RecordModel, carton_order, photo_of, photo_order, photo_row_views, record_order,
    record_of_batch, record_of_carton, record_row_views, sorted_by, summary_views, to_photo_row,
};
use super::Database;

verus! {

broadcast use vstd::seq_lib::group_to_multiset_ensures;

/// The batch with id `id`.
pub open spec fn batch_with_id(m: DbModel, id: i64) -> BatchModel {
    m.batches[choose|k: int| 0 <= k < m.batches.len() && #[trigger] m.batches[k].id == id]
}

/// `rows` is how the images of record `rid` are listed: by their number.
pub open spec fn photos_listed(m: DbModel, rid: i64, rows: Seq<PhotoRowModel>) -> bool {
    exists|ps: Seq<PhotoModel>| {
        &&& sorted_by(ps, photo_order())
        &&& ps.to_multiset() == m.photos.filter(photo_of(rid)).to_multiset()
        &&& rows == ps.map_values(|p: PhotoModel| to_photo_row(p))
    }
}

/// The listed records of a store that keeps its constraints have positive
/// quantities.
proof fn lemma_listed_positive(m: DbModel, p: spec_fn(RecordModel) -> bool, rs: Seq<RecordRowModel>)
    requires
        m.wf(),
        rs.to_multiset() == m.records.filter(p).map_values(m.joiner()).to_multiset(),
    ensures
        positive_quantities(rs),
{
    let f = m.records.filter(p);
    let mapped = f.map_values(m.joiner());
    assert forall|k: int| 0 <= k < rs.len() implies (#[trigger] rs[k]).quantity > 0 by {
        assert(rs.contains(rs[k]));
        assert(rs.to_multiset().count(rs[k]) > 0);
        assert(mapped.to_multiset().count(rs[k]) > 0);
        assert(mapped.contains(rs[k]));
        let j = choose|j: int| 0 <= j < mapped.len() && mapped[j] == rs[k];
        assert(f.contains(f[j]));
        m.records.lemma_filter_contains_rev(p, f[j]);
        let t = choose|t: int| 0 <= t < m.records.len() && m.records[t] == f[j];
        assert(m.wf_records());
        assert(m.records[t].quantity > 0);
    }
}

impl Database {
    fn find_batch(&self, id: i64) -> (r: Option<usize>)
        ensures
            match r {
                Some(k) => k < self@.batches.len() && self@.batches[k as int].id == id,
                None => !self@.has_batch(id),
            },
    {
        let mut i: usize = 0;
        while i < self.batches.len()
            invariant
                i <= self.batches@.len(),
                forall|k: int| 0 <= k < i ==> self@.batches[k].id != id,
            decreases self.batches@.len() - i,
        {
            if self.batches[i].id == id {
                return Some(i);
            }
            i = i + 1;
        }
        None
    }

    /// What exporting batch `batch_id` writes: refused where there is no such
    /// batch, or where a carton's total is out of range.
    #[verifier::rlimit(40)]
    pub fn export_plan(&self, batch_id: i64) -> (r: Result<ExportPlan, QaError>)
        ensures
            match r {
                Err(e) => if !self@.has_batch(batch_id) {
                    e@ == ErrorModel::NoRows
                } else {
                    e@ == ErrorModel::IntegerOverflow && self@.batch_totals_overflow(batch_id)
                },
                Ok(plan) => {
                    &&& self@.has_batch(batch_id)
                    &&& !self@.batch_totals_overflow(batch_id)
                    &&& plan.seal_file@ == seal_file_name(
                        batch_with_id(self@, batch_id).batch_no,
                        batch_with_id(self@, batch_id).inspection_date,
                    )
                    &&& plan.layout@ == export_layout_spec()
                    &&& plan.report_file@ == report_file_name(
                        batch_with_id(self@, batch_id).batch_no,
                        batch_with_id(self@, batch_id).inspection_date,
                    )
                    &&& exists|cs: Seq<CartonSummary>| {
                        &&& sorted_by(cs, carton_order())
                        &&& cs.to_multiset() == self@.batch_summaries(batch_id).to_multiset()
                        &&& seal_sheet_views(plan.seals@) == Seq::new(
                            cs.len(),
                            |i: int| seal_sheet_spec(cs[i], self@.carton_records(batch_id, cs[i].id)),
                        )
                    }
                    &&& exists|rs: Seq<RecordRowModel>, phs: Seq<Seq<PhotoRowModel>>| {
                        &&& sorted_by(rs, record_order())
                        &&& rs.to_multiset() == self@.batch_records(batch_id).to_multiset()
                        &&& phs.len() == rs.len()
                        &&& forall|k: int| 0 <= k < rs.len() ==> photos_listed(self@, #[trigger] rs[k].id, phs[k])
                        &&& grade_sheet_views(plan.grades@) == grade_sheets_spec(rs)
                        &&& defect_lines_views(plan.defects@) == defect_lines_spec(rs, phs, rs.len() as int)
                    }
                },
            },
    {
        proof {
            use_type_invariant(self);
        }
        let ghost m = self@;
        let k = match self.find_batch(batch_id) {
            None => {
                return Err(QaError::NoRows);
            },
            Some(k) => k,
        };
        proof {
            let j = choose|j: int| 0 <= j < m.batches.len() && #[trigger] m.batches[j].id == batch_id;
            crate::schema::lemma_ascending_unique(m.batches, j, k as int);
        }
        let (seal_file, report_file) = export_file_names(
            self.batches[k].batch_no.as_str(),
            self.batches[k].inspection_date.as_str(),
        );
        let cartons = match self.list_cartons(batch_id) {
            Err(e) => {
                return Err(e);
            },
            Ok(v) => v,
        };
        let ghost cs = summary_views(cartons@);
        let mut seals: Vec<SealSheet> = Vec::new();
        let mut i: usize = 0;
        while i < cartons.len()
            invariant
                i <= cartons@.len(),
                m == self@,
                m.wf(),
                cs == summary_views(cartons@),
                seal_sheet_views(seals@) == Seq::new(
                    i as nat,
                    |t: int| seal_sheet_spec(cs[t], m.carton_records(batch_id, cs[t].id)),
                ),
            decreases cartons@.len() - i,
        {
            let c = &cartons[i];
            assert(cs[i as int] == c@);
            let recs = match self.list_records(batch_id, Some(c.id)) {
                Ok(v) => v,
                Err(e) => {
                    return Err(e);
                },
            };
            proof {
                assert(record_row_views(recs@) == m.carton_records(batch_id, c.id));
                assert(record_row_views(recs@) =~= record_row_views_of(recs@));
                lemma_listed_positive(m, record_of_carton(batch_id, c.id), record_row_views_of(recs@));
            }
            let ghost prev = seals@;
            let sheet = seal_sheet(c, &recs);
            assert(sheet@ == seal_sheet_spec(cs[i as int], m.carton_records(batch_id, cs[i as int].id)));
            assert(seal_sheet_views(prev).len() == prev.len());
            seals.push(sheet);
            assert(seal_sheet_views(seals@) =~= seal_sheet_views(prev).push(sheet@));
            assert(seal_sheet_views(seals@) =~= Seq::new(
                (i + 1) as nat,
                |t: int| seal_sheet_spec(cs[t], m.carton_records(batch_id, cs[t].id)),
            ));
            i = i + 1;
        }
        let all = match self.list_records(batch_id, None) {
            Ok(v) => v,
            Err(e) => {
                return Err(e);
            },
        };
        let ghost rs = record_row_views(all@);
        proof {
            assert(rs =~= record_row_views_of(all@));
            lemma_listed_positive(m, record_of_batch(batch_id), rs);
        }
        let mut photos: Vec<Vec<PhotoRow>> = Vec::new();
        let mut j: usize = 0;
        while j < all.len()
            invariant
                j <= all@.len() == rs.len(),
                m == self@,
                rs == record_row_views(all@),
                photos@.len() == j,
                forall|t: int| 0 <= t < j ==> photos_listed(m, #[trigger] rs[t].id, photo_lists_views(photos@)[t]),
            decreases all@.len() - j,
        {
            assert(rs[j as int] == all@[j as int]@);
            let ps = match self.photos_for_record(all[j].id) {
                Ok(v) => v,
                Err(e) => {
                    return Err(e);
                },
            };
            let ghost prev = photos@;
            photos.push(ps);
            proof {
                assert forall|t: int| 0 <= t < j + 1 implies photos_listed(m, #[trigger] rs[t].id, photo_lists_views(photos@)[t]) by {
                    if t < j {
                        assert(photo_lists_views(photos@)[t] == photo_lists_views(prev)[t]);
                    } else {
                        assert(photo_lists_views(photos@)[t] == photo_row_views(photos@[t]@));
                    }
                }
            }
            j = j + 1;
        }
        let grades = grade_sheets(&all);
        let defects = defect_lines(&all, &photos);
        let layout = export_layout();
        let plan = ExportPlan { seal_file, report_file, seals, grades, defects, layout };
        proof {
            assert(rs =~= record_row_views_of(all@));
        }
        Ok(plan)
    }
}

} // verus!
