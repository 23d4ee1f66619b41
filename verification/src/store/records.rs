//! Adding inspection records and rewriting the records of a carton.

use vstd::prelude::*;
use crate::error::{ErrorModel, QaError};
use crate::models::{
    PhotoInput, RecordEditInput, RecordEditModel, RecordInput, ReplaceCartonRecordsInput, edit_views,
    photo_input_views,
};
use crate::photos::{PhotoFile, decode_base64, new_uuid, plan_photo, uuid_v4_text};
use crate::schema::{
    DbModel, EditState, FileModel, InspectionRow, PhotoEntry, PhotoModel, RecordModel, apply_edit,
    ascending, lemma_ascending_unique, lemma_filter_rows, lemma_filter_take_step, photo_not_of,
    photo_of, photo_paths, record_updater, file_views, apply_edits, lemma_apply_edits_err,
    lemma_apply_edits_step, lemma_apply_edits_wf, lemma_drop_unnamed_wf, lemma_replace_wf,
    lemma_validate_edits_err, lemma_validate_edits_prefix, lemma_validate_edits_step, nested_views,
    photo_dropped, photo_kept, record_in_carton, record_stays, retained, validate_edits,
    edit_ids_known, lemma_create_record_wf,
    lemma_plan_photos_err, lemma_plan_photos_ok, lemma_plan_photos_step, next_id, photo_rows, photo_views, plan_photos,
    record_views, string_views,
};
use crate::text::trim;
use crate::validate::validate_record;
use super::Database;

verus! {

/// Plans the files of the images of record `record_id` under `dir`, the image
/// rows getting ids from `first`.
pub(crate) fn plan_photos_in(
        dir: &String,
        sep: char,
        record_id: i64,
        photos: &Vec<PhotoInput>,
        uuids: &Vec<String>,
        first: i128,
    ) -> (r: Result<Vec<PhotoFile>, QaError>)
        requires
            uuids@.len() == photos@.len(),
        ensures
            match r {
                Ok(files) => plan_photos(
                    dir@,
                    sep,
                    record_id,
                    photo_input_views(photos@),
                    string_views(uuids@),
                    first as int,
                ) == Ok::<Seq<FileModel>, ErrorModel>(file_views(files@)),
                Err(e) => plan_photos(
                    dir@,
                    sep,
                    record_id,
                    photo_input_views(photos@),
                    string_views(uuids@),
                    first as int,
                ) == Err::<Seq<FileModel>, ErrorModel>(e@),
            },
    {
        let ghost ps = photo_input_views(photos@);
        let ghost us = string_views(uuids@);
        let mut files: Vec<PhotoFile> = Vec::new();
        let n = photos.len();
        let mut i: usize = 0;
        assert(ps.take(0) =~= Seq::<crate::models::PhotoInputModel>::empty());
        assert(file_views(files@) =~= seq![]);
        while i < n
            invariant
                i <= n == photos@.len() == uuids@.len(),
                n <= usize::MAX,
                ps == photo_input_views(photos@),
                us == string_views(uuids@),
                plan_photos(dir@, sep, record_id, ps.take(i as int), us, first as int)
                    == Ok::<Seq<FileModel>, ErrorModel>(file_views(files@)),
            decreases n - i,
        {
            proof {
                lemma_plan_photos_step(dir@, sep, record_id, ps, us, first as int, i as int);
            }
            let photo = &photos[i];
            assert(ps[i as int] == photo@);
            assert(us[i as int] == uuids@[i as int]@);
            let decoded = decode_base64(photo.data_base64.as_str());
            match plan_photo(
                dir.as_str(),
                sep,
                record_id,
                (i + 1) as u64,
                uuids[i].as_str(),
                photo.name.as_str(),
                decoded,
            ) {
                Err(e) => {
                    proof {
                        lemma_plan_photos_err(dir@, sep, record_id, ps, us, first as int, i + 1);
                    }
                    return Err(e);
                },
                Ok(f) => {
                    if first + (i as i128) > 9223372036854775807i128 {
                        proof {
                            lemma_plan_photos_err(dir@, sep, record_id, ps, us, first as int, i + 1);
                        }
                        return Err(QaError::StorageFull);
                    }
                    let ghost prev = files@;
                    files.push(f);
                    assert(file_views(files@) =~= file_views(prev).push(f@));
                },
            }
            i = i + 1;
        }
        assert(ps.take(n as int) =~= ps);
        Ok(files)
}

impl Database {
    /// Adds an inspection record with its images, their files named with
    /// `uuids`; gives the record's id and the image files to write.
    pub fn create_record_named(&mut self, input: RecordInput, uuids: &Vec<String>) -> (r: Result<
        (i64, Vec<PhotoFile>),
        QaError,
    >)
        requires
            uuids@.len() == input.photos@.len(),
        ensures
            match r {
                Ok((id, files)) => old(self)@.create_record(input@, string_views(uuids@)) == Ok::<
                    (DbModel, i64, Seq<FileModel>),
                    ErrorModel,
                >((final(self)@, id, file_views(files@))),
                Err(e) => old(self)@.create_record(input@, string_views(uuids@)) == Err::<
                    (DbModel, i64, Seq<FileModel>),
                    ErrorModel,
                >(e@) && final(self)@ == old(self)@,
            },
    {
        proof {
            use_type_invariant(&*self);
        }
        match validate_record(
            input.barcode.as_str(),
            input.grade.as_str(),
            input.quantity,
            input.photos.len(),
        ) {
            Err(e) => {
                return Err(e);
            },
            Ok(()) => {},
        }
        if !super::carton_in_batch_vec(&self.cartons, input.carton_id, input.batch_id) {
            return Err(QaError::CartonNotFound);
        }
        let nr = self.records.len();
        let id: i64 = if nr == 0 {
            1
        } else {
            let last = self.records[nr - 1].id;
            if last == i64::MAX {
                return Err(QaError::StorageFull);
            }
            last + 1
        };
        let np = self.photos.len();
        let first: i128 = if np == 0 {
            1
        } else {
            (self.photos[np - 1].id as i128) + 1
        };
        assert(first == next_id(self@.photos));
        let files = match plan_photos_in(&self.photo_dir, self.sep, id, &input.photos, uuids, first) {
            Err(e) => {
                return Err(e);
            },
            Ok(files) => files,
        };
        let ghost before = self@;
        proof {
            lemma_create_record_wf(before, input@, string_views(uuids@));
            lemma_plan_photos_ok(before.photo_dir, before.sep, id, input@.photos, string_views(uuids@), first as int);
        }
        let (batches, cartons, products, mut records, mut photos, photo_dir, sep) = self.take_parts();
        let barcode = trim(input.barcode.as_str());
        let reason = trim(input.exception_reason.as_str());
        records.push(
            InspectionRow {
                id,
                batch_id: input.batch_id,
                carton_id: input.carton_id,
                barcode,
                grade: input.grade,
                quantity: input.quantity,
                exception_reason: reason,
            },
        );
        assert(record_views(records@) =~= before.records.push(records@[nr as int]@));
        let ghost rows = photo_rows(file_views(files@), id, first as int);
        let mut k: usize = 0;
        while k < files.len()
            invariant
                k <= files@.len() == rows.len(),
                files@.len() > 0 ==> first + files@.len() - 1 <= i64::MAX,
                first >= i64::MIN,
                rows == photo_rows(file_views(files@), id, first as int),
                photo_views(photos@) == before.photos + rows.take(k as int),
            decreases files@.len() - k,
        {
            let ghost prev = photos@;
            photos.push(
                PhotoEntry {
                    id: (first + (k as i128)) as i64,
                    record_id: id,
                    photo_order: (k + 1) as i64,
                    file_path: files[k].path.clone(),
                },
            );
            assert(rows[k as int] == photos@[photos@.len() - 1]@);
            assert(photo_views(photos@) =~= photo_views(prev).push(rows[k as int]));
            assert(rows.take(k + 1) =~= rows.take(k as int).push(rows[k as int]));
            k = k + 1;
        }
        assert(rows.take(files@.len() as int) =~= rows);
        self.put_parts(batches, cartons, products, records, photos, photo_dir, sep);
        Ok((id, files))
    }

    /// Adds an inspection record with its images; gives the record's id and
    /// the image files to write, each named with a fresh random identifier.
    pub fn create_record(&mut self, input: RecordInput) -> (r: Result<(i64, Vec<PhotoFile>), QaError>)
        ensures
            exists|u: Seq<Seq<char>>| #![trigger old(self)@.create_record(input@, u)] {
                &&& u.len() == input.photos@.len()
                &&& forall|i: int| 0 <= i < u.len() ==> uuid_v4_text(#[trigger] u[i])
                &&& match r {
                    Ok((id, files)) => old(self)@.create_record(input@, u) == Ok::<
                        (DbModel, i64, Seq<FileModel>),
                        ErrorModel,
                    >((final(self)@, id, file_views(files@))),
                    Err(e) => old(self)@.create_record(input@, u) == Err::<
                        (DbModel, i64, Seq<FileModel>),
                        ErrorModel,
                    >(e@) && final(self)@ == old(self)@,
                }
            },
    {
        let mut uuids: Vec<String> = Vec::new();
        let n = input.photos.len();
        let mut i: usize = 0;
        while i < n
            invariant
                i <= n == input.photos@.len(),
                uuids@.len() == i,
                forall|k: int| 0 <= k < i ==> uuid_v4_text(#[trigger] uuids@[k]@),
            decreases n - i,
        {
            uuids.push(new_uuid());
            i = i + 1;
        }
        let r = self.create_record_named(input, &uuids);
        let ghost u = string_views(uuids@);
        assert(u.len() == uuids@.len());
        assert forall|k: int| 0 <= k < u.len() implies uuid_v4_text(#[trigger] u[k]) by {
            assert(u[k] == uuids@[k]@);
        }
        r
    }
}

/// One record of an edit applied to the records and images of the store.
#[verifier::spinoff_prover]
fn apply_edit_exec(
    recs: &mut Vec<InspectionRow>,
    phs: &mut Vec<PhotoEntry>,
    tw: &mut Vec<PhotoFile>,
    tr: &mut Vec<String>,
    e: &RecordEditInput,
    u: &Vec<String>,
    dir: &String,
    sep: char,
    batch_id: i64,
    carton_id: i64,
    Ghost(st): Ghost<EditState>,
) -> (r: Result<(), QaError>)
    requires
        st.db.records == record_views(old(recs)@),
        st.db.photos == photo_views(old(phs)@),
        st.to_write == file_views(old(tw)@),
        st.to_remove == string_views(old(tr)@),
        st.db.photo_dir == dir@,
        st.db.sep == sep,
        st.db.wf(),
        u@.len() == e.photos@.len(),
    ensures
        match r {
            Ok(()) => apply_edit(st, e@, string_views(u@), batch_id, carton_id) == Ok::<EditState, ErrorModel>(
                EditState {
                    db: DbModel {
                        records: record_views(final(recs)@),
                        photos: photo_views(final(phs)@),
                        ..st.db
                    },
                    to_write: file_views(final(tw)@),
                    to_remove: string_views(final(tr)@),
                },
            ),
            Err(x) => apply_edit(st, e@, string_views(u@), batch_id, carton_id) == Err::<EditState, ErrorModel>(x@),
        },
{
    let ghost m = st.db;
    let ghost ev = e@;
    match e.id {
        Some(id) => {
            let ghost f = record_updater(id, carton_id, ev);
            let n = recs.len();
            let mut i: usize = 0;
            while i < n && !(recs[i].id == id && recs[i].carton_id == carton_id)
                invariant
                    i <= n == recs@.len(),
                    forall|k: int| 0 <= k < i ==> !(#[trigger] recs@[k].id == id && recs@[k].carton_id == carton_id),
                decreases n - i,
            {
                i = i + 1;
            }
            if i < n {
                let old_row = &recs[i];
                let row = InspectionRow {
                    id: old_row.id,
                    batch_id: old_row.batch_id,
                    carton_id: old_row.carton_id,
                    barcode: trim(e.barcode.as_str()),
                    grade: e.grade.clone(),
                    quantity: e.quantity,
                    exception_reason: trim(e.exception_reason.as_str()),
                };
                let ghost before = recs@;
                recs.set(i, row);
                proof {
                    assert forall|k: int| 0 <= k < n implies #[trigger] record_views(recs@)[k] == f(m.records[k]) by {
                        if k != i {
                            assert(m.records[k] == before[k]@);
                            if m.records[k].id == id && m.records[k].carton_id == carton_id {
                                lemma_ascending_unique(m.records, k, i as int);
                            }
                        }
                    }
                    assert(record_views(recs@) =~= m.records.map_values(f));
                }
            } else {
                proof {
                    assert forall|k: int| 0 <= k < n implies #[trigger] record_views(recs@)[k] == f(m.records[k]) by {
                        assert(m.records[k] == recs@[k]@);
                    }
                    assert(record_views(recs@) =~= m.records.map_values(f));
                }
            }
            let ghost m1 = DbModel { records: m.records.map_values(f), ..m };
            if e.photos.len() == 0 {
                return Ok(());
            }
            // the record's images are replaced
            let mut kept: Vec<PhotoEntry> = Vec::new();
            let mut olds: Vec<String> = Vec::new();
            let np = phs.len();
            let mut k: usize = 0;
            while k < np
                invariant
                    k <= np == phs@.len(),
                    m1.photos == photo_views(phs@),
                    photo_views(kept@) == m1.photos.take(k as int).filter(photo_not_of(id)),
                    string_views(olds@) == photo_paths(m1.photos.take(k as int).filter(photo_of(id))),
                decreases np - k,
            {
                proof {
                    lemma_filter_take_step(m1.photos, k as int, photo_not_of(id));
                    lemma_filter_take_step(m1.photos, k as int, photo_of(id));
                }
                let p = &phs[k];
                assert(m1.photos[k as int] == p@);
                if p.record_id != id {
                    let ghost prev = kept@;
                    kept.push(p.duplicate());
                    assert(photo_views(kept@) =~= photo_views(prev).push(p@));
                } else {
                    let ghost prev = olds@;
                    let ghost g = m1.photos.take(k as int).filter(photo_of(id));
                    olds.push(p.file_path.clone());
                    assert(string_views(olds@) =~= string_views(prev).push(p.file_path@));
                    assert(photo_paths(g.push(p@)) =~= photo_paths(g).push(p@.file_path));
                }
                k = k + 1;
            }
            assert(m1.photos.take(np as int) =~= m1.photos);
            proof {
                lemma_filter_rows(m1.photos, photo_not_of(id));
            }
            let nk = kept.len();
            let first: i128 = if nk == 0 {
                1
            } else {
                (kept[nk - 1].id as i128) + 1
            };
            let ghost kept_v = m1.photos.filter(photo_not_of(id));
            assert(first == crate::schema::next_id(kept_v));
            let mut files = match plan_photos_in(dir, sep, id, &e.photos, u, first) {
                Err(x) => {
                    return Err(x);
                },
                Ok(files) => files,
            };
            proof {
                lemma_plan_photos_ok(dir@, sep, id, ev.photos, string_views(u@), first as int);
            }
            let ghost rows = photo_rows(file_views(files@), id, first as int);
            let mut j: usize = 0;
            while j < files.len()
                invariant
                    j <= files@.len() == rows.len(),
                    files@.len() > 0 ==> first + files@.len() - 1 <= i64::MAX,
                    first >= i64::MIN,
                    rows == photo_rows(file_views(files@), id, first as int),
                    photo_views(kept@) == kept_v + rows.take(j as int),
                decreases files@.len() - j,
            {
                let ghost prev = kept@;
                kept.push(
                    PhotoEntry {
                        id: (first + (j as i128)) as i64,
                        record_id: id,
                        photo_order: (j + 1) as i64,
                        file_path: files[j].path.clone(),
                    },
                );
                assert(rows[j as int] == kept@[kept@.len() - 1]@);
                assert(photo_views(kept@) =~= photo_views(prev).push(rows[j as int]));
                assert(rows.take(j + 1) =~= rows.take(j as int).push(rows[j as int]));
                j = j + 1;
            }
            assert(rows.take(files@.len() as int) =~= rows);
            let ghost fv = file_views(files@);
            let ghost tw0 = tw@;
            let ghost tr0 = tr@;
            *phs = kept;
            tw.append(&mut files);
            tr.append(&mut olds);
            assert(file_views(tw@) =~= file_views(tw0) + fv);
            assert(string_views(tr@) =~= string_views(tr0) + photo_paths(m1.photos.filter(photo_of(id))));
            Ok(())
        },
        None => {
            let nr = recs.len();
            let id: i64 = if nr == 0 {
                1
            } else {
                let last = recs[nr - 1].id;
                if last == i64::MAX {
                    return Err(QaError::StorageFull);
                }
                last + 1
            };
            let np = phs.len();
            let first: i128 = if np == 0 {
                1
            } else {
                (phs[np - 1].id as i128) + 1
            };
            assert(first == crate::schema::next_id(m.photos));
            let mut files = match plan_photos_in(dir, sep, id, &e.photos, u, first) {
                Err(x) => {
                    return Err(x);
                },
                Ok(files) => files,
            };
            proof {
                lemma_plan_photos_ok(dir@, sep, id, ev.photos, string_views(u@), first as int);
            }
            let ghost r0 = recs@;
            recs.push(
                InspectionRow {
                    id,
                    batch_id,
                    carton_id,
                    barcode: trim(e.barcode.as_str()),
                    grade: e.grade.clone(),
                    quantity: e.quantity,
                    exception_reason: trim(e.exception_reason.as_str()),
                },
            );
            assert(record_views(recs@) =~= record_views(r0).push(recs@[nr as int]@));
            let ghost rows = photo_rows(file_views(files@), id, first as int);
            let ghost p0 = phs@;
            let mut j: usize = 0;
            while j < files.len()
                invariant
                    j <= files@.len() == rows.len(),
                    files@.len() > 0 ==> first + files@.len() - 1 <= i64::MAX,
                    first >= i64::MIN,
                    rows == photo_rows(file_views(files@), id, first as int),
                    photo_views(phs@) == photo_views(p0) + rows.take(j as int),
                decreases files@.len() - j,
            {
                let ghost prev = phs@;
                phs.push(
                    PhotoEntry {
                        id: (first + (j as i128)) as i64,
                        record_id: id,
                        photo_order: (j + 1) as i64,
                        file_path: files[j].path.clone(),
                    },
                );
                assert(rows[j as int] == phs@[phs@.len() - 1]@);
                assert(photo_views(phs@) =~= photo_views(prev).push(rows[j as int]));
                assert(rows.take(j + 1) =~= rows.take(j as int).push(rows[j as int]));
                j = j + 1;
            }
            assert(rows.take(files@.len() as int) =~= rows);
            let ghost fv = file_views(files@);
            let ghost tw0 = tw@;
            tw.append(&mut files);
            assert(file_views(tw@) =~= file_views(tw0) + fv);
            Ok(())
        },
    }
}

fn retained_exec(edits: &Vec<RecordEditInput>, id: i64) -> (r: bool)
    ensures
        r == retained(edit_views(edits@), id),
{
    let ghost ev = edit_views(edits@);
    let mut j: usize = 0;
    while j < edits.len()
        invariant
            j <= edits@.len(),
            ev == edit_views(edits@),
            forall|k: int| 0 <= k < j ==> #[trigger] ev[k].id != Some(id),
        decreases edits@.len() - j,
    {
        assert(ev[j as int] == edits@[j as int]@);
        match edits[j].id {
            Some(x) => {
                if x == id {
                    assert(ev[j as int].id == Some(id));
                    return true;
                }
            },
            None => {},
        }
        j = j + 1;
    }
    false
}

fn record_in_carton_vec(records: &Vec<InspectionRow>, carton_id: i64, id: i64) -> (r: bool)
    ensures
        r == record_in_carton(record_views(records@), carton_id, id),
{
    let mut i: usize = 0;
    while i < records.len()
        invariant
            i <= records@.len(),
            forall|k: int| 0 <= k < i ==> !(#[trigger] record_views(records@)[k].id == id && record_views(records@)[k].carton_id == carton_id),
        decreases records@.len() - i,
    {
        if records[i].id == id && records[i].carton_id == carton_id {
            assert(record_views(records@)[i as int].id == id);
            return true;
        }
        i = i + 1;
    }
    false
}

fn photo_dropped_exec(records: &Vec<InspectionRow>, edits: &Vec<RecordEditInput>, carton_id: i64, p: &PhotoEntry) -> (r: bool)
    ensures
        r == (photo_dropped(record_views(records@), edit_views(edits@), carton_id))(p@),
{
    let ghost rv = record_views(records@);
    let ghost ev = edit_views(edits@);
    let mut i: usize = 0;
    while i < records.len()
        invariant
            i <= records@.len(),
            rv == record_views(records@),
            ev == edit_views(edits@),
            forall|k: int| 0 <= k < i ==> !(#[trigger] rv[k].id == p@.record_id && rv[k].carton_id == carton_id && !retained(ev, rv[k].id)),
        decreases records@.len() - i,
    {
        if records[i].id == p.record_id && records[i].carton_id == carton_id && !retained_exec(edits, records[i].id) {
            assert(rv[i as int].id == p@.record_id);
            return true;
        }
        i = i + 1;
    }
    false
}

/// The records of an edit applied in order to the records and images of the
/// store; the first refusal stops it.
#[verifier::spinoff_prover]
fn apply_edits_exec(
    recs: &mut Vec<InspectionRow>,
    phs: &mut Vec<PhotoEntry>,
    tw: &mut Vec<PhotoFile>,
    tr: &mut Vec<String>,
    edits: &Vec<RecordEditInput>,
    uuids: &Vec<Vec<String>>,
    dir: &String,
    sep: char,
    batch_id: i64,
    carton_id: i64,
    Ghost(st0): Ghost<EditState>,
) -> (r: Result<(), QaError>)
    requires
        st0.db.records == record_views(old(recs)@),
        st0.db.photos == photo_views(old(phs)@),
        st0.to_write == file_views(old(tw)@),
        st0.to_remove == string_views(old(tr)@),
        st0.db.photo_dir == dir@,
        st0.db.sep == sep,
        st0.db.wf(),
        st0.db.has_carton_in(carton_id, batch_id),
        validate_edits(edit_views(edits@)) is Ok,
        forall|k: int| 0 <= k < edits@.len() ==> (#[trigger] edit_views(edits@)[k].id matches Some(x) ==> crate::schema::seq_has_record(st0.db.records, x)),
        uuids@.len() == edits@.len(),
        forall|k: int| 0 <= k < uuids@.len() ==> (#[trigger] uuids@[k])@.len() == edits@[k].photos@.len(),
    ensures
        match r {
            Ok(()) => apply_edits(st0, edit_views(edits@), nested_views(uuids@), batch_id, carton_id) == Ok::<EditState, ErrorModel>(
                EditState {
                    db: DbModel { records: record_views(final(recs)@), photos: photo_views(final(phs)@), ..st0.db },
                    to_write: file_views(final(tw)@),
                    to_remove: string_views(final(tr)@),
                },
            ),
            Err(x) => apply_edits(st0, edit_views(edits@), nested_views(uuids@), batch_id, carton_id) == Err::<EditState, ErrorModel>(x@),
        },
{
    let ghost ev = edit_views(edits@);
    let ghost us = nested_views(uuids@);
    let ne = edits.len();
    let mut i: usize = 0;
    assert(ev.take(0) =~= Seq::<RecordEditModel>::empty());
    while i < ne
        invariant
            i <= ne == edits@.len() == uuids@.len(),
            forall|k: int| 0 <= k < uuids@.len() ==> (#[trigger] uuids@[k])@.len() == edits@[k].photos@.len(),
            ev == edit_views(edits@),
            us == nested_views(uuids@),
            dir@ == st0.db.photo_dir,
            sep == st0.db.sep,
            st0.db.wf(),
            st0.db.has_carton_in(carton_id, batch_id),
            validate_edits(ev) is Ok,
            forall|k: int| 0 <= k < ev.len() ==> (#[trigger] ev[k].id matches Some(x) ==> crate::schema::seq_has_record(st0.db.records, x)),
            apply_edits(st0, ev.take(i as int), us, batch_id, carton_id) == Ok::<EditState, ErrorModel>(
                EditState {
                    db: DbModel { records: record_views(recs@), photos: photo_views(phs@), ..st0.db },
                    to_write: file_views(tw@),
                    to_remove: string_views(tr@),
                },
            ),
        decreases ne - i,
    {
        let ghost sti = EditState {
            db: DbModel { records: record_views(recs@), photos: photo_views(phs@), ..st0.db },
            to_write: file_views(tw@),
            to_remove: string_views(tr@),
        };
        proof {
            lemma_apply_edits_step(st0, ev, us, batch_id, carton_id, i as int);
            lemma_validate_edits_prefix(ev, i as int);
            assert forall|k: int| 0 <= k < ev.take(i as int).len() implies (#[trigger] ev.take(i as int)[k].id matches Some(x) ==> crate::schema::seq_has_record(st0.db.records, x)) by {
                assert(ev.take(i as int)[k] == ev[k]);
            }
            lemma_apply_edits_wf(st0, ev.take(i as int), us, batch_id, carton_id);
            assert(ev[i as int] == edits@[i as int]@);
            assert(us[i as int] == string_views(uuids@[i as int]@));
        }
        match apply_edit_exec(recs, phs, tw, tr, &edits[i], &uuids[i], dir, sep, batch_id, carton_id, Ghost(sti)) {
            Err(x) => {
                proof {
                    lemma_apply_edits_err(st0, ev, us, batch_id, carton_id, i + 1);
                }
                return Err(x);
            },
            Ok(()) => {},
        }
        i = i + 1;
    }
    assert(ev.take(ne as int) =~= ev);
    Ok(())
}

impl Database {
    /// Rewrites the records of a carton as one change, new images named with
    /// `uuids`; gives the image files to write and those to remove.
    pub fn replace_carton_records_named(&mut self, input: ReplaceCartonRecordsInput, uuids: &Vec<Vec<String>>) -> (r: Result<
        (Vec<PhotoFile>, Vec<String>),
        QaError,
    >)
        requires
            uuids@.len() == input.records@.len(),
            forall|i: int| 0 <= i < uuids@.len() ==> (#[trigger] uuids@[i])@.len() == input.records@[i].photos@.len(),
        ensures
            match r {
                Ok((w, rm)) => old(self)@.replace_carton_records(
                    input.batch_id,
                    input.carton_id,
                    edit_views(input.records@),
                    nested_views(uuids@),
                ) == Ok::<EditState, ErrorModel>(
                    EditState { db: final(self)@, to_write: file_views(w@), to_remove: string_views(rm@) },
                ),
                Err(e) => old(self)@.replace_carton_records(
                    input.batch_id,
                    input.carton_id,
                    edit_views(input.records@),
                    nested_views(uuids@),
                ) == Err::<EditState, ErrorModel>(e@) && final(self)@ == old(self)@,
            },
    {
        proof {
            use_type_invariant(&*self);
        }
        let ghost m = self@;
        let ghost ev = edit_views(input.records@);
        let ghost us = nested_views(uuids@);
        let batch_id = input.batch_id;
        let carton_id = input.carton_id;
        let edits = &input.records;
        let ne = edits.len();
        // every record is checked first
        let mut i: usize = 0;
        assert(ev.take(0) =~= Seq::<RecordEditModel>::empty());
        while i < ne
            invariant
                i <= ne == edits@.len(),
                ev == edit_views(edits@),
                ev == edit_views(input.records@),
                self@ == old(self)@,
                validate_edits(ev.take(i as int)) is Ok,
            decreases ne - i,
        {
            proof {
                lemma_validate_edits_step(ev, i as int);
            }
            let e = &edits[i];
            assert(ev[i as int] == e@);
            match validate_record(e.barcode.as_str(), e.grade.as_str(), e.quantity, e.photos.len()) {
                Err(x) => {
                    proof {
                        assert(ev[i as int].photos.len() == e.photos@.len());
                        assert(validate_edits(ev.take(i + 1)) == Err::<(), ErrorModel>(x@));
                        lemma_validate_edits_err(ev, i + 1);
                        assert(validate_edits(ev) == Err::<(), ErrorModel>(x@));
                    }
                    return Err(x);
                },
                Ok(()) => {},
            }
            i = i + 1;
        }
        assert(ev.take(ne as int) =~= ev);
        if !super::carton_in_batch_vec(&self.cartons, carton_id, batch_id) {
            return Err(QaError::CartonNotFound);
        }
        // every named record must be a record of the carton
        let mut j: usize = 0;
        while j < ne
            invariant
                j <= ne == edits@.len(),
                ev == edit_views(edits@),
                ev == edit_views(input.records@),
                m == self@,
                self@ == old(self)@,
                validate_edits(ev) is Ok,
                batch_id == input.batch_id,
                carton_id == input.carton_id,
                m.has_carton_in(carton_id, batch_id),
                forall|k: int| 0 <= k < j ==> (#[trigger] ev[k].id matches Some(x) ==> record_in_carton(m.records, carton_id, x)),
            decreases ne - j,
        {
            assert(ev[j as int] == edits@[j as int]@);
            match edits[j].id {
                Some(x) => {
                    if !record_in_carton_vec(&self.records, carton_id, x) {
                        assert(ev[j as int].id == Some(x));
                        assert(!edit_ids_known(m.records, carton_id, ev));
                        return Err(QaError::InvalidRecord);
                    }
                },
                None => {},
            }
            j = j + 1;
        }
        assert(edit_ids_known(m.records, carton_id, ev));
        proof {
            lemma_drop_unnamed_wf(m, ev, carton_id);
            lemma_replace_wf(m, batch_id, carton_id, ev, us);
        }
        let (batches, cartons, products, records, photos, photo_dir, sep) = self.take_parts();
        // records the edit does not name go, with their images
        let ghost keep_r = record_stays(ev, carton_id);
        let mut recs: Vec<InspectionRow> = Vec::new();
        let mut i: usize = 0;
        while i < records.len()
            invariant
                i <= records@.len(),
                m.records == record_views(records@),
                ev == edit_views(edits@),
                keep_r == record_stays(ev, carton_id),
                record_views(recs@) == m.records.take(i as int).filter(keep_r),
            decreases records@.len() - i,
        {
            proof {
                lemma_filter_take_step(m.records, i as int, keep_r);
            }
            let rr = &records[i];
            assert(m.records[i as int] == rr@);
            let stays = !(rr.carton_id == carton_id && !retained_exec(edits, rr.id));
            if stays {
                let ghost prev = recs@;
                recs.push(rr.duplicate());
                assert(record_views(recs@) =~= record_views(prev).push(rr@));
            }
            i = i + 1;
        }
        assert(m.records.take(records@.len() as int) =~= m.records);
        let ghost keep_p = photo_kept(m.records, ev, carton_id);
        let ghost drop_p = photo_dropped(m.records, ev, carton_id);
        let mut phs: Vec<PhotoEntry> = Vec::new();
        let mut tr: Vec<String> = Vec::new();
        let mut i: usize = 0;
        while i < photos.len()
            invariant
                i <= photos@.len(),
                m.photos == photo_views(photos@),
                m.records == record_views(records@),
                ev == edit_views(edits@),
                keep_p == photo_kept(m.records, ev, carton_id),
                drop_p == photo_dropped(m.records, ev, carton_id),
                photo_views(phs@) == m.photos.take(i as int).filter(keep_p),
                string_views(tr@) == photo_paths(m.photos.take(i as int).filter(drop_p)),
            decreases photos@.len() - i,
        {
            proof {
                lemma_filter_take_step(m.photos, i as int, keep_p);
                lemma_filter_take_step(m.photos, i as int, drop_p);
            }
            let p = &photos[i];
            assert(m.photos[i as int] == p@);
            if photo_dropped_exec(&records, edits, carton_id, p) {
                let ghost prev = tr@;
                let ghost g = m.photos.take(i as int).filter(drop_p);
                tr.push(p.file_path.clone());
                assert(string_views(tr@) =~= string_views(prev).push(p.file_path@));
                assert(photo_paths(g.push(p@)) =~= photo_paths(g).push(p@.file_path));
            } else {
                let ghost prev = phs@;
                phs.push(p.duplicate());
                assert(photo_views(phs@) =~= photo_views(prev).push(p@));
            }
            i = i + 1;
        }
        assert(m.photos.take(photos@.len() as int) =~= m.photos);
        let ghost st0 = m.drop_unnamed(ev, carton_id);
        let mut tw: Vec<PhotoFile> = Vec::new();
        assert(file_views(tw@) =~= seq![]);
        assert(st0.db == (DbModel { records: record_views(recs@), photos: photo_views(phs@), ..m }));
        // the named and new records, in order
        match apply_edits_exec(&mut recs, &mut phs, &mut tw, &mut tr, edits, uuids, &photo_dir, sep, batch_id, carton_id, Ghost(st0)) {
            Err(x) => {
                self.put_parts(batches, cartons, products, records, photos, photo_dir, sep);
                return Err(x);
            },
            Ok(()) => {},
        }
        self.put_parts(batches, cartons, products, recs, phs, photo_dir, sep);
        Ok((tw, tr))
    }
}

impl Database {
    /// Rewrites the records of a carton as one change; gives the image files
    /// to write, each named with a fresh random identifier, and those to
    /// remove.
    pub fn replace_carton_records(&mut self, input: ReplaceCartonRecordsInput) -> (r: Result<
        (Vec<PhotoFile>, Vec<String>),
        QaError,
    >)
        ensures
            exists|u: Seq<Seq<Seq<char>>>| #![trigger old(self)@.replace_carton_records(input.batch_id, input.carton_id, edit_views(input.records@), u)] {
                &&& u.len() == input.records@.len()
                &&& forall|i: int| 0 <= i < u.len() ==> (#[trigger] u[i]).len() == input.records@[i].photos@.len()
                &&& forall|i: int, j: int| 0 <= i < u.len() && 0 <= j < u[i].len() ==> uuid_v4_text(#[trigger] u[i][j])
                &&& match r {
                    Ok((w, rm)) => old(self)@.replace_carton_records(
                        input.batch_id,
                        input.carton_id,
                        edit_views(input.records@),
                        u,
                    ) == Ok::<EditState, ErrorModel>(
                        EditState { db: final(self)@, to_write: file_views(w@), to_remove: string_views(rm@) },
                    ),
                    Err(e) => old(self)@.replace_carton_records(
                        input.batch_id,
                        input.carton_id,
                        edit_views(input.records@),
                        u,
                    ) == Err::<EditState, ErrorModel>(e@) && final(self)@ == old(self)@,
                }
            },
    {
        let mut uuids: Vec<Vec<String>> = Vec::new();
        let n = input.records.len();
        let mut i: usize = 0;
        while i < n
            invariant
                i <= n == input.records@.len(),
                uuids@.len() == i,
                forall|k: int| 0 <= k < i ==> (#[trigger] uuids@[k])@.len() == input.records@[k].photos@.len(),
                forall|k: int, l: int| 0 <= k < i && 0 <= l < uuids@[k]@.len() ==> uuid_v4_text(#[trigger] uuids@[k]@[l]@),
            decreases n - i,
        {
            let m = input.records[i].photos.len();
            let mut names: Vec<String> = Vec::new();
            let mut j: usize = 0;
            while j < m
                invariant
                    j <= m,
                    names@.len() == j,
                    forall|l: int| 0 <= l < j ==> uuid_v4_text(#[trigger] names@[l]@),
                decreases m - j,
            {
                names.push(new_uuid());
                j = j + 1;
            }
            uuids.push(names);
            i = i + 1;
        }
        let ghost u = nested_views(uuids@);
        assert forall|k: int| 0 <= k < u.len() implies (#[trigger] u[k]).len() == input.records@[k].photos@.len() by {
            assert(u[k] == string_views(uuids@[k]@));
        }
        assert forall|k: int, l: int| 0 <= k < u.len() && 0 <= l < u[k].len() implies uuid_v4_text(#[trigger] u[k][l]) by {
            assert(u[k] == string_views(uuids@[k]@));
            assert(u[k][l] == uuids@[k]@[l]@);
        }
        self.replace_carton_records_named(input, &uuids)
    }
}

} // verus!
