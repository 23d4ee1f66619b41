//! Checks of what an inspection record and its images may hold.

use vstd::prelude::*;
use crate::error::{ErrorModel, QaError};
use crate::text::{chars_of, is_blank, trim_spec};

verus! {

/// The four grades: `A` good, `B` can gain value, `C` repairable, `D` not
/// repairable.
pub open spec fn valid_grade(g: Seq<char>) -> bool {
    g == seq!['A'] || g == seq!['B'] || g == seq!['C'] || g == seq!['D']
}

pub fn is_valid_grade(g: &str) -> (r: bool)
    ensures
        r == valid_grade(g@),
{
    let v = chars_of(g);
    if v.len() != 1 {
        proof {
            assert(seq!['A'].len() == 1);
            assert(seq!['B'].len() == 1);
            assert(seq!['C'].len() == 1);
            assert(seq!['D'].len() == 1);
        }
        return false;
    }
    let c = v[0];
    let r = c == 'A' || c == 'B' || c == 'C' || c == 'D';
    proof {
        if r {
            assert(v@ =~= seq![c]);
        } else {
            assert(v@ != seq!['A'] && v@ != seq!['B'] && v@ != seq!['C'] && v@ != seq!['D']) by {
                if v@ == seq!['A'] { assert(v@[0] == 'A'); }
                if v@ == seq!['B'] { assert(v@[0] == 'B'); }
                if v@ == seq!['C'] { assert(v@[0] == 'C'); }
                if v@ == seq!['D'] { assert(v@[0] == 'D'); }
            }
        }
    }
    r
}

/// Whether `g` is the one-letter grade `c`.
pub fn grade_is(g: &str, c: char) -> (r: bool)
    ensures
        r == (g@ == seq![c]),
{
    let v = chars_of(g);
    let r = v.len() == 1 && v[0] == c;
    proof {
        if r {
            assert(v@ =~= seq![c]);
        } else if v@ == seq![c] {
            assert(v@[0] == c);
        }
    }
    r
}

/// The outcome of checking one record, in the order the checks are made.
pub open spec fn validate_record_spec(
    barcode: Seq<char>,
    grade: Seq<char>,
    quantity: i64,
    photo_count: nat,
) -> Result<(), ErrorModel> {
    if trim_spec(barcode).len() == 0 {
        Err(ErrorModel::BarcodeRequired)
    } else if !valid_grade(grade) {
        Err(ErrorModel::InvalidGrade)
    } else if quantity < 1 {
        Err(ErrorModel::QuantityNotPositive)
    } else if photo_count > 3 {
        Err(ErrorModel::TooManyPhotos)
    } else {
        Ok(())
    }
}

/// Checks a record: a barcode that is not blank, a grade among A, B, C and D,
/// a quantity of at least 1, and at most three images.
pub fn validate_record(barcode: &str, grade: &str, quantity: i64, photo_count: usize) -> (r: Result<
    (),
    QaError,
>)
    ensures
        match r {
            Ok(()) => validate_record_spec(barcode@, grade@, quantity, photo_count as nat) is Ok,
            Err(e) => validate_record_spec(barcode@, grade@, quantity, photo_count as nat) == Err::<
                (),
                ErrorModel,
            >(e@),
        },
{
    if is_blank(barcode) {
        return Err(QaError::BarcodeRequired);
    }
    if !is_valid_grade(grade) {
        return Err(QaError::InvalidGrade);
    }
    if quantity < 1 {
        return Err(QaError::QuantityNotPositive);
    }
    if photo_count > 3 {
        return Err(QaError::TooManyPhotos);
    }
    Ok(())
}

} // verus!
