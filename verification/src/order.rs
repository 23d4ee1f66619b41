//! The orders rows are listed in: text by character code (as SQLite's
//! binary collation orders UTF-8 text), and the integer that SQLite's
//! `CAST(text AS INTEGER)` reads from a text.

use vstd::prelude::*;
use crate::text::{chars_of, digit_value, digits_value, is_digit};

verus! {

/// `a` comes before or equals `b` in lexicographic order of character codes.
pub open spec fn text_le(a: Seq<char>, b: Seq<char>) -> bool
    decreases a.len(),
{
    if a.len() == 0 {
        true
    } else if b.len() == 0 {
        false
    } else if a[0] != b[0] {
        a[0] < b[0]
    } else {
        text_le(a.drop_first(), b.drop_first())
    }
}

pub proof fn lemma_text_le_total(a: Seq<char>, b: Seq<char>)
    ensures
        text_le(a, b) || text_le(b, a),
    decreases a.len(),
{
    if a.len() > 0 && b.len() > 0 && a[0] == b[0] {
        lemma_text_le_total(a.drop_first(), b.drop_first());
    }
}

pub proof fn lemma_text_le_trans(a: Seq<char>, b: Seq<char>, c: Seq<char>)
    requires
        text_le(a, b),
        text_le(b, c),
    ensures
        text_le(a, c),
    decreases a.len(),
{
    if a.len() > 0 && b.len() > 0 && c.len() > 0 && a[0] == b[0] && b[0] == c[0] {
        lemma_text_le_trans(a.drop_first(), b.drop_first(), c.drop_first());
    }
}

pub proof fn lemma_text_le_antisym(a: Seq<char>, b: Seq<char>)
    requires
        text_le(a, b),
        text_le(b, a),
    ensures
        a == b,
    decreases a.len(),
{
    if a.len() > 0 && b.len() > 0 {
        lemma_text_le_antisym(a.drop_first(), b.drop_first());
        assert(a =~= seq![a[0]] + a.drop_first());
        assert(b =~= seq![b[0]] + b.drop_first());
    } else {
        assert(a =~= b);
    }
}

pub proof fn lemma_text_le_refl(a: Seq<char>)
    ensures
        text_le(a, a),
    decreases a.len(),
{
    if a.len() > 0 {
        lemma_text_le_refl(a.drop_first());
    }
}

/// Lexicographic comparison of two texts by character code.
pub fn text_le_exec(a: &str, b: &str) -> (r: bool)
    ensures
        r == text_le(a@, b@),
{
    let x = chars_of(a);
    let y = chars_of(b);
    let mut i: usize = 0;
    assert(x@.skip(0) =~= x@);
    assert(y@.skip(0) =~= y@);
    loop
        invariant
            i <= x@.len(),
            i <= y@.len(),
            x@ == a@,
            y@ == b@,
            text_le(a@, b@) == text_le(x@.skip(i as int), y@.skip(i as int)),
        decreases x@.len() - i,
    {
        if i == x.len() {
            return true;
        }
        if i == y.len() {
            return false;
        }
        if x[i] != y[i] {
            return x[i] < y[i];
        }
        assert(x@.skip(i as int).drop_first() =~= x@.skip(i + 1));
        assert(y@.skip(i as int).drop_first() =~= y@.skip(i + 1));
        i = i + 1;
    }
}

/// The characters SQLite skips before a number.
pub open spec fn sql_space(c: char) -> bool {
    c == ' ' || c == '\t' || c == '\n' || c == '\x0b' || c == '\x0c' || c == '\r'
}

/// The length of the run of digits at the start of `s`.
pub open spec fn digit_run(s: Seq<char>) -> nat
    decreases s.len(),
{
    if s.len() > 0 && is_digit(s[0]) {
        1 + digit_run(s.drop_first())
    } else {
        0
    }
}

/// The number of leading SQLite spaces of `s`.
pub open spec fn space_run(s: Seq<char>) -> nat
    decreases s.len(),
{
    if s.len() > 0 && sql_space(s[0]) {
        1 + space_run(s.drop_first())
    } else {
        0
    }
}

pub open spec fn clamp_i64(v: int) -> i64 {
    if v > i64::MAX {
        i64::MAX
    } else if v < i64::MIN {
        i64::MIN
    } else {
        v as i64
    }
}

/// `CAST(s AS INTEGER)` in SQLite: leading spaces skipped, an optional sign,
/// the longest run of digits after it, 0 where there is none, the value
/// clamped to the range of a 64-bit integer.
pub open spec fn sql_cast_int(s: Seq<char>) -> i64 {
    let t = s.skip(space_run(s) as int);
    let signed = t.len() > 0 && (t[0] == '+' || t[0] == '-');
    let u = if signed { t.drop_first() } else { t };
    let d = u.take(digit_run(u) as int);
    let v = if signed && t[0] == '-' { -digits_value(d) } else { digits_value(d) };
    clamp_i64(v)
}

proof fn lemma_digit_run_bound(s: Seq<char>)
    ensures
        digit_run(s) <= s.len(),
        forall|i: int| 0 <= i < digit_run(s) ==> is_digit(#[trigger] s[i]),
        digit_run(s) < s.len() ==> !is_digit(s[digit_run(s) as int]),
    decreases s.len(),
{
    if s.len() > 0 && is_digit(s[0]) {
        lemma_digit_run_bound(s.drop_first());
        assert forall|i: int| 0 <= i < digit_run(s) implies is_digit(#[trigger] s[i]) by {
            if i > 0 {
                assert(s[i] == s.drop_first()[i - 1]);
            }
        }
    }
}

proof fn lemma_space_run_bound(s: Seq<char>)
    ensures
        space_run(s) <= s.len(),
        forall|i: int| 0 <= i < space_run(s) ==> sql_space(#[trigger] s[i]),
        space_run(s) < s.len() ==> !sql_space(s[space_run(s) as int]),
    decreases s.len(),
{
    if s.len() > 0 && sql_space(s[0]) {
        lemma_space_run_bound(s.drop_first());
        assert forall|i: int| 0 <= i < space_run(s) implies sql_space(#[trigger] s[i]) by {
            if i > 0 {
                assert(s[i] == s.drop_first()[i - 1]);
            }
        }
    }
}

proof fn lemma_run_is(s: Seq<char>, k: int, digits: bool)
    requires
        0 <= k <= s.len(),
        forall|i: int| 0 <= i < k ==> (if digits { is_digit(#[trigger] s[i]) } else { sql_space(s[i]) }),
        k < s.len() ==> !(if digits { is_digit(s[k]) } else { sql_space(s[k]) }),
    ensures
        digits ==> digit_run(s) == k,
        !digits ==> space_run(s) == k,
    decreases k,
{
    if k > 0 {
        assert forall|i: int| 0 <= i < k - 1 implies (if digits { is_digit(#[trigger] s.drop_first()[i]) } else { sql_space(s.drop_first()[i]) }) by {
            assert(s.drop_first()[i] == s[i + 1]);
        }
        if k - 1 < s.len() - 1 {
            assert(s.drop_first()[k - 1] == s[k]);
        }
        lemma_run_is(s.drop_first(), k - 1, digits);
    } else {
        if digits {
            if s.len() > 0 {
                assert(!is_digit(s[0]));
            }
        } else {
            if s.len() > 0 {
                assert(!sql_space(s[0]));
            }
        }
    }
}

proof fn lemma_digits_value_ge(s: Seq<char>, k: int)
    requires
        0 <= k <= s.len(),
        forall|i: int| 0 <= i < s.len() ==> is_digit(#[trigger] s[i]),
    ensures
        digits_value(s.take(k)) <= digits_value(s),
        0 <= digits_value(s.take(k)),
    decreases s.len() - k,
{
    if k < s.len() {
        lemma_digits_value_ge(s, k + 1);
        assert(s.take(k + 1).drop_last() =~= s.take(k));
    } else {
        assert(s.take(k) =~= s);
        lemma_digits_value_nonneg(s);
    }
}

proof fn lemma_digits_value_nonneg(s: Seq<char>)
    requires
        forall|i: int| 0 <= i < s.len() ==> is_digit(#[trigger] s[i]),
    ensures
        0 <= digits_value(s),
    decreases s.len(),
{
    if s.len() > 0 {
        assert forall|i: int| 0 <= i < s.drop_last().len() implies is_digit(#[trigger] s.drop_last()[i]) by {
            assert(s.drop_last()[i] == s[i]);
        }
        lemma_digits_value_nonneg(s.drop_last());
    }
}

fn is_sql_space(c: char) -> (r: bool)
    ensures
        r == sql_space(c),
{
    c == ' ' || c == '\t' || c == '\n' || c == '\x0b' || c == '\x0c' || c == '\r'
}

/// `CAST(s AS INTEGER)` as SQLite computes it.
pub fn sql_cast_int_exec(s: &str) -> (r: i64)
    ensures
        r == sql_cast_int(s@),
{
    let v = chars_of(s);
    let n = v.len();
    let mut i: usize = 0;
    while i < n && is_sql_space(v[i])
        invariant
            i <= n == v@.len(),
            forall|k: int| 0 <= k < i ==> sql_space(#[trigger] v@[k]),
        decreases n - i,
    {
        i = i + 1;
    }
    proof {
        lemma_run_is(v@, i as int, false);
    }
    let ghost t = v@.skip(i as int);
    let signed = i < n && (v[i] == '+' || v[i] == '-');
    let neg = signed && v[i] == '-';
    let start: usize = if signed { i + 1 } else { i };
    let ghost u = if signed { t.drop_first() } else { t };
    assert(u =~= v@.skip(start as int));
    let mut j: usize = start;
    let limit: u64 = if neg { 9223372036854775808u64 } else { 9223372036854775807u64 };
    let mut acc: u64 = 0;
    let mut over = false;
    assert(u.take(0) =~= Seq::<char>::empty());
    while j < n && '0' <= v[j] && v[j] <= '9'
        invariant
            start <= j <= n == v@.len(),
            u == v@.skip(start as int),
            forall|k: int| 0 <= k < j - start ==> is_digit(#[trigger] u[k]),
            !over ==> acc as int == digits_value(u.take(j - start)) && acc <= limit,
            over ==> digits_value(u.take(j - start)) > limit,
            limit >= 9,
        decreases n - j,
    {
        let c = v[j];
        let d = ((c as u32) - 48) as u64;
        assert(d <= 9);
        let ghost pre = u.take(j - start);
        assert(u.take(j - start + 1) =~= pre.push(c));
        assert(u.take(j - start + 1).drop_last() =~= pre);
        assert(u[j - start] == c);
        if !over {
            if acc > (limit - d) / 10 {
                over = true;
                assert(acc * 10 + d > limit) by (nonlinear_arith)
                    requires acc > (limit - d) / 10, d <= 9, limit >= 9;
            } else {
                assert(acc * 10 + d <= limit) by (nonlinear_arith)
                    requires acc <= (limit - d) / 10, d <= 9, limit >= 9;
                acc = acc * 10 + d;
            }
        } else {
            proof {
                assert forall|k: int| 0 <= k < pre.len() implies is_digit(#[trigger] pre[k]) by {
                    assert(pre[k] == u[k]);
                }
                lemma_digits_value_nonneg(pre);
            }
        }
        j = j + 1;
    }
    proof {
        if j < n {
            assert(u[j - start] == v@[j as int]);
        }
        lemma_run_is(u, j - start, true);
        assert(u.take(digit_run(u) as int) == u.take(j - start));
    }
    if over {
        if neg { i64::MIN } else { i64::MAX }
    } else if neg {
        if acc == 9223372036854775808u64 {
            i64::MIN
        } else {
            -(acc as i64)
        }
    } else {
        acc as i64
    }
}

} // verus!
