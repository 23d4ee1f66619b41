//! Images of inspection records: which file names are accepted, where each
//! image is stored, and the decoding of the bytes handed in.

use vstd::prelude::*;
use base64::Engine;
use crate::error::{ErrorModel, QaError};
use crate::text::{chars_of, format_i64, format_u64, int_decimal, nat_digits, push_char, push_str};

verus! {

/// Whether `c` separates the segments of a path on a platform whose main
/// separator is `sep`: `/` always, and `sep` (`\` on Windows).
pub open spec fn is_separator(c: char, sep: char) -> bool {
    c == '/' || c == sep
}

/// What remains of a file name when the path's last segment `seg` has been
/// read from the end of the path and `s` is still before it (separators as
/// `is_separator` says, empty and `.` segments are skipped, `..` has no file
/// name).
pub open spec fn file_name_from(s: Seq<char>, seg: Seq<char>, sep: char) -> Option<Seq<char>>
    decreases s.len(),
{
    if s.len() == 0 {
        if seg.len() == 0 || seg == seq!['.'] || seg == seq!['.', '.'] {
            None
        } else {
            Some(seg)
        }
    } else if is_separator(s.last(), sep) {
        if seg.len() == 0 || seg == seq!['.'] {
            file_name_from(s.drop_last(), seq![], sep)
        } else if seg == seq!['.', '.'] {
            None
        } else {
            Some(seg)
        }
    } else {
        file_name_from(s.drop_last(), seq![s.last()] + seg, sep)
    }
}

/// `Path::file_name` of the path `s`, `sep` being the platform's main
/// separator.
pub open spec fn file_name_spec(s: Seq<char>, sep: char) -> Option<Seq<char>> {
    file_name_from(s, seq![], sep)
}

/// The index of the last `.` of `f`, or -1.
pub open spec fn last_dot(f: Seq<char>) -> int
    decreases f.len(),
{
    if f.len() == 0 {
        -1
    } else if f.last() == '.' {
        f.len() - 1
    } else {
        last_dot(f.drop_last())
    }
}

/// `Path::extension` of a file name: what follows its last `.`, unless the
/// name has no `.` or its only `.` comes first.
pub open spec fn extension_of(f: Seq<char>) -> Option<Seq<char>> {
    let k = last_dot(f);
    if k <= 0 {
        None
    } else {
        Some(f.skip(k + 1))
    }
}

pub open spec fn ascii_lower(c: char) -> char {
    if 'A' <= c && c <= 'Z' {
        ((c as u32) + 32) as char
    } else {
        c
    }
}

pub open spec fn ascii_lower_seq(s: Seq<char>) -> Seq<char> {
    s.map_values(|c: char| ascii_lower(c))
}

/// The extension under which an image named `name` is stored: the file
/// name's extension in ASCII lower case, `jpg` where it has none.
pub open spec fn photo_extension(name: Seq<char>, sep: char) -> Seq<char> {
    let raw = match file_name_spec(name, sep) {
        Some(f) => match extension_of(f) {
            Some(e) => e,
            None => seq!['j', 'p', 'g'],
        },
        None => seq!['j', 'p', 'g'],
    };
    ascii_lower_seq(raw)
}

pub open spec fn allowed_extension(e: Seq<char>) -> bool {
    e == seq!['j', 'p', 'g'] || e == seq!['j', 'p', 'e', 'g'] || e == seq!['p', 'n', 'g']
}

/// `PathBuf::push` of a relative name onto `dir`, `sep` being the separator.
pub open spec fn join_path(dir: Seq<char>, name: Seq<char>, sep: char) -> Seq<char> {
    if dir.len() == 0 || is_separator(dir.last(), sep) {
        dir + name
    } else {
        dir + seq![sep] + name
    }
}

/// Where image number `order` of record `record_id` is stored:
/// `<dir>/<record_id>/<order>_<uuid>.<extension>`.
pub open spec fn photo_path(
    dir: Seq<char>,
    sep: char,
    record_id: i64,
    order: nat,
    uuid: Seq<char>,
    ext: Seq<char>,
) -> Seq<char> {
    join_path(
        join_path(dir, int_decimal(record_id as int), sep),
        nat_digits(order) + seq!['_'] + uuid + seq!['.'] + ext,
        sep,
    )
}

/// Base64 decoding with the standard alphabet and padding, its error as
/// text where the input is refused.
pub uninterp spec fn base64_decoded(input: Seq<char>) -> Result<Seq<u8>, Seq<char>>;

/// Calls `base64::engine::general_purpose::STANDARD.decode` on the bytes of
/// `input`; the error is turned into its `Display` text. Claimed: the result
/// is `base64_decoded` of the input, a function of the input alone.
#[verifier::external_body]
pub(crate) fn decode_base64(input: &str) -> (r: Result<Vec<u8>, String>)
    ensures
        match r {
            Ok(v) => base64_decoded(input@) == Ok::<Seq<u8>, Seq<char>>(v@),
            Err(m) => base64_decoded(input@) == Err::<Seq<u8>, Seq<char>>(m@),
        },
{
    match base64::engine::general_purpose::STANDARD.decode(input) {
        Ok(v) => Ok(v),
        Err(e) => Err(e.to_string()),
    }
}

pub open spec fn is_lower_hex(c: char) -> bool {
    ('0' <= c && c <= '9') || ('a' <= c && c <= 'f')
}

/// The text of a random identifier: 32 lower-case hexadecimal digits in
/// groups of 8, 4, 4, 4 and 12 joined by hyphens, the version digit `4`, and
/// the variant digit one of `8`, `9`, `a`, `b`.
pub open spec fn uuid_v4_text(s: Seq<char>) -> bool {
    &&& s.len() == 36
    &&& forall|i: int|
        0 <= i < 36 ==> if i == 8 || i == 13 || i == 18 || i == 23 {
            s[i] == '-'
        } else {
            is_lower_hex(#[trigger] s[i])
        }
    &&& s[14] == '4'
    &&& (s[19] == '8' || s[19] == '9' || s[19] == 'a' || s[19] == 'b')
}

/// Calls `uuid::Uuid::new_v4().to_string()`: a random identifier. Claimed:
/// only its shape, the hyphenated lower-case text of a version 4 identifier
/// of the RFC 4122 variant; which identifier comes out is left open.
#[verifier::external_body]
pub(crate) fn new_uuid() -> (r: String)
    ensures
        uuid_v4_text(r@),
{
    uuid::Uuid::new_v4().to_string()
}

/// An image file to be written: where, and its bytes.
pub struct PhotoFile {
    pub path: String,
    pub bytes: Vec<u8>,
}

fn file_name_bounds(v: &Vec<char>, sep: char) -> (r: Option<(usize, usize)>)
    ensures
        match r {
            Some((a, b)) => a <= b <= v@.len() && file_name_spec(v@, sep) == Some(v@.subrange(a as int, b as int)),
            None => file_name_spec(v@, sep).is_none(),
        },
{
    let mut j: usize = v.len();
    let mut e: usize = v.len();
    assert(v@.take(j as int) =~= v@);
    assert(v@.subrange(j as int, e as int) =~= seq![]);
    while j > 0
        invariant
            j <= e <= v@.len(),
            file_name_spec(v@, sep) == file_name_from(v@.take(j as int), v@.subrange(j as int, e as int), sep),
        decreases j,
    {
        let ghost s = v@.take(j as int);
        let ghost seg = v@.subrange(j as int, e as int);
        assert(s.last() == v@[j - 1]);
        let len = e - j;
        let is_dot = len == 1 && v[j] == '.';
        let is_dotdot = len == 2 && v[j] == '.' && v[j + 1] == '.';
        proof {
            if is_dot {
                assert(seg =~= seq!['.']);
            } else {
                assert(seg != seq!['.']) by {
                    if seg == seq!['.'] { assert(seg[0] == '.'); }
                }
            }
            if is_dotdot {
                assert(seg =~= seq!['.', '.']);
            } else {
                assert(seg != seq!['.', '.']) by {
                    if seg == seq!['.', '.'] { assert(seg[0] == '.' && seg[1] == '.'); }
                }
            }
        }
        if v[j - 1] == '/' || v[j - 1] == sep {
            if len == 0 || is_dot {
                assert(s.drop_last() =~= v@.take(j - 1));
                j = j - 1;
                e = j;
                assert(v@.subrange(j as int, e as int) =~= seq![]);
            } else if is_dotdot {
                return None;
            } else {
                return Some((j, e));
            }
        } else {
            assert(s.drop_last() =~= v@.take(j - 1));
            assert(seq![s.last()] + seg =~= v@.subrange(j - 1, e as int));
            j = j - 1;
        }
    }
    let ghost seg = v@.subrange(0, e as int);
    assert(v@.take(0) =~= seq![]);
    let len = e;
    let is_dot = len == 1 && v[0] == '.';
    let is_dotdot = len == 2 && v[0] == '.' && v[1] == '.';
    proof {
        if is_dot { assert(seg =~= seq!['.']); } else {
            assert(seg != seq!['.']) by { if seg == seq!['.'] { assert(seg[0] == '.'); } }
        }
        if is_dotdot { assert(seg =~= seq!['.', '.']); } else {
            assert(seg != seq!['.', '.']) by {
                if seg == seq!['.', '.'] { assert(seg[0] == '.' && seg[1] == '.'); }
            }
        }
    }
    if len == 0 || is_dot || is_dotdot {
        None
    } else {
        Some((0, e))
    }
}

fn last_dot_in(v: &Vec<char>, a: usize, b: usize) -> (k: Option<usize>)
    requires
        a <= b <= v@.len(),
    ensures
        match k {
            Some(k) => a <= k < b && last_dot(v@.subrange(a as int, b as int)) == k - a,
            None => last_dot(v@.subrange(a as int, b as int)) == -1,
        },
{
    let mut j = b;
    while j > a
        invariant
            a <= j <= b <= v@.len(),
            last_dot(v@.subrange(a as int, b as int)) == last_dot(v@.subrange(a as int, j as int)),
        decreases j,
    {
        let ghost f = v@.subrange(a as int, j as int);
        if v[j - 1] == '.' {
            return Some(j - 1);
        }
        assert(f.drop_last() =~= v@.subrange(a as int, j - 1));
        j = j - 1;
    }
    None
}

pub fn ascii_lowercase_char(c: char) -> (r: char)
    ensures
        r == ascii_lower(c),
{
    if 'A' <= c && c <= 'Z' {
        ((c as u32) + 32) as u8 as char
    } else {
        c
    }
}

/// The extension under which an image named `name` is stored.
pub fn extension_for(name: &str, sep: char) -> (r: String)
    ensures
        r@ == photo_extension(name@, sep),
{
    let v = chars_of(name);
    let ext: Option<(usize, usize)> = match file_name_bounds(&v, sep) {
        Some((a, b)) => match last_dot_in(&v, a, b) {
            Some(k) => if k > a {
                assert(v@.subrange(a as int, b as int).skip(k - a + 1) =~= v@.subrange(k + 1, b as int));
                Some((k + 1, b))
            } else {
                None
            },
            None => None,
        },
        None => None,
    };
    let ghost raw = match ext {
        Some((x, y)) => v@.subrange(x as int, y as int),
        None => seq!['j', 'p', 'g'],
    };
    assert(photo_extension(name@, sep) == ascii_lower_seq(raw));
    let mut r = String::new();
    match ext {
        Some((x, y)) => {
            let mut i = x;
            while i < y
                invariant
                    x <= i <= y <= v@.len(),
                    raw == v@.subrange(x as int, y as int),
                    r@ == ascii_lower_seq(v@.subrange(x as int, i as int)),
                decreases y - i,
            {
                push_char(&mut r, ascii_lowercase_char(v[i]));
                i = i + 1;
                assert(ascii_lower_seq(v@.subrange(x as int, i as int)) =~= ascii_lower_seq(
                    v@.subrange(x as int, i - 1),
                ).push(ascii_lower(v@[i - 1])));
            }
        },
        None => {
            push_char(&mut r, 'j');
            push_char(&mut r, 'p');
            push_char(&mut r, 'g');
        },
    }
    assert(r@ =~= ascii_lower_seq(raw));
    r
}

/// `Path::extension` of the path `s`, empty where it has none.
pub open spec fn raw_extension(s: Seq<char>, sep: char) -> Seq<char> {
    match file_name_spec(s, sep) {
        Some(f) => match extension_of(f) {
            Some(e) => e,
            None => seq![],
        },
        None => seq![],
    }
}

/// The extension of a path in ASCII lower case, empty where it has none.
pub fn lower_extension(path: &str, sep: char) -> (r: String)
    ensures
        r@ == ascii_lower_seq(raw_extension(path@, sep)),
{
    let v = chars_of(path);
    let ext: Option<(usize, usize)> = match file_name_bounds(&v, sep) {
        Some((a, b)) => match last_dot_in(&v, a, b) {
            Some(k) => if k > a {
                assert(v@.subrange(a as int, b as int).skip(k - a + 1) =~= v@.subrange(k + 1, b as int));
                Some((k + 1, b))
            } else {
                None
            },
            None => None,
        },
        None => None,
    };
    let ghost raw = match ext {
        Some((x, y)) => v@.subrange(x as int, y as int),
        None => seq![],
    };
    assert(raw_extension(path@, sep) == raw);
    let mut r = String::new();
    match ext {
        Some((x, y)) => {
            let mut i = x;
            while i < y
                invariant
                    x <= i <= y <= v@.len(),
                    raw == v@.subrange(x as int, y as int),
                    r@ == ascii_lower_seq(v@.subrange(x as int, i as int)),
                decreases y - i,
            {
                push_char(&mut r, ascii_lowercase_char(v[i]));
                i = i + 1;
                assert(ascii_lower_seq(v@.subrange(x as int, i as int)) =~= ascii_lower_seq(
                    v@.subrange(x as int, i - 1),
                ).push(ascii_lower(v@[i - 1])));
            }
        },
        None => {},
    }
    assert(r@ =~= ascii_lower_seq(raw));
    r
}

/// Whether images with extension `e` are accepted.
pub fn is_allowed_extension(e: &str) -> (r: bool)
    ensures
        r == allowed_extension(e@),
{
    let v = chars_of(e);
    let r = if v.len() == 3 {
        (v[0] == 'j' && v[1] == 'p' && v[2] == 'g') || (v[0] == 'p' && v[1] == 'n' && v[2] == 'g')
    } else if v.len() == 4 {
        v[0] == 'j' && v[1] == 'p' && v[2] == 'e' && v[3] == 'g'
    } else {
        false
    };
    proof {
        let jpg = seq!['j', 'p', 'g'];
        let jpeg = seq!['j', 'p', 'e', 'g'];
        let png = seq!['p', 'n', 'g'];
        if r {
            if v.len() == 3 && v[0] == 'j' {
                assert(v@ =~= jpg);
            } else if v.len() == 3 {
                assert(v@ =~= png);
            } else {
                assert(v@ =~= jpeg);
            }
        } else {
            assert(v@ != jpg) by { if v@ == jpg { assert(v@[0] == 'j' && v@[1] == 'p' && v@[2] == 'g'); } }
            assert(v@ != png) by { if v@ == png { assert(v@[0] == 'p' && v@[1] == 'n' && v@[2] == 'g'); } }
            assert(v@ != jpeg) by {
                if v@ == jpeg { assert(v@[0] == 'j' && v@[1] == 'p' && v@[2] == 'e' && v@[3] == 'g'); }
            }
        }
    }
    r
}

/// `PathBuf::push` of a relative name onto `dir`.
pub fn join_path_exec(dir: &str, name: &str, sep: char) -> (r: String)
    ensures
        r@ == join_path(dir@, name@, sep),
{
    let v = chars_of(dir);
    let mut r = String::from_str(dir);
    if v.len() > 0 && v[v.len() - 1] != '/' && v[v.len() - 1] != sep {
        push_char(&mut r, sep);
    }
    push_str(&mut r, name);
    r
}

/// The path of image number `order` of record `record_id`.
pub fn photo_path_exec(dir: &str, sep: char, record_id: i64, order: u64, uuid: &str, ext: &str) -> (r:
    String)
    ensures
        r@ == photo_path(dir@, sep, record_id, order as nat, uuid@, ext@),
{
    let id_text = format_i64(record_id);
    let record_dir = join_path_exec(dir, id_text.as_str(), sep);
    let mut file = format_u64(order);
    push_char(&mut file, '_');
    push_str(&mut file, uuid);
    push_char(&mut file, '.');
    push_str(&mut file, ext);
    assert(file@ =~= nat_digits(order as nat) + seq!['_'] + uuid@ + seq!['.'] + ext@);
    join_path_exec(record_dir.as_str(), file.as_str(), sep)
}

/// What an image turns into: refused for its extension or its bytes, or a
/// file at its path.
pub open spec fn photo_plan_spec(
    dir: Seq<char>,
    sep: char,
    record_id: i64,
    order: nat,
    uuid: Seq<char>,
    name: Seq<char>,
    decoded: Result<Seq<u8>, Seq<char>>,
) -> Result<(Seq<char>, Seq<u8>), ErrorModel> {
    let ext = photo_extension(name, sep);
    if !allowed_extension(ext) {
        Err(ErrorModel::UnsupportedImage)
    } else {
        match decoded {
            Err(m) => Err(ErrorModel::InvalidBase64(m)),
            Ok(bytes) => Ok((photo_path(dir, sep, record_id, order, uuid, ext), bytes)),
        }
    }
}

/// Plans the file of one image, given the outcome of decoding its bytes.
pub fn plan_photo(
    dir: &str,
    sep: char,
    record_id: i64,
    order: u64,
    uuid: &str,
    name: &str,
    decoded: Result<Vec<u8>, String>,
) -> (r: Result<PhotoFile, QaError>)
    ensures
        match r {
            Ok(f) => photo_plan_spec(
                dir@,
                sep,
                record_id,
                order as nat,
                uuid@,
                name@,
                match decoded {
                    Ok(b) => Ok::<Seq<u8>, Seq<char>>(b@),
                    Err(m) => Err(m@),
                },
            ) == Ok::<(Seq<char>, Seq<u8>), ErrorModel>((f.path@, f.bytes@)),
            Err(e) => photo_plan_spec(
                dir@,
                sep,
                record_id,
                order as nat,
                uuid@,
                name@,
                match decoded {
                    Ok(b) => Ok::<Seq<u8>, Seq<char>>(b@),
                    Err(m) => Err(m@),
                },
            ) == Err::<(Seq<char>, Seq<u8>), ErrorModel>(e@),
        },
{
    let ext = extension_for(name, sep);
    if !is_allowed_extension(ext.as_str()) {
        return Err(QaError::UnsupportedImage);
    }
    match decoded {
        Err(m) => Err(QaError::InvalidBase64(m)),
        Ok(bytes) => Ok(PhotoFile { path: photo_path_exec(dir, sep, record_id, order, uuid, ext.as_str()), bytes }),
    }
}

} // verus!
