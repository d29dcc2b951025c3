//! Finding a `YYYY-MM-DD` date in a file name.
use vstd::prelude::*;
use vstd::utf8::encode_utf8;
use crate::text::string_from_chars;

verus! {

/// An ASCII decimal digit.
pub open spec fn is_digit_byte(b: u8) -> bool {
    48 <= b <= 57
}

/// The bytes start with `DDDD-DD-DD` (D a decimal digit).
pub open spec fn date_shaped(b: Seq<u8>) -> bool {
    &&& b.len() >= 10
    &&& is_digit_byte(b[0]) && is_digit_byte(b[1]) && is_digit_byte(b[2]) && is_digit_byte(b[3])
    &&& b[4] == 45
    &&& is_digit_byte(b[5]) && is_digit_byte(b[6])
    &&& b[7] == 45
    &&& is_digit_byte(b[8]) && is_digit_byte(b[9])
}

/// The first position at or after `i` where a date starts in `b`.
pub open spec fn first_date_from(b: Seq<u8>, i: int) -> Option<int>
    decreases b.len() - i,
{
    if i < 0 || i + 10 > b.len() {
        None
    } else if date_shaped(b.skip(i)) {
        Some(i)
    } else {
        first_date_from(b, i + 1)
    }
}

/// The date a file name carries: the first `YYYY-MM-DD` in its UTF-8 bytes,
/// or `?` when there is none.
pub open spec fn file_name_date(name: Seq<char>) -> Seq<char> {
    let b = encode_utf8(name);
    match first_date_from(b, 0) {
        Some(i) => Seq::new(10, |k: int| b[i + k] as char),
        None => seq!['?'],
    }
}

/// The final component of a path, as `Path::file_name` gives it (`None` for a
/// path that ends in `..` or is a root or empty).
pub uninterp spec fn path_file_name(path: Seq<char>) -> Option<Seq<char>>;

/// Calls `Path::file_name` on `path`; the component is converted back to a
/// string, which cannot fail for a path made from a `&str`.
#[verifier::external_body]
fn file_name_of(path: &str) -> (res: Option<String>)
    ensures
        match res {
            Some(n) => path_file_name(path@) == Some(n@),
            None => path_file_name(path@).is_none(),
        },
{
    std::path::Path::new(path).file_name().and_then(|n| n.to_str()).map(|n| n.to_string())
}

/// Whether the bytes start with a `YYYY-MM-DD` date.
pub fn is_date_prefix(bytes: &[u8]) -> (res: bool)
    ensures
        res == date_shaped(bytes@),
{
    bytes.len() >= 10 && is_digit(bytes[0]) && is_digit(bytes[1]) && is_digit(bytes[2])
        && is_digit(bytes[3]) && bytes[4] == 45u8 && is_digit(bytes[5]) && is_digit(bytes[6])
        && bytes[7] == 45u8 && is_digit(bytes[8]) && is_digit(bytes[9])
}

fn is_digit(b: u8) -> (res: bool)
    ensures
        res == is_digit_byte(b),
{
    48u8 <= b && b <= 57u8
}

/// The date in a file name: the first `YYYY-MM-DD` in it, or `?`.
pub fn date_from_file_name(name: &str) -> (res: String)
    ensures
        res@ == file_name_date(name@),
{
    let bytes = name.as_bytes();
    let ghost b = encode_utf8(name@);
    assert(bytes@ == b);
    let n = bytes.len();
    let mut i: usize = 0;
    while n >= 10 && i <= n - 10
        invariant
            n == b.len(),
            bytes@ == b,
            b == encode_utf8(name@),
            i <= n,
            first_date_from(b, 0) == first_date_from(b, i as int),
        decreases n - i,
    {
        let found = is_date_prefix(&bytes[i..n]);
        proof {
            assert(bytes@.subrange(i as int, n as int) =~= b.skip(i as int));
        }
        if found {
            proof {
                assert(first_date_from(b, i as int) == Some(i as int));
            }
            let mut cs: Vec<char> = Vec::new();
            let mut k: usize = 0;
            while k < 10
                invariant
                    k <= 10,
                    i + 10 <= n,
                    n == b.len(),
                    bytes@ == b,
                    b == encode_utf8(name@),
                    first_date_from(b, 0) == Some(i as int),
                    cs@ == Seq::new(k as nat, |m: int| b[i + m] as char),
                decreases 10 - k,
            {
                cs.push(bytes[i + k] as char);
                k = k + 1;
                assert(cs@ =~= Seq::new(k as nat, |m: int| b[i + m] as char));
            }
            proof {
                assert(file_name_date(name@) =~= cs@);
            }
            return string_from_chars(cs.as_slice());
        }
        i = i + 1;
    }
    let q = vec!['?'];
    string_from_chars(q.as_slice())
}

/// The date of a file from its path: the first `YYYY-MM-DD` in its file name, or `?`.
pub fn date_from_path(path: &str) -> (res: String)
    ensures
        res@ == match path_file_name(path@) {
            Some(n) => file_name_date(n),
            None => seq!['?'],
        },
{
    match file_name_of(path) {
        Some(n) => date_from_file_name(n.as_str()),
        None => {
            let q = vec!['?'];
            string_from_chars(q.as_slice())
        },
    }
}

} // verus!
