//! The `fst` crate's sets of byte strings, as the library uses them: built
//! in memory from keys in order, opened from bytes, and read by key range.
use vstd::prelude::*;
use fst::IntoStreamer;
use crate::keys::bytes_lt;
use crate::order::{strictly_sorted, views, view_set};

verus! {

#[verifier::external_type_specification]
#[verifier::external_body]
#[verifier::reject_recursive_types(D)]
pub struct ExFstSet<D>(fst::Set<D>);

#[verifier::external_type_specification]
#[verifier::external_body]
#[verifier::reject_recursive_types(W)]
pub struct ExFstSetBuilder<W>(fst::SetBuilder<W>);

#[verifier::external_type_specification]
#[verifier::external_body]
pub struct ExFstError(fst::Error);

/// The keys a set holds.
pub uninterp spec fn fst_set_keys(s: fst::Set<Vec<u8>>) -> Set<Seq<u8>>;

/// Whether the bytes behind a set are a well-formed FST; reading a set whose
/// bytes are not may panic (`fst::Set::new` says so).
pub uninterp spec fn fst_set_well_formed(s: fst::Set<Vec<u8>>) -> bool;

/// The keys a builder has been given so far.
pub uninterp spec fn fst_builder_keys(b: fst::SetBuilder<Vec<u8>>) -> Set<Seq<u8>>;

/// What a byte string holds read as an FST set: its keys, or `None` when the
/// bytes are not a well-formed FST.
pub uninterp spec fn fst_bytes_keys(bytes: Seq<u8>) -> Option<Set<Seq<u8>>>;

/// Calls `fst::SetBuilder::memory`: a builder that writes to memory and holds no key yet.
#[verifier::external_body]
pub(crate) fn fst_builder_new() -> (b: fst::SetBuilder<Vec<u8>>)
    ensures
        fst_builder_keys(b) == Set::<Seq<u8>>::empty(),
{
    fst::SetBuilder::memory()
}

/// Calls `fst::SetBuilder::insert`. It fails only when the key comes before
/// the last key inserted, or when writing fails, which writing to memory
/// does not: a key that no held key follows is accepted. When it succeeds
/// the builder holds the key too. (What an error leaves in the builder this
/// contract does not say.)
#[verifier::external_body]
pub(crate) fn fst_builder_insert(b: &mut fst::SetBuilder<Vec<u8>>, key: &[u8]) -> (res: Result<
    (),
    fst::Error,
>)
    ensures
        (forall|k: Seq<u8>| #[trigger] fst_builder_keys(*old(b)).contains(k) ==> !bytes_lt(key@, k))
            ==> res is Ok,
        res is Ok ==> fst_builder_keys(*final(b)) == fst_builder_keys(*old(b)).insert(key@),
{
    b.insert(key)
}

/// Calls `fst::SetBuilder::into_inner`, finishing the FST. It fails only
/// when writing fails, which writing to memory does not. The bytes it gives
/// back, read as an FST, hold exactly the keys given to the builder; the
/// root address and key count it writes come from `usize` values.
#[verifier::external_body]
pub(crate) fn fst_builder_finish(b: fst::SetBuilder<Vec<u8>>) -> (res: Result<Vec<u8>, fst::Error>)
    ensures
        res is Ok,
        res matches Ok(bytes) ==> fst_bytes_keys(bytes@) == Some(fst_builder_keys(b)),
        res matches Ok(bytes) ==> fst_fields_fit(bytes@),
{
    b.into_inner()
}

// ----- The header `fst::Set::new` checks -----

/// The number at position `i` of a byte string, read as a little-endian u64.
pub open spec fn le_u64(b: Seq<u8>, i: int) -> int {
    b[i] + 256 * (b[i + 1] + 256 * (b[i + 2] + 256 * (b[i + 3] + 256 * (b[i + 4] + 256 * (b[i + 5]
        + 256 * (b[i + 6] + 256 * b[i + 7]))))))
}

/// The format version an FST starts with.
pub open spec fn fst_version(b: Seq<u8>) -> int {
    le_u64(b, 0)
}

/// Where the root address and key count end: before the 4-byte checksum
/// that versions from 3 on carry, else at the end.
pub open spec fn fst_meta_end(b: Seq<u8>) -> int {
    if fst_version(b) <= 2 {
        b.len() as int
    } else {
        b.len() - 4
    }
}

/// The root address an FST records.
pub open spec fn fst_root_addr(b: Seq<u8>) -> int {
    le_u64(b, fst_meta_end(b) - 8)
}

/// The key count an FST records.
pub open spec fn fst_len_field(b: Seq<u8>) -> int {
    le_u64(b, fst_meta_end(b) - 16)
}

/// The checks `fst::Set::new` makes (`fst::raw::Fst::new`): at least 36
/// bytes, a version from 1 to 3, and a root address of 0 only in an FST of
/// the empty set's size.
pub open spec fn fst_header_ok(b: Seq<u8>) -> bool {
    let empty_total: int = if fst_version(b) <= 2 { 32 } else { 36 };
    let addr_offset: int = if fst_version(b) <= 2 { 17 } else { 21 };
    &&& b.len() >= 36
    &&& 1 <= fst_version(b) <= 3
    &&& !(fst_root_addr(b) == 0 && b.len() != empty_total && b.len() != fst_root_addr(b)
        + addr_offset)
}

/// The root address and key count, when `fst::Set::new` reads them, fit in
/// a `usize` (it panics otherwise, which only a 32-bit target can see).
pub open spec fn fst_fields_fit(b: Seq<u8>) -> bool {
    (b.len() >= 36 && 1 <= fst_version(b) <= 3) ==> (fst_root_addr(b) <= usize::MAX
        && fst_len_field(b) <= usize::MAX)
}

/// Calls `fst::Set::new` on the bytes. It accepts exactly the bytes that pass
/// its header checks; well-formed FST bytes pass them, and the set then
/// holds what the bytes hold. (Bytes that pass the checks without being a
/// well-formed FST are accepted too; such a set is not well-formed.)
#[verifier::external_body]
pub(crate) fn fst_set_from_bytes(bytes: Vec<u8>) -> (res: Result<fst::Set<Vec<u8>>, fst::Error>)
    requires
        fst_fields_fit(bytes@),
    ensures
        res is Ok <==> fst_header_ok(bytes@),
        fst_bytes_keys(bytes@) is Some ==> res is Ok,
        res matches Ok(s) ==> (fst_bytes_keys(bytes@) matches Some(ks) ==> fst_set_well_formed(s)
            && fst_set_keys(s) == ks),
{
    fst::Set::new(bytes)
}

/// Calls `fst::Set::range` with the bounds `lo <= key < hi` and collects the
/// stream (`into_stream().into_bytes()`): the keys of the set in that range,
/// in increasing byte-lexicographic order.
#[verifier::external_body]
pub(crate) fn fst_keys_in_range(set: &fst::Set<Vec<u8>>, lo: &[u8], hi: &[u8]) -> (res: Vec<Vec<u8>>)
    requires
        fst_set_well_formed(*set),
    ensures
        strictly_sorted::<Vec<u8>>(views(res@)),
        forall|k: Seq<u8>|
            #[trigger] view_set(res@).contains(k) <==> (fst_set_keys(*set).contains(k) && !bytes_lt(
                k,
                lo@,
            ) && bytes_lt(k, hi@)),
{
    set.range().ge(lo).lt(hi).into_stream().into_bytes()
}

/// Reads the little-endian u64 at position `i`.
fn read_le_u64(b: &[u8], i: usize) -> (r: u128)
    requires
        i + 8 <= b@.len(),
    ensures
        r == le_u64(b@, i as int),
{
    (b[i] as u128) + 256 * ((b[i + 1] as u128) + 256 * ((b[i + 2] as u128) + 256 * ((b[i + 3] as u128)
        + 256 * ((b[i + 4] as u128) + 256 * ((b[i + 5] as u128) + 256 * ((b[i + 6] as u128) + 256
        * (b[i + 7] as u128)))))))
}

/// Whether reading the bytes as an FST header can go without a panic: the
/// root address and key count it would read fit in a `usize`.
pub fn fst_header_fits(bytes: &[u8]) -> (r: bool)
    ensures
        r == fst_fields_fit(bytes@),
{
    let n = bytes.len();
    if n < 36 {
        return true;
    }
    let version = read_le_u64(bytes, 0);
    if version < 1 || version > 3 {
        return true;
    }
    let end = if version <= 2 {
        n
    } else {
        n - 4
    };
    let root = read_le_u64(bytes, end - 8);
    let count = read_le_u64(bytes, end - 16);
    root <= usize::MAX as u128 && count <= usize::MAX as u128
}

} // verus!
