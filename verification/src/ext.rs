//! The trusted boundary: the cryptographic digest and std's UTF-8
//! conversions, each behind a wrapper whose contract Verus believes.
use vstd::prelude::*;
use blake2::digest::Update;
use blake2::digest::VariableOutput;

verus! {

/// The 32-byte blake2b digest of a byte sequence: a function of the
/// bytes alone, left uninterpreted here.
pub uninterp spec fn blake_of(data: Seq<u8>) -> Seq<u8>;

/// Relies on blake2::Blake2bVar with a 32-byte output: the digest is a
/// function of the input bytes alone and is always 32 bytes long.
#[verifier::external_body]
pub(crate) fn blake256(data: &Vec<u8>) -> (r: Vec<u8>)
    ensures
        r@ == blake_of(data@),
        r@.len() == 32,
{
    let mut h = blake2::Blake2bVar::new(32).unwrap();
    h.update(data.as_slice());
    let mut out = vec![0u8; 32];
    h.finalize_variable(&mut out).unwrap();
    out
}

/// The UTF-8 bytes of a character sequence, as std encodes them: a
/// function of the characters alone, left uninterpreted here.
pub uninterp spec fn utf8_of(s: Seq<char>) -> Seq<u8>;

/// Relies on str::as_bytes: the UTF-8 bytes of a string are a function
/// of its characters alone.
#[verifier::external_body]
pub(crate) fn str_to_bytes(s: &str) -> (r: Vec<u8>)
    ensures
        r@ == utf8_of(s@),
{
    s.as_bytes().to_vec()
}

/// Relies on String::from_utf8: it succeeds exactly on valid UTF-8 and
/// the returned string holds the given bytes.
#[verifier::external_body]
pub(crate) fn bytes_to_string(v: Vec<u8>) -> (r: Option<String>)
    ensures
        match r {
            Some(s) => utf8_of(s@) == v@,
            None => forall|t: Seq<char>| utf8_of(t) != v@,
        },
{
    match String::from_utf8(v) {
        Ok(s) => Some(s),
        Err(_) => None,
    }
}

} // verus!
