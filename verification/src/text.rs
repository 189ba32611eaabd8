use vstd::prelude::*;
use vstd::string::StringSliceAdditionalSpecFns;

verus! {

/// Whether two string slices hold the same characters.
///
/// Trusted: calls `<str as PartialEq>::eq`, which compares the two slices
/// byte for byte; equal UTF-8 encodings are equal character sequences.
#[verifier::external_body]
pub(crate) fn str_eq(a: &str, b: &str) -> (r: bool)
    ensures
        r == (a@ == b@),
{
    a == b
}


/// The string slice whose UTF-8 encoding is `bytes`.
///
/// Trusted: calls `std::str::from_utf8`, which by its documentation
/// returns `Ok` with a slice over exactly these bytes whenever they are
/// valid UTF-8, as `requires` demands.
#[verifier::external_body]
pub(crate) fn str_from_utf8(bytes: &[u8]) -> (r: &str)
    requires
        vstd::utf8::valid_utf8(bytes@),
    ensures
        r.spec_bytes() == bytes@,
{
    match std::str::from_utf8(bytes) {
        Ok(s) => s,
        Err(_) => "",
    }
}


/// The characters of `s`.
pub(crate) fn chars_of(s: &str) -> (r: Vec<char>)
    ensures
        r@ == s@,
{
    let n = s.unicode_len();
    let mut out: Vec<char> = Vec::new();
    let mut i: usize = 0;
    while i < n
        invariant
            n == s@.len(),
            i <= n,
            out@ == s@.take(i as int),
        decreases n - i,
    {
        out.push(s.get_char(i));
        i += 1;
        assert(out@ =~= s@.take(i as int));
    }
    assert(s@.take(n as int) =~= s@);
    out
}

} // verus!
