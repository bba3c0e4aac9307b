use vstd::prelude::*;

use vstd::utf8::{decode_utf8, valid_utf8};

use crate::error::ServerError;

verus! {

/// The route prefix under which files are served and stored.
pub const FILES_PATH_PREFIX: &'static str = "/files/";

/// `s` begins with `prefix`.
pub open spec fn has_prefix<T>(s: Seq<T>, prefix: Seq<T>) -> bool {
    prefix.len() <= s.len() && s.subrange(0, prefix.len() as int) == prefix
}

/// Whether `s` begins with `prefix`, compared character by character.
pub fn str_starts_with(s: &str, prefix: &str) -> (r: bool)
    ensures
        r == has_prefix(s@, prefix@),
{
    let n = prefix.unicode_len();
    let m = s.unicode_len();
    if n > m {
        return false;
    }
    let mut i: usize = 0;
    while i < n
        invariant
            n == prefix@.len(),
            m == s@.len(),
            n <= m,
            i <= n,
            forall|j: int| 0 <= j < i ==> s@[j] == prefix@[j],
        decreases n - i,
    {
        if s.get_char(i) != prefix.get_char(i) {
            assert(s@.subrange(0, n as int)[i as int] != prefix@[i as int]);
            return false;
        }
        i = i + 1;
    }
    assert(s@.subrange(0, n as int) =~= prefix@);
    true
}

/// The file name that a `/files/<name>` path designates: everything after
/// the prefix, verbatim, possibly empty.
pub fn extract_filename_from_request_path(path: &str) -> (r: Result<&str, ServerError>)
    ensures
        r is Ok <==> has_prefix(path@, FILES_PATH_PREFIX@),
        r is Err ==> r == Err::<&str, ServerError>(ServerError::IncorrectPathError),
        r matches Ok(name) ==> name@ == path@.subrange(FILES_PATH_PREFIX@.len() as int, path@.len() as int),
{
    if !str_starts_with(path, FILES_PATH_PREFIX) {
        return Err(ServerError::IncorrectPathError);
    }
    let start = FILES_PATH_PREFIX.unicode_len();
    let end = path.unicode_len();
    Ok(path.substring_char(start, end))
}

/// The text that `bytes` holds, if they are well-formed UTF-8.
///
/// Relies on `String::from_utf8`: it fails exactly on ill-formed UTF-8 and
/// otherwise keeps the decoded characters.
#[verifier::external_body]
pub(crate) fn utf8_to_string(bytes: Vec<u8>) -> (r: Option<String>)
    ensures
        r is Some <==> valid_utf8(bytes@),
        r matches Some(s) ==> s@ == decode_utf8(bytes@),
{
    String::from_utf8(bytes).ok()
}

/// The bytes `b[from..to]` as a vector of their own.
pub fn copy_range(b: &[u8], from: usize, to: usize) -> (r: Vec<u8>)
    requires
        from <= to <= b@.len(),
    ensures
        r@ == b@.subrange(from as int, to as int),
{
    let mut out: Vec<u8> = Vec::new();
    let mut i: usize = from;
    while i < to
        invariant
            from <= i <= to <= b@.len(),
            out@ == b@.subrange(from as int, i as int),
        decreases to - i,
    {
        out.push(b[i]);
        i = i + 1;
        assert(out@ =~= b@.subrange(from as int, i as int));
    }
    out
}

/// Appends the bytes `b` to `v`.
pub fn append_bytes(v: &mut Vec<u8>, b: &[u8])
    ensures
        final(v)@ == old(v)@ + b@,
{
    let ghost start = v@;
    let mut i: usize = 0;
    while i < b.len()
        invariant
            i <= b@.len(),
            v@ == start + b@.subrange(0, i as int),
        decreases b@.len() - i,
    {
        v.push(b[i]);
        i = i + 1;
        assert(v@ =~= start + b@.subrange(0, i as int));
    }
    assert(b@.subrange(0, b@.len() as int) =~= b@);
}

} // verus!
