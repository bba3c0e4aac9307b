use vstd::prelude::*;
use vstd::utf8::encode_utf8;

use crate::error::ServerError;
use crate::header::{
    find_pair, find_pair_from, headers_view, lemma_find_pair, Header, HeaderModel, HeaderType,
};
use crate::utils::copy_range;

verus! {

/// The content encodings this server can apply to a response body.
#[derive(Debug, Clone, Copy, PartialEq, Eq, Structural)]
pub enum AvailableEncodings {
    GZIP,
}

/// The encoding that a token of an `Accept-Encoding` value names, if this
/// server supports it.
pub open spec fn encoding_of_token(t: Seq<u8>) -> Option<AvailableEncodings> {
    if t == seq![103u8, 122u8, 105u8, 112u8] {
        Some(AvailableEncodings::GZIP)
    } else {
        None
    }
}

impl AvailableEncodings {
    /// The encoding's name in `Accept-Encoding` and `Content-Encoding`.
    pub open spec fn name(self) -> Seq<char> {
        match self {
            AvailableEncodings::GZIP => "gzip"@,
        }
    }

    /// The encoding's name in `Accept-Encoding` and `Content-Encoding`.
    pub fn to_string(&self) -> (r: String)
        ensures
            r@ == self.name(),
    {
        match self {
            AvailableEncodings::GZIP => "gzip".to_owned(),
        }
    }

    /// The encoding that `s` names; an unknown name is an encoding error.
    pub fn from_name(s: &str) -> (r: Result<AvailableEncodings, ServerError>)
        ensures
            s@ == AvailableEncodings::GZIP.name() ==> r == Ok::<AvailableEncodings, ServerError>(
                AvailableEncodings::GZIP,
            ),
            s@ != AvailableEncodings::GZIP.name() ==> r == Err::<AvailableEncodings, ServerError>(
                ServerError::IncorrectEncodingError,
            ),
    {
        if s.to_owned() == AvailableEncodings::GZIP.to_string() {
            Ok(AvailableEncodings::GZIP)
        } else {
            Err(ServerError::IncorrectEncodingError)
        }
    }
}

impl std::str::FromStr for AvailableEncodings {
    type Err = ServerError;

    fn from_str(s: &str) -> Result<AvailableEncodings, ServerError> {
        AvailableEncodings::from_name(s)
    }
}

/// What gzip compression (default level, default header) makes of `data`:
/// the gzip stream, or `None` where the compressor fails on it.
pub uninterp spec fn gzip_of(data: Seq<u8>) -> Option<Seq<u8>>;

/// Compresses `data` into a gzip stream.
///
/// Relies on flate2's `write::GzEncoder` over a `Vec<u8>` at the default
/// level: whether `write_all` and `finish` succeed, and what `finish` hands
/// back, depend on the input bytes alone.
#[verifier::external_body]
fn gzip_compress(data: &[u8]) -> (r: Option<Vec<u8>>)
    ensures
        match r {
            Some(v) => gzip_of(data@) == Some(v@),
            None => gzip_of(data@) is None,
        },
{
    let mut encoder = flate2::write::GzEncoder::new(Vec::new(), flate2::Compression::default());
    std::io::Write::write_all(&mut encoder, data).ok()?;
    encoder.finish().ok()
}

/// What `data` becomes in the given encoding, or `None` where encoding it
/// fails.
pub open spec fn encoded(data: Seq<u8>, encoding: AvailableEncodings) -> Option<Seq<u8>> {
    match encoding {
        AvailableEncodings::GZIP => gzip_of(data),
    }
}

/// `data` in the given encoding. It is an encoding error exactly when the
/// compressor fails on `data`.
pub fn encode(data: &[u8], encoding: AvailableEncodings) -> (r: Result<Vec<u8>, ServerError>)
    ensures
        match r {
            Ok(v) => encoded(data@, encoding) == Some(v@),
            Err(e) => e == ServerError::EncodingError && encoded(data@, encoding) is None,
        },
{
    match encoding {
        AvailableEncodings::GZIP => match gzip_compress(data) {
            Some(v) => Ok(v),
            None => Err(ServerError::EncodingError),
        },
    }
}

/// The first supported encoding among the tokens of `v` (separated by
/// `", "`) from index `i` on.
pub open spec fn first_supported_from(v: Seq<u8>, i: int) -> Option<AvailableEncodings>
    decreases v.len() - i,
{
    if i < 0 || i > v.len() {
        None
    } else {
        match find_pair_from(v, i, 44, 32) {
            None => encoding_of_token(v.subrange(i, v.len() as int)),
            Some(e) => if i <= e && e + 2 <= v.len() {
                match encoding_of_token(v.subrange(i, e)) {
                    Some(x) => Some(x),
                    None => first_supported_from(v, e + 2),
                }
            } else {
                None
            },
        }
    }
}

/// The index of the first header in `hs`, from `i` on, whose key is `key`.
pub open spec fn header_index_from(hs: Seq<HeaderModel>, key: Seq<char>, i: int) -> Option<int>
    decreases hs.len() - i,
{
    if i < 0 || i >= hs.len() {
        None
    } else if hs[i].0 == key {
        Some(i)
    } else {
        header_index_from(hs, key, i + 1)
    }
}

/// The index of the first header in `hs` whose key is `key`.
pub open spec fn header_index(hs: Seq<HeaderModel>, key: Seq<char>) -> Option<int> {
    header_index_from(hs, key, 0)
}

/// What the search for a header finds: the first with that key.
pub proof fn lemma_header_index(hs: Seq<HeaderModel>, key: Seq<char>, i: int)
    requires
        0 <= i,
    ensures
        match header_index_from(hs, key, i) {
            Some(k) => i <= k < hs.len() && hs[k].0 == key && forall|j: int|
                i <= j < k ==> hs[j].0 != key,
            None => forall|j: int| i <= j < hs.len() ==> hs[j].0 != key,
        },
    decreases hs.len() - i,
{
    if i < hs.len() && hs[i].0 != key {
        lemma_header_index(hs, key, i + 1);
    }
}

/// The index of the first of `headers` whose key is `key`.
pub fn find_header(headers: &Vec<Header>, key: &String) -> (r: Option<usize>)
    ensures
        header_index(headers_view(headers@), key@) == match r {
            Some(i) => Some(i as int),
            None => None::<int>,
        },
{
    let ghost hs = headers_view(headers@);
    let mut i: usize = 0;
    while i < headers.len()
        invariant
            hs == headers_view(headers@),
            i <= headers@.len(),
            header_index(hs, key@) == header_index_from(hs, key@, i as int),
        decreases headers@.len() - i,
    {
        if headers[i].key == *key {
            return Some(i);
        }
        i = i + 1;
    }
    None
}

/// The encoding a response gets: the first supported token of the request's
/// first `Accept-Encoding` header, read as the bytes it stands in on the wire.
pub open spec fn negotiated_encoding(request_headers: Seq<HeaderModel>) -> Option<AvailableEncodings> {
    match header_index(request_headers, HeaderType::AcceptEncoding.name()) {
        None => None,
        Some(i) => first_supported_from(encode_utf8(request_headers[i].1), 0),
    }
}

/// The first supported encoding among the `", "`-separated tokens of `v`.
pub fn first_supported(v: &[u8]) -> (r: Option<AvailableEncodings>)
    ensures
        r == first_supported_from(v@, 0),
{
    let n = v.len();
    let mut i: usize = 0;
    while i <= n
        invariant
            n == v@.len(),
            first_supported_from(v@, 0) == first_supported_from(v@, i as int),
        decreases n + 1 - i,
    {
        let found = find_pair(v, i, 44, 32);
        proof {
            lemma_find_pair(v@, i as int, 44, 32);
        }
        let end = match found {
            Some(e) => e,
            None => n,
        };
        let token = copy_range(v, i, end);
        if token.len() == 4 && token[0] == 103 && token[1] == 122 && token[2] == 105 && token[3]
            == 112 {
            assert(token@ =~= seq![103u8, 122u8, 105u8, 112u8]);
            return Some(AvailableEncodings::GZIP);
        }
        match found {
            None => return None,
            Some(e) => {
                i = e + 2;
            },
        }
    }
    None
}

/// The encoding that the request's headers ask the response to get.
pub fn negotiate_encoding(request_headers: &Vec<Header>) -> (r: Option<AvailableEncodings>)
    ensures
        r == negotiated_encoding(headers_view(request_headers@)),
{
    let key = HeaderType::AcceptEncoding.to_string();
    match find_header(request_headers, &key) {
        None => None,
        Some(i) => {
            proof {
                lemma_header_index(headers_view(request_headers@), key@, 0);
            }
            first_supported(request_headers[i].value.as_str().as_bytes())
        },
    }
}

} // verus!
