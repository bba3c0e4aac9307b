use vstd::prelude::*;
use vstd::utf8::{decode_utf8, valid_utf8};

use crate::error::ServerError;
use crate::utils::{copy_range, utf8_to_string};

verus! {

/// A header as the contracts see it: its key and its value.
pub type HeaderModel = (Seq<char>, Seq<char>);

/// One `Key: Value` header line of a request or a response.
pub struct Header {
    pub key: String,
    pub value: String,
}

impl View for Header {
    type V = HeaderModel;

    open spec fn view(&self) -> HeaderModel {
        (self.key@, self.value@)
    }
}

/// The models of a sequence of headers, in order.
pub open spec fn headers_view(hs: Seq<Header>) -> Seq<HeaderModel> {
    hs.map_values(|h: Header| h@)
}

/// The header names this server knows.
#[derive(Debug, Clone, Copy, PartialEq, Eq, Structural)]
pub enum HeaderType {
    ContentType,
    ContentLength,
    Host,
    UserAgent,
    Accept,
    AcceptEncoding,
    ContentEncoding,
}

impl HeaderType {
    /// The header's name as it stands on the wire.
    pub open spec fn name(self) -> Seq<char> {
        match self {
            HeaderType::ContentType => "Content-Type"@,
            HeaderType::ContentLength => "Content-Length"@,
            HeaderType::Host => "Host"@,
            HeaderType::UserAgent => "User-Agent"@,
            HeaderType::Accept => "Accept"@,
            HeaderType::AcceptEncoding => "Accept-Encoding"@,
            HeaderType::ContentEncoding => "Content-Encoding"@,
        }
    }

    /// The header's name as it stands on the wire.
    pub fn to_string(&self) -> (r: String)
        ensures
            r@ == self.name(),
    {
        match self {
            HeaderType::ContentType => "Content-Type".to_owned(),
            HeaderType::ContentLength => "Content-Length".to_owned(),
            HeaderType::Host => "Host".to_owned(),
            HeaderType::UserAgent => "User-Agent".to_owned(),
            HeaderType::Accept => "Accept".to_owned(),
            HeaderType::AcceptEncoding => "Accept-Encoding".to_owned(),
            HeaderType::ContentEncoding => "Content-Encoding".to_owned(),
        }
    }
}

impl std::str::FromStr for Header {
    type Err = ServerError;

    fn from_str(s: &str) -> Result<Header, ServerError> {
        Header::from_line(s.as_bytes())
    }
}

/// `": "`, the separator between a header's key and its value.
pub open spec fn header_separator() -> Seq<char> {
    seq![':', ' ']
}

/// `"\r\n"`, the end of every line of the head of a message.
pub open spec fn crlf() -> Seq<char> {
    seq!['\r', '\n']
}

/// The byte pair `x y` stands at index `i` of `b`.
pub open spec fn pair_at(b: Seq<u8>, i: int, x: u8, y: u8) -> bool {
    0 <= i && i + 1 < b.len() && b[i] == x && b[i + 1] == y
}

/// The first index at or after `i` where the byte pair `x y` stands.
pub open spec fn find_pair_from(b: Seq<u8>, i: int, x: u8, y: u8) -> Option<int>
    decreases b.len() - i,
{
    if i < 0 || i + 1 >= b.len() {
        None
    } else if b[i] == x && b[i + 1] == y {
        Some(i)
    } else {
        find_pair_from(b, i + 1, x, y)
    }
}

/// What the search for a byte pair finds: the first place where it stands.
pub proof fn lemma_find_pair(b: Seq<u8>, i: int, x: u8, y: u8)
    requires
        0 <= i,
    ensures
        match find_pair_from(b, i, x, y) {
            Some(k) => i <= k && pair_at(b, k, x, y) && forall|j: int|
                i <= j < k ==> !pair_at(b, j, x, y),
            None => forall|j: int| i <= j ==> !pair_at(b, j, x, y),
        },
    decreases b.len() - i,
{
    if i + 1 < b.len() && !(b[i] == x && b[i + 1] == y) {
        lemma_find_pair(b, i + 1, x, y);
    }
}

/// A byte pair found in `b` is found at the same place in `b` followed by
/// anything.
pub proof fn lemma_find_pair_extend(b: Seq<u8>, c: Seq<u8>, i: int, x: u8, y: u8)
    requires
        0 <= i,
        find_pair_from(b, i, x, y) is Some,
    ensures
        find_pair_from(b + c, i, x, y) == find_pair_from(b, i, x, y),
    decreases b.len() - i,
{
    if !(b[i] == x && b[i + 1] == y) {
        lemma_find_pair_extend(b, c, i + 1, x, y);
    }
}

/// The first index at or after `from` where the byte pair `x y` stands.
pub fn find_pair(b: &[u8], from: usize, x: u8, y: u8) -> (r: Option<usize>)
    ensures
        find_pair_from(b@, from as int, x, y) == match r {
            Some(i) => Some(i as int),
            None => None::<int>,
        },
{
    let n = b.len();
    let mut i: usize = from;
    while i < n && i + 1 < n
        invariant
            n == b@.len(),
            from <= i,
            find_pair_from(b@, from as int, x, y) == find_pair_from(b@, i as int, x, y),
        decreases n - i,
    {
        if b[i] == x && b[i + 1] == y {
            return Some(i);
        }
        i = i + 1;
    }
    None
}

/// How a header line splits into key bytes and value bytes: on the one
/// occurrence of `": "`. A line with none, or with more than one, does not
/// split into exactly two parts.
pub open spec fn split_header_line(line: Seq<u8>) -> Option<(Seq<u8>, Seq<u8>)> {
    match find_pair_from(line, 0, 58, 32) {
        None => None,
        Some(k) => {
            let rest = line.subrange(k + 2, line.len() as int);
            if find_pair_from(rest, 0, 58, 32) is Some {
                None
            } else {
                Some((line.subrange(0, k), rest))
            }
        },
    }
}

/// The header that a line of a request's head holds.
pub open spec fn header_of_line(line: Seq<u8>) -> Result<HeaderModel, ServerError> {
    match split_header_line(line) {
        None => Err(ServerError::IncorrectHeaderError),
        Some((k, v)) => if valid_utf8(k) && valid_utf8(v) {
            Ok((decode_utf8(k), decode_utf8(v)))
        } else {
            Err(ServerError::IncorrectHeaderError)
        },
    }
}

/// One header line of a message's head, with its line end.
pub open spec fn header_line_text(h: HeaderModel) -> Seq<char> {
    h.0 + header_separator() + h.1 + crlf()
}

/// The header lines of a message's head, each ended by `"\r\n"`.
pub open spec fn headers_text(hs: Seq<HeaderModel>) -> Seq<char>
    decreases hs.len(),
{
    if hs.len() == 0 {
        Seq::empty()
    } else {
        headers_text(hs.drop_last()) + header_line_text(hs.last())
    }
}

impl Header {
    /// A header of a known name with the given value.
    pub fn new(header_type: HeaderType, header_value: &str) -> (r: Header)
        ensures
            r@ == (header_type.name(), header_value@),
    {
        Header { key: header_type.to_string(), value: header_value.to_owned() }
    }

    /// The header that one line of a request's head (without its line end)
    /// holds: key and value on either side of the line's only `": "`.
    pub fn from_line(line: &[u8]) -> (r: Result<Header, ServerError>)
        ensures
            match r {
                Ok(h) => header_of_line(line@) == Ok::<HeaderModel, ServerError>(h@),
                Err(e) => header_of_line(line@) == Err::<HeaderModel, ServerError>(e),
            },
    {
        let k = match find_pair(line, 0, 58, 32) {
            None => return Err(ServerError::IncorrectHeaderError),
            Some(k) => k,
        };
        proof {
            lemma_find_pair(line@, 0, 58, 32);
        }
        let n = line.len();
        let key_bytes = copy_range(line, 0, k);
        let value_bytes = copy_range(line, k + 2, n);
        if find_pair(value_bytes.as_slice(), 0, 58, 32).is_some() {
            return Err(ServerError::IncorrectHeaderError);
        }
        let key = match utf8_to_string(key_bytes) {
            None => return Err(ServerError::IncorrectHeaderError),
            Some(s) => s,
        };
        let value = match utf8_to_string(value_bytes) {
            None => return Err(ServerError::IncorrectHeaderError),
            Some(s) => s,
        };
        Ok(Header { key, value })
    }

    /// The header lines of a message's head: `Key: Value` for each header, in
    /// order, each ended by `"\r\n"`.
    pub fn combine_headers(headers: Vec<Header>) -> (r: String)
        ensures
            r@ == headers_text(headers_view(headers@)),
    {
        let mut out = String::new();
        let mut i: usize = 0;
        while i < headers.len()
            invariant
                i <= headers@.len(),
                out@ == headers_text(headers_view(headers@.subrange(0, i as int))),
            decreases headers@.len() - i,
        {
            let h = &headers[i];
            out.append(h.key.as_str());
            out.append(": ");
            out.append(h.value.as_str());
            out.append("\r\n");
            proof {
                reveal_strlit(": ");
                reveal_strlit("\r\n");
                let prev = headers_view(headers@.subrange(0, i as int));
                let next = headers_view(headers@.subrange(0, i + 1));
                assert(next.drop_last() =~= prev);
                assert(next.last() == headers@[i as int]@);
                assert(": "@ =~= header_separator());
                assert("\r\n"@ =~= crlf());
                assert(out@ =~= headers_text(next));
            }
            i = i + 1;
        }
        assert(headers@.subrange(0, headers@.len() as int) =~= headers@);
        out
    }
}

} // verus!
