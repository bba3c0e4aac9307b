use vstd::prelude::*;
use vstd::utf8::encode_utf8;

use crate::encoding::{
    encode, encoded, find_header, header_index, lemma_header_index, negotiate_encoding,
    negotiated_encoding, AvailableEncodings,
};
use crate::error::ServerError;
use crate::header::{crlf, headers_text, headers_view, Header, HeaderModel, HeaderType};
use crate::request::{RequestContent, RequestModel};
use crate::utils::{append_bytes, copy_range, has_prefix};

verus! {

/// The statuses this server answers with.
#[derive(Debug, Clone, Copy, PartialEq, Eq, Structural)]
pub enum ServerResponse {
    OK,
    NotFound,
    Created,
}

impl ServerResponse {
    /// The status line, without its line end.
    pub open spec fn status_text(self) -> Seq<char> {
        match self {
            ServerResponse::OK => "HTTP/1.1 200 OK"@,
            ServerResponse::NotFound => "HTTP/1.1 404 Not Found"@,
            ServerResponse::Created => "HTTP/1.1 201 Created"@,
        }
    }

    /// The status line, without its line end.
    pub fn get_status_line(&self) -> (r: &'static str)
        ensures
            r@ == self.status_text(),
    {
        match self {
            ServerResponse::OK => "HTTP/1.1 200 OK",
            ServerResponse::NotFound => "HTTP/1.1 404 Not Found",
            ServerResponse::Created => "HTTP/1.1 201 Created",
        }
    }
}

/// The decimal digit `d`.
pub open spec fn digit_char(d: nat) -> char {
    if d == 0 {
        '0'
    } else if d == 1 {
        '1'
    } else if d == 2 {
        '2'
    } else if d == 3 {
        '3'
    } else if d == 4 {
        '4'
    } else if d == 5 {
        '5'
    } else if d == 6 {
        '6'
    } else if d == 7 {
        '7'
    } else if d == 8 {
        '8'
    } else {
        '9'
    }
}

/// `n` written in decimal, without leading zeros.
pub open spec fn decimal_text(n: nat) -> Seq<char>
    decreases n,
{
    if n < 10 {
        seq![digit_char(n)]
    } else {
        decimal_text(n / 10).push(digit_char(n % 10))
    }
}

fn digit_str(d: usize) -> (r: &'static str)
    requires
        d < 10,
    ensures
        r@ == seq![digit_char(d as nat)],
{
    proof {
        reveal_strlit("0");
        reveal_strlit("1");
        reveal_strlit("2");
        reveal_strlit("3");
        reveal_strlit("4");
        reveal_strlit("5");
        reveal_strlit("6");
        reveal_strlit("7");
        reveal_strlit("8");
        reveal_strlit("9");
    }
    let r = if d == 0 {
        "0"
    } else if d == 1 {
        "1"
    } else if d == 2 {
        "2"
    } else if d == 3 {
        "3"
    } else if d == 4 {
        "4"
    } else if d == 5 {
        "5"
    } else if d == 6 {
        "6"
    } else if d == 7 {
        "7"
    } else if d == 8 {
        "8"
    } else {
        "9"
    };
    assert(r@ =~= seq![digit_char(d as nat)]);
    r
}

/// `n` written in decimal.
pub fn decimal_string(n: usize) -> (r: String)
    ensures
        r@ == decimal_text(n as nat),
    decreases n,
{
    if n < 10 {
        digit_str(n).to_owned()
    } else {
        let mut s = decimal_string(n / 10);
        s.append(digit_str(n % 10));
        s
    }
}

/// A `Content-Length` header for `n` bytes.
pub open spec fn content_length_header(n: nat) -> HeaderModel {
    (HeaderType::ContentLength.name(), decimal_text(n))
}

/// `hs` with every `Content-Length` header set to `n` bytes, or with one
/// added at the end where there was none.
pub open spec fn with_content_length(hs: Seq<HeaderModel>, n: nat) -> Seq<HeaderModel> {
    if header_index(hs, HeaderType::ContentLength.name()) is Some {
        hs.map_values(
            |h: HeaderModel|
                if h.0 == HeaderType::ContentLength.name() {
                    content_length_header(n)
                } else {
                    h
                },
        )
    } else {
        hs.push(content_length_header(n))
    }
}

/// The headers a response goes out with: as given when no encoding applies;
/// otherwise with `Content-Encoding` added and `Content-Length` giving the
/// length of the encoded payload.
pub open spec fn final_headers(
    hs: Seq<HeaderModel>,
    encoding: Option<AvailableEncodings>,
    payload_len: nat,
) -> Seq<HeaderModel> {
    match encoding {
        None => hs,
        Some(e) => with_content_length(
            hs.push((HeaderType::ContentEncoding.name(), e.name())),
            payload_len,
        ),
    }
}

/// The head of a response: status line, header lines, blank line.
pub open spec fn response_head(status: ServerResponse, hs: Seq<HeaderModel>) -> Seq<char> {
    status.status_text() + crlf() + headers_text(hs) + crlf()
}

/// The bytes of a response: its head as UTF-8, then the payload as it is.
pub open spec fn wire(status: ServerResponse, hs: Seq<HeaderModel>, payload: Seq<u8>) -> Seq<u8> {
    encode_utf8(response_head(status, hs)) + payload
}

/// The payload of a response body under the negotiated encoding, or `None`
/// where encoding it fails.
pub open spec fn response_payload(body: Seq<u8>, encoding: Option<AvailableEncodings>) -> Option<
    Seq<u8>,
> {
    match encoding {
        None => Some(body),
        Some(e) => encoded(body, e),
    }
}

/// The bytes of a response with the given status, headers and body, once
/// the encoding that the request's headers ask for is applied; `None` where
/// that encoding fails on the body.
pub open spec fn assembled(
    status: ServerResponse,
    hs: Seq<HeaderModel>,
    body: Seq<u8>,
    request_headers: Seq<HeaderModel>,
) -> Option<Seq<u8>> {
    let encoding = negotiated_encoding(request_headers);
    match response_payload(body, encoding) {
        Some(payload) => Some(wire(status, final_headers(hs, encoding, payload.len()), payload)),
        None => None,
    }
}

/// A response before content negotiation.
pub struct ResponseModel {
    pub status: ServerResponse,
    pub headers: Seq<HeaderModel>,
    pub body: Seq<u8>,
}

/// `r` is the response `m` to a request with the headers `request_headers`:
/// it succeeds with exactly the assembled bytes, and fails, with an encoding
/// error, exactly when the negotiated encoding fails on the body.
pub open spec fn replies(
    r: Result<Vec<u8>, ServerError>,
    m: ResponseModel,
    request_headers: Seq<HeaderModel>,
) -> bool {
    match r {
        Ok(v) => assembled(m.status, m.headers, m.body, request_headers) == Some(v@),
        Err(e) => e == ServerError::EncodingError && assembled(
            m.status,
            m.headers,
            m.body,
            request_headers,
        ) is None,
    }
}

/// Sets every `Content-Length` header to `n`, or adds one.
fn set_content_length(headers: &mut Vec<Header>, n: usize)
    ensures
        headers_view(final(headers)@) == with_content_length(headers_view(old(headers)@), n as nat),
{
    let ghost hs = headers_view(headers@);
    let key = HeaderType::ContentLength.to_string();
    let value = decimal_string(n);
    let mut found = false;
    let mut i: usize = 0;
    while i < headers.len()
        invariant
            key@ == HeaderType::ContentLength.name(),
            value@ == decimal_text(n as nat),
            i <= headers@.len() == hs.len(),
            forall|j: int|
                0 <= j < i ==> #[trigger] headers_view(headers@)[j] == if hs[j].0 == key@ {
                    content_length_header(n as nat)
                } else {
                    hs[j]
                },
            forall|j: int| i <= j < hs.len() ==> #[trigger] headers_view(headers@)[j] == hs[j],
            found <==> exists|j: int| 0 <= j < i && #[trigger] hs[j].0 == key@,
        decreases hs.len() - i,
    {
        let ghost before = headers_view(headers@);
        assert(before[i as int] == hs[i as int]);
        if headers[i].key == key {
            assert(hs[i as int].0 == key@);
            headers.set(i, Header { key: key.clone(), value: value.clone() });
            found = true;
        } else {
            assert(hs[i as int].0 != key@);
        }
        assert forall|j: int| 0 <= j <= i implies #[trigger] headers_view(headers@)[j] == if hs[j].0
            == key@ {
            content_length_header(n as nat)
        } else {
            hs[j]
        } by {
            if j < i {
                assert(headers_view(headers@)[j] == before[j]);
            }
        }
        assert forall|j: int| i < j < hs.len() implies #[trigger] headers_view(headers@)[j]
            == hs[j] by {
            assert(headers_view(headers@)[j] == before[j]);
        }
        i = i + 1;
    }
    proof {
        lemma_header_index(hs, key@, 0);
    }
    if found {
        assert(headers_view(headers@) =~= with_content_length(hs, n as nat));
    } else {
        let ghost before = headers_view(headers@);
        assert(before =~= hs);
        headers.push(Header { key, value });
        assert(headers_view(headers@) =~= hs.push(content_length_header(n as nat)));
        assert(header_index(hs, key@) is None);
    }
}

/// The bytes of a response: status line, header lines, blank line, payload.
pub fn serialize_response(response: ServerResponse, headers: Vec<Header>, payload: &[u8]) -> (r: Vec<
    u8,
>)
    ensures
        r@ == wire(response, headers_view(headers@), payload@),
{
    let ghost hs = headers_view(headers@);
    let mut head = response.get_status_line().to_owned();
    head.append("\r\n");
    head.append(Header::combine_headers(headers).as_str());
    head.append("\r\n");
    proof {
        reveal_strlit("\r\n");
        assert("\r\n"@ =~= crlf());
        assert(head@ =~= response_head(response, hs));
    }
    let mut out: Vec<u8> = Vec::new();
    append_bytes(&mut out, head.as_str().as_bytes());
    append_bytes(&mut out, payload);
    assert(out@ =~= wire(response, hs, payload@));
    out
}

/// The bytes of a response whose payload is already in its final encoding:
/// with an encoding, `Content-Encoding` is added and `Content-Length` gives
/// the payload's length.
pub fn finish_response(
    response: ServerResponse,
    headers: Vec<Header>,
    payload: &[u8],
    encoding: Option<AvailableEncodings>,
) -> (r: Vec<u8>)
    ensures
        r@ == wire(
            response,
            final_headers(headers_view(headers@), encoding, payload@.len()),
            payload@,
        ),
{
    let ghost hs = headers_view(headers@);
    let mut headers = headers;
    match encoding {
        None => {},
        Some(e) => {
            let name = e.to_string();
            headers.push(Header::new(HeaderType::ContentEncoding, name.as_str()));
            assert(headers_view(headers@) =~= hs.push(
                (HeaderType::ContentEncoding.name(), e.name()),
            ));
            set_content_length(&mut headers, payload.len());
        },
    }
    serialize_response(response, headers, payload)
}

/// The bytes of a response to a request with the headers `request_headers`:
/// the body is encoded as the request asks, if this server supports it.
pub fn build_response(
    response: ServerResponse,
    headers: Vec<Header>,
    body: &[u8],
    request_headers: &Vec<Header>,
) -> (r: Result<Vec<u8>, ServerError>)
    ensures
        replies(
            r,
            ResponseModel { status: response, headers: headers_view(headers@), body: body@ },
            headers_view(request_headers@),
        ),
{
    let encoding = negotiate_encoding(request_headers);
    match encoding {
        None => Ok(finish_response(response, headers, body, None)),
        Some(e) => match encode(body, e) {
            Err(err) => Err(err),
            Ok(payload) => Ok(finish_response(response, headers, payload.as_slice(), Some(e))),
        },
    }
}

/// The route prefix whose remainder an echo request sends back.
pub const ECHO_PATH_PREFIX: &'static str = "/echo/";

/// A response with a status and nothing else.
pub open spec fn empty_reply(status: ServerResponse) -> ResponseModel {
    ResponseModel { status, headers: Seq::empty(), body: Seq::empty() }
}

/// A 200 response with a plain-text body.
pub open spec fn text_reply(body: Seq<u8>) -> ResponseModel {
    ResponseModel {
        status: ServerResponse::OK,
        headers: seq![
            (HeaderType::ContentType.name(), "text/plain"@),
            content_length_header(body.len()),
        ],
        body,
    }
}

/// The answer to `/echo/<message>`: the message, verbatim.
pub open spec fn echo_model(req: RequestModel) -> ResponseModel {
    text_reply(encode_utf8(req.path.subrange(ECHO_PATH_PREFIX@.len() as int, req.path.len() as int)))
}

/// The value of the first `User-Agent` header, or nothing.
pub open spec fn user_agent_of(hs: Seq<HeaderModel>) -> Seq<char> {
    match header_index(hs, HeaderType::UserAgent.name()) {
        Some(i) => hs[i].1,
        None => Seq::empty(),
    }
}

/// The answer to `/user-agent`: the client's user agent.
pub open spec fn user_agent_model(req: RequestModel) -> ResponseModel {
    text_reply(encode_utf8(user_agent_of(req.headers)))
}

/// The answer to a file read: the file's bytes, or 404 where there is no
/// such file.
pub open spec fn file_model(contents: Option<Seq<u8>>) -> ResponseModel {
    match contents {
        None => empty_reply(ServerResponse::NotFound),
        Some(b) => ResponseModel {
            status: ServerResponse::OK,
            headers: seq![
                (HeaderType::ContentType.name(), "application/octet-stream"@),
                content_length_header(b.len()),
            ],
            body: b,
        },
    }
}

/// A 200 response with a plain-text body.
fn text_response(body: &[u8], request_headers: &Vec<Header>) -> (r: Result<Vec<u8>, ServerError>)
    ensures
        replies(r, text_reply(body@), headers_view(request_headers@)),
{
    let mut headers: Vec<Header> = Vec::new();
    headers.push(Header::new(HeaderType::ContentType, "text/plain"));
    headers.push(Header::new(HeaderType::ContentLength, decimal_string(body.len()).as_str()));
    assert(headers_view(headers@) =~= text_reply(body@).headers);
    build_response(ServerResponse::OK, headers, body, request_headers)
}

/// The response to a request for `/echo/<message>`.
pub fn echo_response(content: &RequestContent) -> (r: Result<Vec<u8>, ServerError>)
    requires
        has_prefix(content.path@, ECHO_PATH_PREFIX@),
    ensures
        replies(r, echo_model(content@), content@.headers),
{
    let path = content.path.as_str();
    let message = path.substring_char(ECHO_PATH_PREFIX.unicode_len(), path.unicode_len());
    text_response(message.as_bytes(), &content.headers)
}

/// The response to a request for `/user-agent`.
pub fn user_agent_response(content: &RequestContent) -> (r: Result<Vec<u8>, ServerError>)
    ensures
        replies(r, user_agent_model(content@), content@.headers),
{
    let key = HeaderType::UserAgent.to_string();
    let body: Vec<u8> = match find_header(&content.headers, &key) {
        Some(i) => {
            proof {
                lemma_header_index(headers_view(content.headers@), key@, 0);
            }
            let bytes = content.headers[i].value.as_str().as_bytes();
            copy_range(bytes, 0, bytes.len())
        },
        None => {
            let empty: Vec<u8> = Vec::new();
            assert(encode_utf8(Seq::<char>::empty()) =~= empty@);
            empty
        },
    };
    assert(body@ =~= encode_utf8(user_agent_of(content@.headers)));
    text_response(body.as_slice(), &content.headers)
}

/// The response to a file read, given the file's bytes, or `None` where
/// there is no such file.
pub fn file_response(content: &RequestContent, contents: Option<Vec<u8>>) -> (r: Result<
    Vec<u8>,
    ServerError,
>)
    ensures
        replies(
            r,
            file_model(
                match contents {
                    Some(b) => Some(b@),
                    None => None,
                },
            ),
            content@.headers,
        ),
{
    match contents {
        None => empty_response(ServerResponse::NotFound, content),
        Some(b) => {
            let mut headers: Vec<Header> = Vec::new();
            headers.push(Header::new(HeaderType::ContentType, "application/octet-stream"));
            headers.push(Header::new(HeaderType::ContentLength, decimal_string(b.len()).as_str()));
            assert(headers_view(headers@) =~= file_model(Some(b@)).headers);
            build_response(ServerResponse::OK, headers, b.as_slice(), &content.headers)
        },
    }
}

/// The response once a posted file has been stored.
pub fn post_file_response(content: &RequestContent) -> (r: Result<Vec<u8>, ServerError>)
    ensures
        replies(r, empty_reply(ServerResponse::Created), content@.headers),
{
    empty_response(ServerResponse::Created, content)
}

/// A response with a status, no headers of its own and an empty body.
pub fn empty_response(status: ServerResponse, content: &RequestContent) -> (r: Result<
    Vec<u8>,
    ServerError,
>)
    ensures
        replies(r, empty_reply(status), content@.headers),
{
    let headers: Vec<Header> = Vec::new();
    let body: Vec<u8> = Vec::new();
    assert(headers_view(headers@) =~= Seq::<HeaderModel>::empty());
    build_response(status, headers, body.as_slice(), &content.headers)
}

/// The header names `Content-Encoding` and `Content-Length` differ.
proof fn lemma_encoding_and_length_names_differ()
    ensures
        HeaderType::ContentEncoding.name() != HeaderType::ContentLength.name(),
{
    reveal_strlit("Content-Encoding");
    reveal_strlit("Content-Length");
    assert(HeaderType::ContentEncoding.name().len() != HeaderType::ContentLength.name().len());
}

/// Whenever an encoding is negotiated, the response is produced exactly
/// when that encoding succeeds on the body; it then names the encoding in
/// `Content-Encoding`, carries a `Content-Length`, and every
/// `Content-Length` it carries gives the length of the encoded payload, so
/// that the length of the unencoded body never reaches the wire.
pub proof fn lemma_encoded_response_headers(
    status: ServerResponse,
    hs: Seq<HeaderModel>,
    body: Seq<u8>,
    request_headers: Seq<HeaderModel>,
)
    requires
        negotiated_encoding(request_headers) is Some,
    ensures
        ({
            let e = negotiated_encoding(request_headers)->0;
            &&& assembled(status, hs, body, request_headers) is Some <==> encoded(body, e) is Some
            &&& encoded(body, e) matches Some(payload) ==> {
                let out = final_headers(hs, Some(e), payload.len());
                &&& assembled(status, hs, body, request_headers) == Some(wire(status, out, payload))
                &&& out.contains((HeaderType::ContentEncoding.name(), e.name()))
                &&& header_index(out, HeaderType::ContentLength.name()) is Some
                &&& forall|i: int|
                    0 <= i < out.len() && #[trigger] out[i].0 == HeaderType::ContentLength.name()
                        ==> out[i].1 == decimal_text(payload.len())
            }
        }),
{
    let e = negotiated_encoding(request_headers)->0;
    if let Some(payload) = encoded(body, e) {
        let n = payload.len();
        let key = HeaderType::ContentLength.name();
        let ce = (HeaderType::ContentEncoding.name(), e.name());
        let pushed = hs.push(ce);
        let out = final_headers(hs, Some(e), n);
        lemma_encoding_and_length_names_differ();
        lemma_header_index(pushed, key, 0);
        lemma_header_index(out, key, 0);
        if header_index(pushed, key) is Some {
            let k = header_index(pushed, key)->0;
            assert(out[k].0 == key);
            assert(out[pushed.len() - 1] == ce);
        } else {
            assert(out[pushed.len() - 1] == ce);
            assert(out[out.len() - 1].0 == key);
        }
    }
}

/// A request whose first `Accept-Encoding` header is `gzip` gets gzip.
pub proof fn lemma_gzip_negotiated(request_headers: Seq<HeaderModel>)
    requires
        header_index(request_headers, HeaderType::AcceptEncoding.name()) matches Some(i)
            && request_headers[i].1 == "gzip"@,
    ensures
        negotiated_encoding(request_headers) == Some(AvailableEncodings::GZIP),
{
    reveal_strlit("gzip");
    let v = "gzip"@;
    assert(vstd::utf8::is_ascii_chars(v));
    vstd::utf8::is_ascii_chars_encode_utf8(v);
    let b = encode_utf8(v);
    assert(b =~= seq![103u8, 122u8, 105u8, 112u8]);
    crate::header::lemma_find_pair(b, 0, 44, 32);
    assert(b.subrange(0, 4) =~= b);
}

} // verus!
