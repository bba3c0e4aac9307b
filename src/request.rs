use vstd::prelude::*;
use vstd::utf8::{decode_utf8, encode_utf8, valid_utf8};

use crate::error::ServerError;
use crate::header::{
    find_pair, find_pair_from, header_of_line, headers_view, lemma_find_pair,
    lemma_find_pair_extend, pair_at, Header, HeaderModel, HeaderType,
};
use crate::utils::{append_bytes, copy_range, utf8_to_string};

verus! {

/// The methods this server answers.
#[derive(Debug, Clone, Copy, PartialEq, Eq, Structural)]
pub enum RequestMethod {
    Get,
    Post,
}

/// The method that a request line's first token names, matched exactly.
pub open spec fn method_of_token(t: Seq<u8>) -> Option<RequestMethod> {
    if t == seq![71u8, 69u8, 84u8] {
        Some(RequestMethod::Get)
    } else if t == seq![80u8, 79u8, 83u8, 84u8] {
        Some(RequestMethod::Post)
    } else {
        None
    }
}

impl RequestMethod {
    /// The method that a token names: `GET` or `POST`, case-exactly.
    pub fn from_token(t: &[u8]) -> (r: Result<RequestMethod, ServerError>)
        ensures
            match method_of_token(t@) {
                Some(m) => r == Ok::<RequestMethod, ServerError>(m),
                None => r == Err::<RequestMethod, ServerError>(
                    ServerError::IncorrectHttpMethodError,
                ),
            },
    {
        if t.len() == 3 && t[0] == 71 && t[1] == 69 && t[2] == 84 {
            assert(t@ =~= seq![71u8, 69u8, 84u8]);
            Ok(RequestMethod::Get)
        } else if t.len() == 4 && t[0] == 80 && t[1] == 79 && t[2] == 83 && t[3] == 84 {
            assert(t@ =~= seq![80u8, 79u8, 83u8, 84u8]);
            Ok(RequestMethod::Post)
        } else {
            Err(ServerError::IncorrectHttpMethodError)
        }
    }
}

impl std::str::FromStr for RequestMethod {
    type Err = ServerError;

    fn from_str(s: &str) -> Result<RequestMethod, ServerError> {
        RequestMethod::from_token(s.as_bytes())
    }
}

/// The first index at or after `i` where the byte `x` stands.
pub open spec fn find_byte_from(b: Seq<u8>, i: int, x: u8) -> Option<int>
    decreases b.len() - i,
{
    if i < 0 || i >= b.len() {
        None
    } else if b[i] == x {
        Some(i)
    } else {
        find_byte_from(b, i + 1, x)
    }
}

/// What the search for a byte finds: the first place where it stands.
pub proof fn lemma_find_byte(b: Seq<u8>, i: int, x: u8)
    requires
        0 <= i,
    ensures
        match find_byte_from(b, i, x) {
            Some(k) => i <= k < b.len() && b[k] == x && forall|j: int| i <= j < k ==> b[j] != x,
            None => forall|j: int| i <= j < b.len() ==> b[j] != x,
        },
    decreases b.len() - i,
{
    if i < b.len() && b[i] != x {
        lemma_find_byte(b, i + 1, x);
    }
}

/// The first index at or after `from` where the byte `x` stands.
pub fn find_byte(b: &[u8], from: usize, x: u8) -> (r: Option<usize>)
    ensures
        find_byte_from(b@, from as int, x) == match r {
            Some(i) => Some(i as int),
            None => None::<int>,
        },
{
    let n = b.len();
    let mut i: usize = from;
    while i < n
        invariant
            n == b@.len(),
            from <= i,
            find_byte_from(b@, from as int, x) == find_byte_from(b@, i as int, x),
        decreases n - i,
    {
        if b[i] == x {
            return Some(i);
        }
        i = i + 1;
    }
    None
}

/// The end of the token of `line` that starts at `from`: the next space, or
/// the end of the line.
pub open spec fn token_end(line: Seq<u8>, from: int) -> int {
    match find_byte_from(line, from, 32) {
        Some(i) => i,
        None => line.len() as int,
    }
}

/// The method and the path that a request line names: its first two tokens
/// when the line is split on single spaces.
pub open spec fn request_line_of(line: Seq<u8>) -> Result<(RequestMethod, Seq<char>), ServerError> {
    match method_of_token(line.subrange(0, token_end(line, 0))) {
        None => Err(ServerError::IncorrectHttpMethodError),
        Some(m) => match find_byte_from(line, 0, 32) {
            None => Err(ServerError::IncorrectRequestLineError),
            Some(s) => {
                let p = line.subrange(s + 1, token_end(line, s + 1));
                if valid_utf8(p) {
                    Ok((m, decode_utf8(p)))
                } else {
                    Err(ServerError::IncorrectRequestLineError)
                }
            },
        },
    }
}

/// The method and the path of a request line (without its line end).
pub fn parse_request_line(line: &[u8]) -> (r: Result<(RequestMethod, String), ServerError>)
    ensures
        match r {
            Ok((m, p)) => request_line_of(line@) == Ok::<(RequestMethod, Seq<char>), ServerError>(
                (m, p@),
            ),
            Err(e) => request_line_of(line@) == Err::<(RequestMethod, Seq<char>), ServerError>(e),
        },
{
    let n = line.len();
    let first_space = find_byte(line, 0, 32);
    proof {
        lemma_find_byte(line@, 0, 32);
    }
    let method_end = match first_space {
        Some(i) => i,
        None => n,
    };
    let method_token = copy_range(line, 0, method_end);
    let method = match RequestMethod::from_token(method_token.as_slice()) {
        Ok(m) => m,
        Err(e) => return Err(e),
    };
    let s = match first_space {
        None => return Err(ServerError::IncorrectRequestLineError),
        Some(s) => s,
    };
    let path_end = match find_byte(line, s + 1, 32) {
        Some(j) => j,
        None => n,
    };
    proof {
        lemma_find_byte(line@, s + 1, 32);
    }
    let path_bytes = copy_range(line, s + 1, path_end);
    match utf8_to_string(path_bytes) {
        None => Err(ServerError::IncorrectRequestLineError),
        Some(path) => Ok((method, path)),
    }
}

/// The value of a string of decimal digits.
pub open spec fn digits_value(d: Seq<u8>) -> nat
    decreases d.len(),
{
    if d.len() == 0 {
        0
    } else {
        digits_value(d.drop_last()) * 10 + (d.last() - 48) as nat
    }
}

pub open spec fn is_digit(c: u8) -> bool {
    48 <= c <= 57
}

/// The digits of a decimal number, past an optional leading `+`.
pub open spec fn unsigned_digits(b: Seq<u8>) -> Seq<u8> {
    if b.len() > 0 && b[0] == 43 {
        b.drop_first()
    } else {
        b
    }
}

/// The non-negative integer that `b` writes in decimal (an optional `+`,
/// then one digit or more), if it fits in a `usize`.
pub open spec fn decimal_value(b: Seq<u8>) -> Option<nat> {
    let d = unsigned_digits(b);
    if d.len() > 0 && (forall|i: int| 0 <= i < d.len() ==> is_digit(#[trigger] d[i])) && digits_value(
        d,
    ) <= usize::MAX {
        Some(digits_value(d))
    } else {
        None
    }
}

/// A longer string of digits is worth at least as much as its prefix.
proof fn lemma_digits_value_prefix(d: Seq<u8>, j: int)
    requires
        0 <= j <= d.len(),
        forall|i: int| 0 <= i < d.len() ==> is_digit(#[trigger] d[i]),
    ensures
        digits_value(d.subrange(0, j)) <= digits_value(d),
    decreases d.len(),
{
    if j < d.len() {
        assert(d.drop_last() =~= d.subrange(0, d.len() - 1));
        lemma_digits_value_prefix(d.drop_last(), j);
        assert(d.drop_last().subrange(0, j) =~= d.subrange(0, j));
    } else {
        assert(d.subrange(0, j) =~= d);
    }
}

/// The number that `b` writes in decimal; see `decimal_value`.
pub fn parse_decimal(b: &[u8]) -> (r: Option<usize>)
    ensures
        match r {
            Some(n) => decimal_value(b@) == Some(n as nat),
            None => decimal_value(b@) is None,
        },
{
    let n = b.len();
    let start: usize = if n > 0 && b[0] == 43 {
        1
    } else {
        0
    };
    let ghost d = unsigned_digits(b@);
    assert(d =~= b@.subrange(start as int, n as int));
    if start >= n {
        return None;
    }
    let mut acc: usize = 0;
    let mut i: usize = start;
    while i < n
        invariant
            n == b@.len(),
            start <= i <= n,
            d == b@.subrange(start as int, n as int),
            d == unsigned_digits(b@),
            acc == digits_value(d.subrange(0, i - start)),
            forall|j: int| 0 <= j < i - start ==> is_digit(#[trigger] d[j]),
        decreases n - i,
    {
        let c = b[i];
        if c < 48 || c > 57 {
            assert(!is_digit(d[i - start]));
            return None;
        }
        let digit = (c - 48) as usize;
        let ghost next = d.subrange(0, i + 1 - start);
        assert(next.drop_last() =~= d.subrange(0, i - start));
        if acc > (usize::MAX - digit) / 10 {
            proof {
                assert(acc * 10 + digit > usize::MAX) by (nonlinear_arith)
                    requires
                        acc > (usize::MAX - digit) / 10,
                        digit <= 9,
                ;
                if forall|j: int| 0 <= j < d.len() ==> is_digit(#[trigger] d[j]) {
                    lemma_digits_value_prefix(d, i + 1 - start);
                }
            }
            return None;
        }
        assert(acc * 10 + digit <= usize::MAX) by (nonlinear_arith)
            requires
                acc <= (usize::MAX - digit) / 10,
                digit <= 9,
        ;
        acc = acc * 10 + digit;
        i = i + 1;
    }
    assert(d.subrange(0, d.len() as int) =~= d);
    Some(acc)
}

/// Where the framer stands in a request: it moves only forward.
#[derive(Debug, Clone, Copy, PartialEq, Eq, Structural)]
pub enum ParseStage {
    RequestLine,
    Headers,
    RequestBody,
}

/// What the framer knows of a request after some complete lines of its head.
pub struct FramerState {
    pub stage: ParseStage,
    pub method: RequestMethod,
    pub path: Seq<char>,
    pub headers: Seq<HeaderModel>,
    pub body_length: Option<nat>,
    pub failure: Option<ServerError>,
}

/// The framer before any byte has come.
pub open spec fn initial_state() -> FramerState {
    FramerState {
        stage: ParseStage::RequestLine,
        method: RequestMethod::Get,
        path: Seq::empty(),
        headers: Seq::empty(),
        body_length: None,
        failure: None,
    }
}

/// The body length that a `Content-Length` value declares.
pub open spec fn content_length_of(value: Seq<char>) -> Option<nat> {
    decimal_value(encode_utf8(value))
}

/// The framer after one more complete line of the head (without its line end).
pub open spec fn step_line(s: FramerState, line: Seq<u8>) -> FramerState {
    match s.stage {
        ParseStage::RequestLine => match request_line_of(line) {
            Err(e) => FramerState { failure: Some(e), ..s },
            Ok((m, p)) => FramerState { stage: ParseStage::Headers, method: m, path: p, ..s },
        },
        ParseStage::Headers => if line.len() == 0 {
            FramerState { stage: ParseStage::RequestBody, ..s }
        } else {
            match header_of_line(line) {
                Err(e) => FramerState { failure: Some(e), ..s },
                Ok(h) => if h.0 == HeaderType::ContentLength.name() {
                    match content_length_of(h.1) {
                        None => FramerState { failure: Some(ServerError::IncorrectHeaderError), ..s },
                        Some(n) => FramerState {
                            headers: s.headers.push(h),
                            body_length: Some(n),
                            ..s
                        },
                    }
                } else {
                    FramerState { headers: s.headers.push(h), ..s }
                },
            }
        },
        ParseStage::RequestBody => s,
    }
}

/// The framer takes no more lines: it has failed or reached the body.
pub open spec fn past_head(s: FramerState) -> bool {
    s.failure is Some || s.stage == ParseStage::RequestBody
}

/// The framer after every complete line of `buf`, with the bytes it has not
/// taken as lines (once in the body: the body so far).
pub open spec fn advance(s: FramerState, buf: Seq<u8>) -> (FramerState, Seq<u8>)
    decreases buf.len(),
{
    if past_head(s) {
        (s, buf)
    } else {
        match find_pair_from(buf, 0, 13, 10) {
            None => (s, buf),
            Some(k) => if 0 <= k && k + 2 <= buf.len() {
                advance(step_line(s, buf.subrange(0, k)), buf.subrange(k + 2, buf.len() as int))
            } else {
                (s, buf)
            },
        }
    }
}

/// The framer after all of `data`, the bytes received so far.
pub open spec fn frame(data: Seq<u8>) -> (FramerState, Seq<u8>) {
    advance(initial_state(), data)
}

/// After `data`, the framer wants more bytes: its head is incomplete, or
/// the body is shorter than declared, or no length was declared (the caller
/// then reads until the peer closes or falls idle).
pub open spec fn wants_more(data: Seq<u8>) -> bool {
    let (s, rest) = frame(data);
    s.failure is None && (s.stage != ParseStage::RequestBody || match s.body_length {
        Some(n) => rest.len() < n,
        None => true,
    })
}

/// A request as the contracts see it.
pub struct RequestModel {
    pub method: RequestMethod,
    pub path: Seq<char>,
    pub headers: Seq<HeaderModel>,
    pub body: Seq<u8>,
}

/// The request that the bytes `data` frame, once no more will be read.
pub open spec fn request_of(data: Seq<u8>) -> Result<RequestModel, ServerError> {
    let (s, rest) = frame(data);
    match s.failure {
        Some(e) => Err(e),
        None => if s.stage != ParseStage::RequestBody {
            Err(ServerError::IncorrectRequestFormatError)
        } else {
            Ok(RequestModel { method: s.method, path: s.path, headers: s.headers, body: rest })
        },
    }
}

/// Lines are taken the same way whether their bytes come at once or in
/// pieces: feeding `b` then `c` is feeding `b + c`.
pub proof fn lemma_advance_append(s: FramerState, b: Seq<u8>, c: Seq<u8>)
    ensures
        advance(s, b + c) == advance(advance(s, b).0, advance(s, b).1 + c),
    decreases b.len(),
{
    if !past_head(s) {
        lemma_find_pair(b, 0, 13, 10);
        match find_pair_from(b, 0, 13, 10) {
            None => {},
            Some(k) => {
                lemma_find_pair_extend(b, c, 0, 13, 10);
                let bc = b + c;
                assert(bc.subrange(0, k) =~= b.subrange(0, k));
                assert(bc.subrange(k + 2, bc.len() as int) =~= b.subrange(k + 2, b.len() as int) + c);
                lemma_advance_append(step_line(s, b.subrange(0, k)), b.subrange(k + 2, b.len() as int), c);
            },
        }
    }
}

/// `advance` leaves no complete line untaken.
pub proof fn lemma_advance_settled(s: FramerState, b: Seq<u8>)
    ensures
        past_head(advance(s, b).0) || find_pair_from(advance(s, b).1, 0, 13, 10) is None,
    decreases b.len(),
{
    if !past_head(s) {
        lemma_find_pair(b, 0, 13, 10);
        match find_pair_from(b, 0, 13, 10) {
            None => {},
            Some(k) => {
                lemma_advance_settled(step_line(s, b.subrange(0, k)), b.subrange(k + 2, b.len() as int));
            },
        }
    }
}

/// A request taken apart: its method, its path, its headers in order, and
/// its body bytes.
pub struct RequestContent {
    pub path: String,
    pub method: RequestMethod,
    pub headers: Vec<Header>,
    pub body: Vec<u8>,
}

impl View for RequestContent {
    type V = RequestModel;

    open spec fn view(&self) -> RequestModel {
        RequestModel {
            method: self.method,
            path: self.path@,
            headers: headers_view(self.headers@),
            body: self.body@,
        }
    }
}

/// A parse result, seen through the model of the request.
pub open spec fn parsed_view(r: Result<RequestContent, ServerError>) -> Result<RequestModel, ServerError> {
    match r {
        Ok(c) => Ok(c@),
        Err(e) => Err(e),
    }
}

/// The request framer of one connection. It takes the bytes as they come,
/// in pieces of any size, takes each complete line of the head as soon as
/// it has come, and holds what follows the head as the body.
pub struct RequestParser {
    stage: ParseStage,
    method: RequestMethod,
    path: String,
    headers: Vec<Header>,
    body_length: Option<usize>,
    failure: Option<ServerError>,
    buffer: Vec<u8>,
    received: Ghost<Seq<u8>>,
}

impl RequestParser {
    /// All the bytes this framer has been given.
    pub closed spec fn received(&self) -> Seq<u8> {
        self.received@
    }

    closed spec fn state(&self) -> FramerState {
        FramerState {
            stage: self.stage,
            method: self.method,
            path: self.path@,
            headers: headers_view(self.headers@),
            body_length: match self.body_length {
                Some(n) => Some(n as nat),
                None => None,
            },
            failure: self.failure,
        }
    }

    /// The framer's state is what its bytes frame.
    pub closed spec fn wf(&self) -> bool {
        frame(self.received@) == (self.state(), self.buffer@)
    }

    /// A framer that has been given nothing yet.
    pub fn new() -> (r: RequestParser)
        ensures
            r.wf(),
            r.received() == Seq::<u8>::empty(),
    {
        let r = RequestParser {
            stage: ParseStage::RequestLine,
            method: RequestMethod::Get,
            path: String::new(),
            headers: Vec::new(),
            body_length: None,
            failure: None,
            buffer: Vec::new(),
            received: Ghost(Seq::empty()),
        };
        assert(headers_view(r.headers@) =~= Seq::<HeaderModel>::empty());
        r
    }

    /// Takes one complete line of the head.
    fn take_line(&mut self, line: &[u8])
        requires
            !past_head(old(self).state()),
        ensures
            final(self).state() == step_line(old(self).state(), line@),
            final(self).buffer == old(self).buffer,
            final(self).received == old(self).received,
    {
        match self.stage {
            ParseStage::RequestLine => match parse_request_line(line) {
                Err(e) => {
                    self.failure = Some(e);
                },
                Ok((m, p)) => {
                    self.method = m;
                    self.path = p;
                    self.stage = ParseStage::Headers;
                },
            },
            ParseStage::Headers => {
                if line.len() == 0 {
                    self.stage = ParseStage::RequestBody;
                    return;
                }
                match Header::from_line(line) {
                    Err(e) => {
                        self.failure = Some(e);
                    },
                    Ok(h) => {
                        let ghost pushed = headers_view(self.headers@).push(h@);
                        let content_length = HeaderType::ContentLength.to_string();
                        if h.key == content_length {
                            match parse_decimal(h.value.as_str().as_bytes()) {
                                None => {
                                    self.failure = Some(ServerError::IncorrectHeaderError);
                                },
                                Some(n) => {
                                    self.body_length = Some(n);
                                    self.headers.push(h);
                                    assert(headers_view(self.headers@) =~= pushed);
                                },
                            }
                        } else {
                            self.headers.push(h);
                            assert(headers_view(self.headers@) =~= pushed);
                        }
                    },
                }
            },
            ParseStage::RequestBody => {},
        }
    }

    /// Gives the framer the next bytes of the connection. It fails, with the
    /// error that the bytes received so far give, as soon as they show the
    /// request to be malformed.
    pub fn feed(&mut self, chunk: &[u8]) -> (r: Result<(), ServerError>)
        requires
            old(self).wf(),
        ensures
            final(self).wf(),
            final(self).received() == old(self).received() + chunk@,
            r == match frame(final(self).received()).0.failure {
                Some(e) => Err::<(), ServerError>(e),
                None => Ok(()),
            },
    {
        proof {
            lemma_advance_append(initial_state(), self.received@, chunk@);
        }
        append_bytes(&mut self.buffer, chunk);
        self.received = Ghost(self.received@ + chunk@);
        while self.failure.is_none() && self.stage != ParseStage::RequestBody
            invariant
                self.received@ == old(self).received@ + chunk@,
                frame(self.received@) == advance(self.state(), self.buffer@),
            ensures
                self.received@ == old(self).received@ + chunk@,
                frame(self.received@) == (self.state(), self.buffer@),
            decreases self.buffer@.len(),
        {
            let found = find_pair(self.buffer.as_slice(), 0, 13, 10);
            proof {
                lemma_find_pair(self.buffer@, 0, 13, 10);
            }
            match found {
                None => break,
                Some(k) => {
                    let n = self.buffer.len();
                    let line = copy_range(self.buffer.as_slice(), 0, k);
                    self.buffer = copy_range(self.buffer.as_slice(), k + 2, n);
                    self.take_line(line.as_slice());
                },
            }
        }
        match self.failure {
            Some(e) => Err(e),
            None => Ok(()),
        }
    }

    /// Whether the caller should read more bytes before finishing: see
    /// `wants_more`.
    pub fn needs_more(&self) -> (r: bool)
        requires
            self.wf(),
        ensures
            r == wants_more(self.received()),
    {
        if self.failure.is_some() {
            return false;
        }
        match self.stage {
            ParseStage::RequestBody => match self.body_length {
                Some(n) => self.buffer.len() < n,
                None => true,
            },
            _ => true,
        }
    }

    /// Whether the head has ended and the framer now takes body bytes.
    pub fn body_started(&self) -> (r: bool)
        requires
            self.wf(),
        ensures
            r == (frame(self.received()).0.failure is None && frame(self.received()).0.stage
                == ParseStage::RequestBody),
    {
        self.failure.is_none() && self.stage == ParseStage::RequestBody
    }

    /// The request, once no more bytes will be read: what the head named,
    /// with every byte after it as the body. A head that never ended is a
    /// format error.
    pub fn finish(self) -> (r: Result<RequestContent, ServerError>)
        requires
            self.wf(),
        ensures
            parsed_view(r) == request_of(self.received()),
    {
        if let Some(e) = self.failure {
            return Err(e);
        }
        if self.stage != ParseStage::RequestBody {
            return Err(ServerError::IncorrectRequestFormatError);
        }
        Ok(RequestContent {
            path: self.path,
            method: self.method,
            headers: self.headers,
            body: self.buffer,
        })
    }
}

impl RequestContent {
    /// The request that the bytes of a whole connection frame, read until the
    /// framer wanted no more or the peer stopped sending.
    pub fn parse_request(data: &[u8]) -> (r: Result<RequestContent, ServerError>)
        ensures
            parsed_view(r) == request_of(data@),
    {
        let mut parser = RequestParser::new();
        let _ = parser.feed(data);
        assert(Seq::<u8>::empty() + data@ =~= data@);
        parser.finish()
    }
}

/// A byte that is found at `n`, and nowhere before, is found at `n`.
proof fn lemma_find_byte_at(b: Seq<u8>, i: int, n: int, x: u8)
    requires
        0 <= i <= n < b.len(),
        b[n] == x,
        forall|j: int| i <= j < n ==> b[j] != x,
    ensures
        find_byte_from(b, i, x) == Some(n),
{
    lemma_find_byte(b, i, x);
}

/// A byte pair that stands at `n`, with no `x` before it, is found at `n`.
proof fn lemma_find_pair_at(b: Seq<u8>, n: int, x: u8, y: u8)
    requires
        pair_at(b, n, x, y),
        forall|j: int| 0 <= j < n ==> b[j] != x,
    ensures
        find_pair_from(b, 0, x, y) == Some(n),
{
    lemma_find_pair(b, 0, x, y);
}

/// A method token names no space and no carriage return.
proof fn lemma_method_token_bytes(t: Seq<u8>)
    requires
        method_of_token(t) is Some,
    ensures
        forall|i: int| 0 <= i < t.len() ==> t[i] != 32 && t[i] != 13,
{
}

/// For every request line `<METHOD> <PATH> <VERSION>` whose method this
/// server knows and whose path holds no space, the parsed method is the
/// first token and the parsed path is the second, byte for byte.
pub proof fn lemma_request_line_tokens(method: Seq<u8>, path: Seq<u8>, version: Seq<u8>)
    requires
        method_of_token(method) is Some,
        forall|i: int| 0 <= i < path.len() ==> path[i] != 32,
        valid_utf8(path),
    ensures
        request_line_of(method + seq![32u8] + path + seq![32u8] + version) == Ok::<
            (RequestMethod, Seq<char>),
            ServerError,
        >((method_of_token(method)->0, decode_utf8(path))),
        encode_utf8(decode_utf8(path)) == path,
{
    let line = method + seq![32u8] + path + seq![32u8] + version;
    let m = method.len() as int;
    let p_end = m + 1 + path.len();
    lemma_method_token_bytes(method);
    lemma_find_byte_at(line, 0, m, 32);
    lemma_find_byte_at(line, m + 1, p_end, 32);
    assert(line.subrange(0, m) =~= method);
    assert(line.subrange(m + 1, p_end) =~= path);
    vstd::utf8::decode_utf8_encode_utf8(path);
}

/// The bytes of a block of header lines, each ended by `"\r\n"`.
pub open spec fn header_block(lines: Seq<Seq<u8>>) -> Seq<u8>
    decreases lines.len(),
{
    if lines.len() == 0 {
        Seq::empty()
    } else {
        lines[0] + seq![13u8, 10u8] + header_block(lines.drop_first())
    }
}

/// A header line that the framer takes as a header other than
/// `Content-Length`: not empty, with no carriage return in it.
pub open spec fn plain_header_line(line: Seq<u8>) -> bool {
    &&& line.len() > 0
    &&& forall|i: int| 0 <= i < line.len() ==> line[i] != 13
    &&& header_of_line(line) matches Ok(h) && h.0 != HeaderType::ContentLength.name()
}

/// The headers that plain header lines hold, in order.
pub open spec fn headers_of_lines(lines: Seq<Seq<u8>>) -> Seq<HeaderModel> {
    lines.map_values(|l: Seq<u8>| header_of_line(l)->Ok_0)
}

/// From the headers stage, plain header lines, a blank line and any bytes
/// after it frame as those headers, in order, with those bytes as the body.
proof fn lemma_header_block(s: FramerState, lines: Seq<Seq<u8>>, body: Seq<u8>)
    requires
        s.stage == ParseStage::Headers,
        s.failure is None,
        forall|i: int| 0 <= i < lines.len() ==> plain_header_line(#[trigger] lines[i]),
    ensures
        advance(s, header_block(lines) + seq![13u8, 10u8] + body) == (
        FramerState {
            stage: ParseStage::RequestBody,
            headers: s.headers + headers_of_lines(lines),
            ..s
        },
        body,
        ),
    decreases lines.len(),
{
    let data = header_block(lines) + seq![13u8, 10u8] + body;
    if lines.len() == 0 {
        assert(data =~= seq![13u8, 10u8] + body);
        lemma_find_pair_at(data, 0, 13, 10);
        assert(data.subrange(0, 0) =~= Seq::<u8>::empty());
        assert(data.subrange(2, data.len() as int) =~= body);
        assert(s.headers + headers_of_lines(lines) =~= s.headers);
        let s1 = step_line(s, data.subrange(0, 0));
        assert(advance(s1, body) == (s1, body));
    } else {
        let line = lines[0];
        let tail = lines.drop_first();
        let rest = header_block(tail) + seq![13u8, 10u8] + body;
        assert(data =~= line + seq![13u8, 10u8] + rest);
        assert(plain_header_line(lines[0]));
        assert forall|j: int| 0 <= j < line.len() implies data[j] != 13 by {
            assert(data[j] == line[j]);
        }
        lemma_find_pair_at(data, line.len() as int, 13, 10);
        assert(data.subrange(0, line.len() as int) =~= line);
        assert(data.subrange(line.len() as int + 2, data.len() as int) =~= rest);
        let h = header_of_line(line)->Ok_0;
        let s1 = step_line(s, line);
        assert(s1 == FramerState { headers: s.headers.push(h), ..s });
        assert forall|i: int| 0 <= i < tail.len() implies plain_header_line(#[trigger] tail[i]) by {
            assert(tail[i] == lines[i + 1]);
        }
        lemma_header_block(s1, tail, body);
        assert(s.headers.push(h) + headers_of_lines(tail) =~= s.headers + headers_of_lines(lines));
    }
}

/// For every well-formed request `<METHOD> <PATH> <VERSION>\r\n`, then
/// header lines other than `Content-Length`, a blank line and any body
/// bytes: the method and the path are the request line's first two tokens,
/// byte for byte, the headers are those lines' headers in order, and the
/// body is the bytes after the blank line.
pub proof fn lemma_request_framed(
    method: Seq<u8>,
    path: Seq<u8>,
    version: Seq<u8>,
    lines: Seq<Seq<u8>>,
    body: Seq<u8>,
)
    requires
        method_of_token(method) is Some,
        forall|i: int| 0 <= i < path.len() ==> path[i] != 32 && path[i] != 13,
        forall|i: int| 0 <= i < version.len() ==> version[i] != 13,
        valid_utf8(path),
        forall|i: int| 0 <= i < lines.len() ==> plain_header_line(#[trigger] lines[i]),
    ensures
        request_of(
            method + seq![32u8] + path + seq![32u8] + version + seq![13u8, 10u8] + header_block(lines)
                + seq![13u8, 10u8] + body,
        ) == Ok::<RequestModel, ServerError>(
            RequestModel {
                method: method_of_token(method)->0,
                path: decode_utf8(path),
                headers: headers_of_lines(lines),
                body,
            },
        ),
{
    let line = method + seq![32u8] + path + seq![32u8] + version;
    let rest = header_block(lines) + seq![13u8, 10u8] + body;
    let data = method + seq![32u8] + path + seq![32u8] + version + seq![13u8, 10u8] + header_block(
        lines,
    ) + seq![13u8, 10u8] + body;
    assert(data =~= line + seq![13u8, 10u8] + rest);
    lemma_request_line_tokens(method, path, version);
    lemma_method_token_bytes(method);
    assert forall|j: int| 0 <= j < line.len() implies data[j] != 13 by {
        assert(data[j] == line[j]);
    }
    lemma_find_pair_at(data, line.len() as int, 13, 10);
    assert(data.subrange(0, line.len() as int) =~= line);
    assert(data.subrange(line.len() as int + 2, data.len() as int) =~= rest);
    let s1 = step_line(initial_state(), line);
    lemma_header_block(s1, lines, body);
    assert(Seq::<HeaderModel>::empty() + headers_of_lines(lines) =~= headers_of_lines(lines));
}

/// A request whose first line is a single token, with no path, is refused:
/// nothing is framed, so nothing is answered. A known method alone is a
/// request line error.
pub proof fn lemma_single_token_rejected(token: Seq<u8>, rest: Seq<u8>)
    requires
        forall|i: int| 0 <= i < token.len() ==> token[i] != 32 && token[i] != 13,
    ensures
        request_line_of(token) is Err,
        request_of(token + seq![13u8, 10u8] + rest) is Err,
        method_of_token(token) is Some ==> request_of(token + seq![13u8, 10u8] + rest) == Err::<
            RequestModel,
            ServerError,
        >(ServerError::IncorrectRequestLineError),
{
    let data = token + seq![13u8, 10u8] + rest;
    lemma_find_byte(token, 0, 32);
    assert(token.subrange(0, token.len() as int) =~= token);
    assert forall|j: int| 0 <= j < token.len() implies data[j] != 13 by {
        assert(data[j] == token[j]);
    }
    lemma_find_pair_at(data, token.len() as int, 13, 10);
    assert(data.subrange(0, token.len() as int) =~= token);
    let s1 = step_line(initial_state(), token);
    let after = data.subrange(token.len() as int + 2, data.len() as int);
    assert(s1.failure == Some(request_line_of(token)->Err_0));
    assert(advance(initial_state(), data) == advance(s1, after));
    assert(advance(s1, after) == (s1, after));
}

/// The order of the stages: request line, headers, body.
pub open spec fn stage_rank(stage: ParseStage) -> int {
    match stage {
        ParseStage::RequestLine => 0,
        ParseStage::Headers => 1,
        ParseStage::RequestBody => 2,
    }
}

/// Taking lines never moves the framer back, and a failure stays.
proof fn lemma_advance_forward(s: FramerState, b: Seq<u8>)
    ensures
        stage_rank(s.stage) <= stage_rank(advance(s, b).0.stage),
        s.failure is Some ==> advance(s, b).0.failure == s.failure,
    decreases b.len(),
{
    if !past_head(s) {
        lemma_find_pair(b, 0, 13, 10);
        match find_pair_from(b, 0, 13, 10) {
            None => {},
            Some(k) => {
                lemma_advance_forward(step_line(s, b.subrange(0, k)), b.subrange(k + 2, b.len() as int));
            },
        }
    }
}

/// As more bytes come, the framer's stage only moves forward, and once the
/// bytes show a request to be malformed, more bytes never mend it.
pub proof fn lemma_stage_never_regresses(data: Seq<u8>, more: Seq<u8>)
    ensures
        stage_rank(frame(data).0.stage) <= stage_rank(frame(data + more).0.stage),
        frame(data).0.failure is Some ==> frame(data + more).0.failure == frame(data).0.failure,
{
    lemma_advance_append(initial_state(), data, more);
    lemma_advance_forward(frame(data).0, frame(data).1 + more);
}

} // verus!
