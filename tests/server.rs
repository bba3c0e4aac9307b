use std::io::Read;

use http_server_starter_rust::config::Config;
use http_server_starter_rust::encoding::{encode, first_supported, negotiate_encoding, AvailableEncodings};
use http_server_starter_rust::error::ServerError;
use http_server_starter_rust::header::{find_pair, Header, HeaderType};
use http_server_starter_rust::request::{
    parse_decimal, parse_request_line, RequestContent, RequestMethod, RequestParser,
};
use http_server_starter_rust::response::{
    build_response, decimal_string, file_response, finish_response, ServerResponse,
};
use http_server_starter_rust::router::{file_action, respond, route, FileAction, Route};
use http_server_starter_rust::utils::{extract_filename_from_request_path, str_starts_with};

fn parse(data: &[u8]) -> RequestContent {
    match RequestContent::parse_request(data) {
        Ok(c) => c,
        Err(e) => panic!("request did not parse: {:?}", e),
    }
}

fn parse_err(data: &[u8]) -> ServerError {
    match RequestContent::parse_request(data) {
        Ok(_) => panic!("request parsed"),
        Err(e) => e,
    }
}

fn answer(data: &[u8], contents: Option<Vec<u8>>) -> Vec<u8> {
    let content = parse(data);
    respond(&content, contents).unwrap()
}

fn gunzip(data: &[u8]) -> Vec<u8> {
    let mut out = Vec::new();
    flate2::read::GzDecoder::new(data).read_to_end(&mut out).unwrap();
    out
}

fn split_head(response: &[u8]) -> (String, Vec<u8>) {
    let at = response.windows(4).position(|w| w == b"\r\n\r\n").unwrap();
    (String::from_utf8(response[..at].to_vec()).unwrap(), response[at + 4..].to_vec())
}

#[test]
fn request_line_tokens_are_method_and_path() {
    let (m, p) = parse_request_line(b"GET /echo/abc HTTP/1.1").unwrap();
    assert_eq!(m, RequestMethod::Get);
    assert_eq!(p, "/echo/abc");
    let (m, p) = parse_request_line(b"POST /files/a/b.txt HTTP/1.1").unwrap();
    assert_eq!(m, RequestMethod::Post);
    assert_eq!(p, "/files/a/b.txt");
}

#[test]
fn request_line_framed_whole() {
    let c = parse(b"GET /index.html HTTP/1.1\r\n\r\n");
    assert_eq!(c.method, RequestMethod::Get);
    assert_eq!(c.path, "/index.html");
    assert!(c.headers.is_empty());
    assert!(c.body.is_empty());
}

#[test]
fn unknown_method_is_refused() {
    assert_eq!(parse_err(b"PUT / HTTP/1.1\r\n\r\n"), ServerError::IncorrectHttpMethodError);
    assert_eq!(parse_err(b"get / HTTP/1.1\r\n\r\n"), ServerError::IncorrectHttpMethodError);
}

#[test]
fn single_token_request_line_is_refused() {
    assert_eq!(parse_err(b"GET\r\n\r\n"), ServerError::IncorrectRequestLineError);
    assert_eq!(parse_err(b"HELLO\r\n\r\n"), ServerError::IncorrectHttpMethodError);
    assert_eq!(parse_request_line(b"GET").unwrap_err(), ServerError::IncorrectRequestLineError);
}

#[test]
fn single_token_request_fails_on_first_piece() {
    let mut p = RequestParser::new();
    assert_eq!(p.feed(b"GET\r\n"), Err(ServerError::IncorrectRequestLineError));
    assert!(!p.needs_more());
}

#[test]
fn unfinished_head_is_a_format_error() {
    assert_eq!(parse_err(b"GET / HTTP/1.1\r\nHost: x\r\n"), ServerError::IncorrectRequestFormatError);
    assert_eq!(parse_err(b""), ServerError::IncorrectRequestFormatError);
}

#[test]
fn headers_are_kept_in_order() {
    let c = parse(b"GET / HTTP/1.1\r\nHost: localhost:4221\r\nAccept: */*\r\nX-A: 1\r\n\r\n");
    let keys: Vec<&str> = c.headers.iter().map(|h| h.key.as_str()).collect();
    let values: Vec<&str> = c.headers.iter().map(|h| h.value.as_str()).collect();
    assert_eq!(keys, vec!["Host", "Accept", "X-A"]);
    assert_eq!(values, vec!["localhost:4221", "*/*", "1"]);
}

#[test]
fn header_without_separator_is_refused() {
    assert_eq!(parse_err(b"GET / HTTP/1.1\r\nHost\r\n\r\n"), ServerError::IncorrectHeaderError);
    assert_eq!(parse_err(b"GET / HTTP/1.1\r\nHost:x\r\n\r\n"), ServerError::IncorrectHeaderError);
}

#[test]
fn header_with_two_separators_is_refused() {
    assert!(Header::from_line(b"A: b: c").is_err());
    let h = Header::from_line(b"A:: b").unwrap();
    assert_eq!(h.key, "A:");
    assert_eq!(h.value, "b");
}

#[test]
fn header_with_empty_value_is_kept() {
    let h = Header::from_line(b"X-Empty: ").unwrap();
    assert_eq!(h.key, "X-Empty");
    assert_eq!(h.value, "");
}

#[test]
fn bad_content_length_is_refused() {
    assert_eq!(
        parse_err(b"POST /files/a HTTP/1.1\r\nContent-Length: abc\r\n\r\n"),
        ServerError::IncorrectHeaderError
    );
    assert_eq!(
        parse_err(b"POST /files/a HTTP/1.1\r\nContent-Length: -1\r\n\r\n"),
        ServerError::IncorrectHeaderError
    );
}

#[test]
fn decimal_parsing() {
    assert_eq!(parse_decimal(b"0"), Some(0));
    assert_eq!(parse_decimal(b"1234"), Some(1234));
    assert_eq!(parse_decimal(b"+5"), Some(5));
    assert_eq!(parse_decimal(b"007"), Some(7));
    assert_eq!(parse_decimal(b""), None);
    assert_eq!(parse_decimal(b"+"), None);
    assert_eq!(parse_decimal(b"1 2"), None);
    assert_eq!(parse_decimal(b"18446744073709551615"), Some(usize::MAX));
    assert_eq!(parse_decimal(b"18446744073709551616"), None);
    assert_eq!(parse_decimal(b"99999999999999999999999"), None);
}

#[test]
fn decimal_formatting() {
    assert_eq!(decimal_string(0), "0");
    assert_eq!(decimal_string(7), "7");
    assert_eq!(decimal_string(10), "10");
    assert_eq!(decimal_string(4096), "4096");
    assert_eq!(decimal_string(usize::MAX), usize::MAX.to_string());
}

#[test]
fn body_is_framed_by_content_length() {
    let mut p = RequestParser::new();
    assert_eq!(p.feed(b"POST /files/a HTTP/1.1\r\nContent-Length: 5\r\n\r\nhel"), Ok(()));
    assert!(p.needs_more());
    assert_eq!(p.feed(b"lo"), Ok(()));
    assert!(!p.needs_more());
    let c = p.finish().unwrap();
    assert_eq!(c.method, RequestMethod::Post);
    assert_eq!(c.body, b"hello".to_vec());
}

#[test]
fn body_without_length_waits_for_the_peer() {
    let mut p = RequestParser::new();
    assert_eq!(p.feed(b"GET / HTTP/1.1\r\nHost: x\r\n"), Ok(()));
    assert!(!p.body_started());
    assert_eq!(p.feed(b"\r\n"), Ok(()));
    assert!(p.body_started());
    assert!(p.needs_more());
    let c = p.finish().unwrap();
    assert!(c.body.is_empty());
}

#[test]
fn line_end_split_between_pieces() {
    let whole: &[u8] = b"GET /user-agent HTTP/1.1\r\nUser-Agent: curl/8\r\nContent-Length: 2\r\n\r\nok";
    for cut in 0..=whole.len() {
        let mut p = RequestParser::new();
        assert_eq!(p.feed(&whole[..cut]), Ok(()));
        assert_eq!(p.feed(&whole[cut..]), Ok(()));
        assert!(!p.needs_more());
        let c = p.finish().unwrap();
        assert_eq!(c.path, "/user-agent");
        assert_eq!(c.headers.len(), 2);
        assert_eq!(c.headers[0].value, "curl/8");
        assert_eq!(c.body, b"ok".to_vec());
    }
}

#[test]
fn byte_by_byte_feeding_matches_whole() {
    let whole: &[u8] = b"POST /files/f HTTP/1.1\r\nContent-Length: 3\r\nX: y\r\n\r\nabc";
    let mut p = RequestParser::new();
    for b in whole {
        assert_eq!(p.feed(&[*b]), Ok(()));
    }
    let c = p.finish().unwrap();
    let d = parse(whole);
    assert_eq!(c.path, d.path);
    assert_eq!(c.body, d.body);
    assert_eq!(c.headers.len(), d.headers.len());
}

#[test]
fn invalid_utf8_path_is_refused() {
    assert_eq!(parse_err(b"GET /\xff HTTP/1.1\r\n\r\n"), ServerError::IncorrectRequestLineError);
}

#[test]
fn binary_body_is_kept_as_bytes() {
    let c = parse(b"POST /files/bin HTTP/1.1\r\nContent-Length: 3\r\n\r\n\x00\xff\x10");
    assert_eq!(c.body, vec![0u8, 0xff, 0x10]);
}

#[test]
fn routing_table() {
    assert_eq!(route(RequestMethod::Get, "/echo/x"), Route::Echo);
    assert_eq!(route(RequestMethod::Get, "/echo/"), Route::Echo);
    assert_eq!(route(RequestMethod::Get, "/files/x"), Route::ReadFile);
    assert_eq!(route(RequestMethod::Get, "/user-agent"), Route::UserAgent);
    assert_eq!(route(RequestMethod::Get, "/user-agent/"), Route::NotFound);
    assert_eq!(route(RequestMethod::Get, "/"), Route::Root);
    assert_eq!(route(RequestMethod::Get, "/echo"), Route::NotFound);
    assert_eq!(route(RequestMethod::Post, "/files/x"), Route::WriteFile);
    assert_eq!(route(RequestMethod::Post, "/echo/x"), Route::NotFound);
    assert_eq!(route(RequestMethod::Get, "/nonexistent/files/x"), Route::NotFound);
}

#[test]
fn echo_hello() {
    let r = answer(b"GET /echo/hello HTTP/1.1\r\nHost: localhost\r\n\r\n", None);
    assert_eq!(
        r,
        b"HTTP/1.1 200 OK\r\nContent-Type: text/plain\r\nContent-Length: 5\r\n\r\nhello".to_vec()
    );
}

#[test]
fn echo_empty() {
    let r = answer(b"GET /echo/ HTTP/1.1\r\n\r\n", None);
    assert_eq!(r, b"HTTP/1.1 200 OK\r\nContent-Type: text/plain\r\nContent-Length: 0\r\n\r\n".to_vec());
}

#[test]
fn echo_keeps_slashes_and_counts_bytes() {
    let r = answer("GET /echo/a/é HTTP/1.1\r\n\r\n".as_bytes(), None);
    let expected = "HTTP/1.1 200 OK\r\nContent-Type: text/plain\r\nContent-Length: 4\r\n\r\na/é";
    assert_eq!(r, expected.as_bytes().to_vec());
}

#[test]
fn unknown_path_is_not_found() {
    let r = answer(b"GET /nonexistent/files/x HTTP/1.1\r\n\r\n", None);
    assert_eq!(r, b"HTTP/1.1 404 Not Found\r\n\r\n".to_vec());
    assert!(!String::from_utf8(r).unwrap().contains("Content-Type"));
}

#[test]
fn missing_file_is_not_found() {
    let r = answer(b"GET /files/nothing HTTP/1.1\r\n\r\n", None);
    assert_eq!(r, b"HTTP/1.1 404 Not Found\r\n\r\n".to_vec());
}

#[test]
fn root_is_ok() {
    let r = answer(b"GET / HTTP/1.1\r\n\r\n", None);
    assert_eq!(r, b"HTTP/1.1 200 OK\r\n\r\n".to_vec());
}

#[test]
fn user_agent_is_reflected() {
    let r = answer(b"GET /user-agent HTTP/1.1\r\nHost: x\r\nUser-Agent: test-agent\r\n\r\n", None);
    let (head, body) = split_head(&r);
    assert!(head.starts_with("HTTP/1.1 200 OK\r\n"));
    assert!(head.contains("Content-Length: 10"));
    assert_eq!(body, b"test-agent".to_vec());
}

#[test]
fn first_user_agent_wins() {
    let r = answer(b"GET /user-agent HTTP/1.1\r\nUser-Agent: a\r\nUser-Agent: bb\r\n\r\n", None);
    let (_, body) = split_head(&r);
    assert_eq!(body, b"a".to_vec());
}

#[test]
fn absent_user_agent_is_empty() {
    let r = answer(b"GET /user-agent HTTP/1.1\r\n\r\n", None);
    assert_eq!(r, b"HTTP/1.1 200 OK\r\nContent-Type: text/plain\r\nContent-Length: 0\r\n\r\n".to_vec());
}

#[test]
fn gzip_response_has_encoded_length() {
    let r = answer(b"GET /echo/abcabcabcabc HTTP/1.1\r\nAccept-Encoding: gzip\r\n\r\n", None);
    let (head, body) = split_head(&r);
    assert!(head.starts_with("HTTP/1.1 200 OK\r\n"));
    assert!(head.contains("\r\nContent-Encoding: gzip"));
    assert!(head.contains(&format!("\r\nContent-Length: {}", body.len())));
    assert!(!head.contains("Content-Length: 12"));
    assert_eq!(head.matches("Content-Length").count(), 1);
    assert_eq!(&body[..2], &[0x1f, 0x8b]);
    assert_eq!(gunzip(&body), b"abcabcabcabc".to_vec());
}

#[test]
fn gzip_chosen_among_several() {
    let r = answer(b"GET /echo/x HTTP/1.1\r\nAccept-Encoding: deflate, gzip, br\r\n\r\n", None);
    let (head, body) = split_head(&r);
    assert!(head.contains("Content-Encoding: gzip"));
    assert_eq!(gunzip(&body), b"x".to_vec());
}

#[test]
fn unsupported_encoding_is_ignored() {
    let r = answer(b"GET /echo/x HTTP/1.1\r\nAccept-Encoding: invalid-encoding\r\n\r\n", None);
    assert_eq!(r, b"HTTP/1.1 200 OK\r\nContent-Type: text/plain\r\nContent-Length: 1\r\n\r\nx".to_vec());
}

#[test]
fn negotiation_tokens() {
    assert_eq!(first_supported(b"gzip"), Some(AvailableEncodings::GZIP));
    assert_eq!(first_supported(b"br, gzip"), Some(AvailableEncodings::GZIP));
    assert_eq!(first_supported(b"br,gzip"), None);
    assert_eq!(first_supported(b""), None);
    assert_eq!(first_supported(b"gzip2"), None);
    let req = vec![
        Header::new(HeaderType::AcceptEncoding, "br"),
        Header::new(HeaderType::AcceptEncoding, "gzip"),
    ];
    assert_eq!(negotiate_encoding(&req), None);
}

#[test]
fn encoded_file_response_replaces_length() {
    let content = parse(b"GET /files/f HTTP/1.1\r\nAccept-Encoding: gzip\r\n\r\n");
    let data = vec![7u8; 1000];
    let r = file_response(&content, Some(data.clone())).unwrap();
    let (head, body) = split_head(&r);
    assert!(head.contains("Content-Type: application/octet-stream"));
    assert!(!head.contains("Content-Length: 1000"));
    assert!(head.contains(&format!("Content-Length: {}", body.len())));
    assert_eq!(gunzip(&body), data);
}

#[test]
fn every_content_length_is_replaced() {
    let headers = vec![
        Header::new(HeaderType::ContentLength, "3"),
        Header::new(HeaderType::Host, "h"),
        Header::new(HeaderType::ContentLength, "3"),
    ];
    let r = finish_response(ServerResponse::OK, headers, b"abcdef", Some(AvailableEncodings::GZIP));
    let (head, _) = split_head(&r);
    assert_eq!(
        head,
        "HTTP/1.1 200 OK\r\nContent-Length: 6\r\nHost: h\r\nContent-Length: 6\r\nContent-Encoding: gzip"
    );
}

#[test]
fn length_is_added_when_absent() {
    let r = finish_response(ServerResponse::OK, vec![], b"abc", Some(AvailableEncodings::GZIP));
    assert_eq!(r, b"HTTP/1.1 200 OK\r\nContent-Encoding: gzip\r\nContent-Length: 3\r\n\r\nabc".to_vec());
}

#[test]
fn build_without_encoding_keeps_headers() {
    let headers = vec![Header::new(HeaderType::ContentLength, "2")];
    let r = build_response(ServerResponse::Created, headers, b"hi", &vec![]).unwrap();
    assert_eq!(r, b"HTTP/1.1 201 Created\r\nContent-Length: 2\r\n\r\nhi".to_vec());
}

#[test]
fn post_then_get_round_trip() {
    let body: Vec<u8> = (0u8..=255).collect();
    let mut post = b"POST /files/data.bin HTTP/1.1\r\nContent-Length: 256\r\n\r\n".to_vec();
    post.extend_from_slice(&body);
    let post = parse(&post);
    let stored = match file_action(&post) {
        Some(FileAction::Write(name, bytes)) => {
            assert_eq!(name, "data.bin");
            bytes
        }
        _ => panic!("a post to /files/ writes a file"),
    };
    assert_eq!(stored, body);
    let created = respond(&post, None).unwrap();
    assert_eq!(created, b"HTTP/1.1 201 Created\r\n\r\n".to_vec());

    let get = parse(b"GET /files/data.bin HTTP/1.1\r\n\r\n");
    match file_action(&get) {
        Some(FileAction::Read(name)) => assert_eq!(name, "data.bin"),
        _ => panic!("a get of /files/ reads a file"),
    }
    let r = respond(&get, Some(stored)).unwrap();
    let (head, got) = split_head(&r);
    assert_eq!(
        head,
        "HTTP/1.1 200 OK\r\nContent-Type: application/octet-stream\r\nContent-Length: 256"
    );
    assert_eq!(got, body);
}

#[test]
fn repeated_posts_carry_only_their_own_body() {
    let first = parse(b"POST /files/f HTTP/1.1\r\nContent-Length: 5\r\n\r\nfirst");
    let second = parse(b"POST /files/f HTTP/1.1\r\nContent-Length: 3\r\n\r\nlst");
    let mut store: Option<Vec<u8>> = None;
    for c in [&first, &second] {
        match file_action(c) {
            Some(FileAction::Write(name, bytes)) => {
                assert_eq!(name, "f");
                store = Some(bytes);
            }
            _ => panic!("a post to /files/ writes a file"),
        }
    }
    assert_eq!(store, Some(b"lst".to_vec()));
}

#[test]
fn no_file_work_for_other_routes() {
    assert!(file_action(&parse(b"GET /echo/x HTTP/1.1\r\n\r\n")).is_none());
    assert!(file_action(&parse(b"POST /other HTTP/1.1\r\n\r\n")).is_none());
    let r = answer(b"POST /other HTTP/1.1\r\n\r\n", None);
    assert_eq!(r, b"HTTP/1.1 404 Not Found\r\n\r\n".to_vec());
}

#[test]
fn empty_file_name_is_valid() {
    match file_action(&parse(b"GET /files/ HTTP/1.1\r\n\r\n")) {
        Some(FileAction::Read(name)) => assert_eq!(name, ""),
        _ => panic!("expected a read"),
    }
}

#[test]
fn file_name_extraction() {
    assert_eq!(extract_filename_from_request_path("/files/a/b"), Ok("a/b"));
    assert_eq!(extract_filename_from_request_path("/files/"), Ok(""));
    assert_eq!(extract_filename_from_request_path("/file/x"), Err(ServerError::IncorrectPathError));
    assert_eq!(extract_filename_from_request_path("/files"), Err(ServerError::IncorrectPathError));
}

#[test]
fn prefix_check() {
    assert!(str_starts_with("/echo/x", "/echo/"));
    assert!(!str_starts_with("/ech", "/echo/"));
    assert!(str_starts_with("anything", ""));
}

#[test]
fn header_names_and_lines() {
    assert_eq!(HeaderType::ContentType.to_string(), "Content-Type");
    assert_eq!(HeaderType::ContentLength.to_string(), "Content-Length");
    assert_eq!(HeaderType::Host.to_string(), "Host");
    assert_eq!(HeaderType::UserAgent.to_string(), "User-Agent");
    assert_eq!(HeaderType::Accept.to_string(), "Accept");
    assert_eq!(HeaderType::AcceptEncoding.to_string(), "Accept-Encoding");
    assert_eq!(HeaderType::ContentEncoding.to_string(), "Content-Encoding");
    let h = Header::new(HeaderType::Host, "example");
    assert_eq!(h.key, "Host");
    assert_eq!(h.value, "example");
}

#[test]
fn combined_headers() {
    let hs = vec![
        Header::new(HeaderType::ContentType, "text/plain"),
        Header::new(HeaderType::ContentLength, "3"),
    ];
    assert_eq!(Header::combine_headers(hs), "Content-Type: text/plain\r\nContent-Length: 3\r\n");
    assert_eq!(Header::combine_headers(vec![]), "");
}

#[test]
fn status_lines() {
    assert_eq!(ServerResponse::OK.get_status_line(), "HTTP/1.1 200 OK");
    assert_eq!(ServerResponse::NotFound.get_status_line(), "HTTP/1.1 404 Not Found");
    assert_eq!(ServerResponse::Created.get_status_line(), "HTTP/1.1 201 Created");
}

#[test]
fn encoding_names() {
    assert_eq!(AvailableEncodings::from_name("gzip"), Ok(AvailableEncodings::GZIP));
    assert_eq!(AvailableEncodings::from_name("br"), Err(ServerError::IncorrectEncodingError));
    assert_eq!(AvailableEncodings::GZIP.to_string(), "gzip");
}

#[test]
fn gzip_encoding_compresses() {
    let data = b"hello hello hello hello".to_vec();
    let out = encode(&data, AvailableEncodings::GZIP).unwrap();
    assert_ne!(out, data);
    assert_eq!(&out[..2], &[0x1f, 0x8b]);
    assert_eq!(gunzip(&out), data);
    let empty = encode(b"", AvailableEncodings::GZIP).unwrap();
    assert!(!empty.is_empty());
    assert!(gunzip(&empty).is_empty());
}

#[test]
fn byte_pair_search() {
    assert_eq!(find_pair(b"ab\r\ncd", 0, 13, 10), Some(2));
    assert_eq!(find_pair(b"ab\r\ncd\r\n", 3, 13, 10), Some(6));
    assert_eq!(find_pair(b"\r", 0, 13, 10), None);
}

#[test]
fn directory_argument() {
    let args = |v: &[&str]| v.iter().map(|s| s.to_string()).collect::<Vec<String>>();
    assert_eq!(Config::from_args(&args(&["prog"])).get_files_directory(), ".");
    assert_eq!(
        Config::from_args(&args(&["prog", "--directory", "/tmp/x"])).get_files_directory(),
        "/tmp/x"
    );
    assert_eq!(Config::from_args(&args(&["prog", "--directory"])).get_files_directory(), ".");
    assert_eq!(
        Config::from_args(&args(&["prog", "--directory", "a", "--directory", "b"])).get_files_directory(),
        "a"
    );
    assert_eq!(Config::new("d".to_string()).get_files_directory(), "d");
}

#[test]
fn names_parse_through_from_str() {
    assert_eq!("GET".parse::<RequestMethod>(), Ok(RequestMethod::Get));
    assert_eq!("POST".parse::<RequestMethod>(), Ok(RequestMethod::Post));
    assert_eq!("DELETE".parse::<RequestMethod>(), Err(ServerError::IncorrectHttpMethodError));
    assert_eq!("gzip".parse::<AvailableEncodings>(), Ok(AvailableEncodings::GZIP));
    assert_eq!("zstd".parse::<AvailableEncodings>(), Err(ServerError::IncorrectEncodingError));
    let h = "User-Agent: curl".parse::<Header>().unwrap();
    assert_eq!(h.key, "User-Agent");
    assert_eq!(h.value, "curl");
    assert!("no separator".parse::<Header>().is_err());
}
