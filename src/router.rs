use vstd::prelude::*;

use crate::encoding::negotiated_encoding;
use crate::error::ServerError;
use crate::header::HeaderType;
use crate::request::{RequestContent, RequestMethod, RequestModel};
use crate::response::{
    assembled, content_length_header, echo_model, echo_response, empty_reply, empty_response,
    file_model, file_response, post_file_response, replies, user_agent_model,
    user_agent_response, wire, ResponseModel, ServerResponse, ECHO_PATH_PREFIX,
};
use crate::utils::{
    copy_range, extract_filename_from_request_path, has_prefix, str_starts_with,
    FILES_PATH_PREFIX,
};

verus! {

/// The handler a request goes to.
#[derive(Debug, Clone, Copy, PartialEq, Eq, Structural)]
pub enum Route {
    Echo,
    ReadFile,
    UserAgent,
    Root,
    NotFound,
    WriteFile,
}

/// The routing table: the first rule that matches wins.
pub open spec fn route_of(method: RequestMethod, path: Seq<char>) -> Route {
    match method {
        RequestMethod::Get => if has_prefix(path, ECHO_PATH_PREFIX@) {
            Route::Echo
        } else if has_prefix(path, FILES_PATH_PREFIX@) {
            Route::ReadFile
        } else if path == "/user-agent"@ {
            Route::UserAgent
        } else if path == "/"@ {
            Route::Root
        } else {
            Route::NotFound
        },
        RequestMethod::Post => if has_prefix(path, FILES_PATH_PREFIX@) {
            Route::WriteFile
        } else {
            Route::NotFound
        },
    }
}

/// The handler for a request with the given method and path.
pub fn route(method: RequestMethod, path: &str) -> (r: Route)
    ensures
        r == route_of(method, path@),
{
    match method {
        RequestMethod::Get => {
            if str_starts_with(path, ECHO_PATH_PREFIX) {
                Route::Echo
            } else if str_starts_with(path, FILES_PATH_PREFIX) {
                Route::ReadFile
            } else if path.to_owned() == "/user-agent".to_owned() {
                Route::UserAgent
            } else if path.to_owned() == "/".to_owned() {
                Route::Root
            } else {
                Route::NotFound
            }
        },
        RequestMethod::Post => {
            if str_starts_with(path, FILES_PATH_PREFIX) {
                Route::WriteFile
            } else {
                Route::NotFound
            }
        },
    }
}

/// Work on the files directory, as the contracts see it.
pub enum FileWork {
    Read(Seq<char>),
    Write(Seq<char>, Seq<u8>),
}

/// Work on the files directory that a request needs before it can be
/// answered: reading the named file, or replacing its contents.
pub enum FileAction {
    Read(String),
    Write(String, Vec<u8>),
}

impl View for FileAction {
    type V = FileWork;

    open spec fn view(&self) -> FileWork {
        match self {
            FileAction::Read(name) => FileWork::Read(name@),
            FileAction::Write(name, bytes) => FileWork::Write(name@, bytes@),
        }
    }
}

/// The file name in a `/files/<name>` path.
pub open spec fn file_name_of(path: Seq<char>) -> Seq<char> {
    path.subrange(FILES_PATH_PREFIX@.len() as int, path.len() as int)
}

/// The work on files a request needs: a read for GET `/files/<name>`; for
/// POST `/files/<name>`, replacing the file's contents with the body.
pub open spec fn file_work_of(req: RequestModel) -> Option<FileWork> {
    match route_of(req.method, req.path) {
        Route::ReadFile => Some(FileWork::Read(file_name_of(req.path))),
        Route::WriteFile => Some(FileWork::Write(file_name_of(req.path), req.body)),
        _ => None,
    }
}

/// The work on files that `content` needs before it can be answered.
pub fn file_action(content: &RequestContent) -> (r: Option<FileAction>)
    ensures
        match r {
            Some(a) => file_work_of(content@) == Some(a@),
            None => file_work_of(content@) is None,
        },
{
    let target = route(content.method, content.path.as_str());
    if target != Route::ReadFile && target != Route::WriteFile {
        return None;
    }
    let name = match extract_filename_from_request_path(content.path.as_str()) {
        Ok(name) => name.to_owned(),
        Err(_) => return None,
    };
    if target == Route::ReadFile {
        Some(FileAction::Read(name))
    } else {
        let bytes = copy_range(content.body.as_slice(), 0, content.body.len());
        assert(bytes@ =~= content.body@);
        Some(FileAction::Write(name, bytes))
    }
}

/// The response a request gets, by its route. `contents` is what a file
/// read found: the file's bytes, or `None` where there is no such file; the
/// other routes ignore it.
pub open spec fn response_model(req: RequestModel, contents: Option<Seq<u8>>) -> ResponseModel {
    match route_of(req.method, req.path) {
        Route::Echo => echo_model(req),
        Route::ReadFile => file_model(contents),
        Route::UserAgent => user_agent_model(req),
        Route::Root => empty_reply(ServerResponse::OK),
        Route::NotFound => empty_reply(ServerResponse::NotFound),
        Route::WriteFile => empty_reply(ServerResponse::Created),
    }
}

/// The bytes that answer `content`, once its work on files (if any) is done.
pub fn respond(content: &RequestContent, contents: Option<Vec<u8>>) -> (r: Result<
    Vec<u8>,
    ServerError,
>)
    ensures
        replies(
            r,
            response_model(
                content@,
                match contents {
                    Some(b) => Some(b@),
                    None => None,
                },
            ),
            content@.headers,
        ),
{
    match route(content.method, content.path.as_str()) {
        Route::Echo => echo_response(content),
        Route::ReadFile => file_response(content, contents),
        Route::UserAgent => user_agent_response(content),
        Route::Root => empty_response(ServerResponse::OK, content),
        Route::NotFound => empty_response(ServerResponse::NotFound, content),
        Route::WriteFile => post_file_response(content),
    }
}

/// A path under `/files/` is not under `/echo/`.
proof fn lemma_files_not_echo(path: Seq<char>)
    requires
        has_prefix(path, FILES_PATH_PREFIX@),
    ensures
        !has_prefix(path, ECHO_PATH_PREFIX@),
{
    reveal_strlit("/files/");
    reveal_strlit("/echo/");
    assert(path.subrange(0, 7)[1] == 'f');
    if has_prefix(path, ECHO_PATH_PREFIX@) {
        assert(path.subrange(0, 6)[1] == 'e');
    }
}

/// Bytes posted to `/files/<name>` and read back by GET `/files/<name>`
/// (with no encoding asked) come back exactly: the post hands the whole body
/// to be stored under that name, the read asks for that same name, and the
/// answer to the read is its bytes, as they are, with a `Content-Length` of
/// their number.
pub proof fn lemma_post_then_get(post: RequestModel, get: RequestModel)
    requires
        post.method == RequestMethod::Post,
        get.method == RequestMethod::Get,
        get.path == post.path,
        has_prefix(post.path, FILES_PATH_PREFIX@),
        negotiated_encoding(get.headers) is None,
    ensures
        file_work_of(post) == Some(FileWork::Write(file_name_of(post.path), post.body)),
        file_work_of(get) == Some(FileWork::Read(file_name_of(post.path))),
        ({
            let m = response_model(get, Some(post.body));
            assembled(m.status, m.headers, m.body, get.headers) == Some(
                wire(
                    ServerResponse::OK,
                    seq![
                        (HeaderType::ContentType.name(), "application/octet-stream"@),
                        content_length_header(post.body.len()),
                    ],
                    post.body,
                ),
            )
        }),
{
    lemma_files_not_echo(post.path);
}

} // verus!
