//! What the daemon and its clients say to each other.

use crate::engine::Engine;
use crate::path::{joined, PathBuf};
use crate::snapshot::Snapshot;
use crate::text::{trim_back, trim_end};
use vstd::prelude::*;
use vstd::string::*;
use vstd::utf8::*;

verus! {

/// What a client asks for. How finely a snapshot is to be drawn is settled
/// before it gets here.
#[derive(Debug)]
pub enum Request {
    Snapshot { focus: Vec<String>, open: Vec<String> },
    Rescan { mount: Option<String> },
    Expand { path: String },
    Ping,
}

/// What the daemon answers.
#[derive(Debug)]
pub enum Response {
    Snapshot(Snapshot),
    Pong,
    /// What was asked for is under way.
    Done,
    Error(String),
}

/// Why a request failed.
#[derive(Debug)]
pub enum ReplyError {
    /// The daemon reports an error.
    Failed(String),
    /// The answer does not fit the request.
    Unexpected,
}

impl ReplyError {
    /// The text of the error.
    pub fn message(&self) -> (r: String)
        ensures
            r@ == match self {
                ReplyError::Failed(e) => e@,
                ReplyError::Unexpected => "unexpected response"@,
            },
    {
        match self {
            ReplyError::Failed(e) => e.clone(),
            ReplyError::Unexpected => "unexpected response".to_string(),
        }
    }
}

/// The answer to a request for a snapshot.
pub fn expect_snapshot(response: Response) -> (r: Result<Snapshot, ReplyError>)
    ensures
        r == match response {
            Response::Snapshot(s) => Ok::<Snapshot, ReplyError>(s),
            Response::Error(e) => Err(ReplyError::Failed(e)),
            _ => Err(ReplyError::Unexpected),
        },
{
    match response {
        Response::Snapshot(s) => Ok(s),
        Response::Error(e) => Err(ReplyError::Failed(e)),
        _ => Err(ReplyError::Unexpected),
    }
}

/// The answer to a request that only asks for something to be done.
pub fn expect_ok(response: Response) -> (r: Result<(), ReplyError>)
    ensures
        r == match response {
            Response::Done => Ok::<(), ReplyError>(()),
            Response::Error(e) => Err(ReplyError::Failed(e)),
            _ => Err(ReplyError::Unexpected),
        },
{
    match response {
        Response::Done => Ok(()),
        Response::Error(e) => Err(ReplyError::Failed(e)),
        _ => Err(ReplyError::Unexpected),
    }
}

/// The answer to a ping.
pub fn expect_pong(response: Response) -> (r: Result<(), ReplyError>)
    ensures
        r == match response {
            Response::Pong => Ok::<(), ReplyError>(()),
            Response::Error(e) => Err(ReplyError::Failed(e)),
            _ => Err(ReplyError::Unexpected),
        },
{
    match response {
        Response::Pong => Ok(()),
        Response::Error(e) => Err(ReplyError::Failed(e)),
        _ => Err(ReplyError::Unexpected),
    }
}

/// The message in a line that was read: the line without the white space at
/// its end; none if nothing was read, which is the end of the stream.
pub fn message_of(line: &str) -> (r: Option<String>)
    ensures
        match r {
            Some(m) => line@.len() > 0 && m@ == trim_back(line@),
            None => line@.len() == 0,
        },
{
    if line.unicode_len() == 0 {
        None
    } else {
        Some(trim_end(line))
    }
}

/// The line that carries a message.
pub fn line_of(message: &str) -> (r: String)
    ensures
        r@ == message@ + "\n"@,
{
    let mut out = message.to_string();
    out.append("\n");
    out
}

/// What is read back of a message that was written, where it does not end in
/// white space, is the message.
pub proof fn law_message_round_trip(message: Seq<char>)
    requires
        message.len() > 0,
        !crate::text::white_space(message.last()),
    ensures
        trim_back(message + "\n"@) == message,
{
    reveal_strlit("\n");
    let line = message + "\n"@;
    assert(line.last() == '\n');
    assert(line.drop_last() =~= message);
    assert(trim_back(message) == message);
}

/// The first of two paths that is given, else the third.
pub open spec fn first_given(a: Option<Seq<u8>>, b: Option<Seq<u8>>, c: Seq<u8>) -> Seq<u8> {
    match a {
        Some(p) => p,
        None => match b {
            Some(p) => p,
            None => c,
        },
    }
}

/// A path that is given first is taken; one that is given second only where the
/// first is missing; the third only where both are.
pub proof fn law_first_given(a: Seq<u8>, b: Option<Seq<u8>>, c: Seq<u8>)
    ensures
        first_given(Some(a), b, c) == a,
        first_given(None, Some(a), c) == a,
        first_given(None, None, c) == c,
{
}

/// The socket of the daemon: in the runtime directory, else in the directory
/// that the environment names, else in the one for temporary files.
pub fn socket_path(
    runtime_dir: Option<PathBuf>,
    env_dir: Option<PathBuf>,
    temp_dir: PathBuf,
) -> (r: PathBuf)
    ensures
        r@ == joined(
            first_given(
                crate::tree::path_model(runtime_dir),
                crate::tree::path_model(env_dir),
                temp_dir@,
            ),
            encode_utf8("spacemap.sock"@),
        ),
{
    let dir = match runtime_dir {
        Some(p) => p,
        None => match env_dir {
            Some(p) => p,
            None => temp_dir,
        },
    };
    dir.join("spacemap.sock")
}

/// The directory in which trees are kept: below the one for local data, else
/// below the current one.
pub fn data_dir(local_dir: Option<PathBuf>) -> (r: PathBuf)
    ensures
        r@ == joined(
            match local_dir {
                Some(p) => p@,
                None => encode_utf8("."@),
            },
            encode_utf8("spacemap"@),
        ),
{
    let dir = match local_dir {
        Some(p) => p,
        None => PathBuf::from("."),
    };
    dir.join("spacemap")
}

/// Does what a client asks for and gives the answer. A request for a snapshot
/// changes nothing and is answered with one, which is drawn elsewhere.
pub fn serve(engine: &mut Engine, request: &Request) -> (r: Option<Response>)
    ensures
        r == match request {
            Request::Snapshot { .. } => None,
            Request::Ping => Some(Response::Pong),
            Request::Rescan { .. } => Some(Response::Done),
            Request::Expand { .. } => Some(Response::Done),
        },
        final(engine)@ == match request {
            Request::Snapshot { .. } => old(engine)@,
            Request::Ping => old(engine)@,
            Request::Rescan { mount } => old(engine)@.rescan_requested(
                match mount {
                    Some(m) => Some(encode_utf8(m@)),
                    None => None,
                },
            ),
            Request::Expand { path } => old(engine)@.expand_requested(encode_utf8(path@)),
        },
        old(engine)@.wf() ==> final(engine)@.wf(),
{
    match request {
        Request::Snapshot { .. } => None,
        Request::Ping => Some(Response::Pong),
        Request::Rescan { mount } => {
            let place = match mount {
                Some(m) => Some(PathBuf::from(m.as_str())),
                None => None,
            };
            engine.request_rescan(place);
            Some(Response::Done)
        },
        Request::Expand { path } => {
            engine.request_expand(PathBuf::from(path.as_str()));
            Some(Response::Done)
        },
    }
}

} // verus!
