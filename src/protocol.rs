//! The requests and responses that clients and servers exchange, their
//! encoding on the wire, and what each side makes of them.
//!
//! A connection carries a sequence of request/response pairs. Each message
//! is self-delimiting: a tag byte, then its strings, each prefixed by its
//! UTF-8 byte count.

use vstd::prelude::*;

use crate::codec::{
    lemma_str_round_trip, parse_str, read_str, str_bytes, str_fits, write_str, Decoded, Parse,
};
use crate::engine::KvsEngine;
use crate::error::{known_message, KvsError};

verus! {

/// A request from a client.
#[derive(Clone, Debug, PartialEq, Eq)]
pub enum Request {
    /// Asks for the value of `key`.
    Get { key: String },
    /// Sets `key` to `value`.
    Put { key: String, value: String },
    /// Removes `key`.
    Remove { key: String },
}

/// A request over character sequences.
pub enum RequestView {
    Get { key: Seq<char> },
    Put { key: Seq<char>, value: Seq<char> },
    Remove { key: Seq<char> },
}

impl View for Request {
    type V = RequestView;

    open spec fn view(&self) -> RequestView {
        match self {
            Request::Get { key } => RequestView::Get { key: key@ },
            Request::Put { key, value } => RequestView::Put { key: key@, value: value@ },
            Request::Remove { key } => RequestView::Remove { key: key@ },
        }
    }
}

/// The answer to a `Get`: the value, if the key is live, or the message of
/// the error that the engine met.
#[derive(Clone, Debug, PartialEq, Eq)]
pub enum GetResponse {
    Success(Option<String>),
    Failure(String),
}

/// The answer to a `Put`.
#[derive(Clone, Debug, PartialEq, Eq)]
pub enum SetResponse {
    Success,
    Failure(String),
}

/// The answer to a `Remove`.
#[derive(Clone, Debug, PartialEq, Eq)]
pub enum RemoveResponse {
    Success,
    Failure(String),
}

/// An optional string as an optional character sequence.
pub open spec fn opt_view(o: Option<String>) -> Option<Seq<char>> {
    match o {
        Some(s) => Some(s@),
        None => None,
    }
}

impl View for GetResponse {
    type V = Result<Option<Seq<char>>, Seq<char>>;

    open spec fn view(&self) -> Result<Option<Seq<char>>, Seq<char>> {
        match self {
            GetResponse::Success(v) => Ok(opt_view(*v)),
            GetResponse::Failure(m) => Err(m@),
        }
    }
}

impl View for SetResponse {
    type V = Result<(), Seq<char>>;

    open spec fn view(&self) -> Result<(), Seq<char>> {
        match self {
            SetResponse::Success => Ok(()),
            SetResponse::Failure(m) => Err(m@),
        }
    }
}

impl View for RemoveResponse {
    type V = Result<(), Seq<char>>;

    open spec fn view(&self) -> Result<(), Seq<char>> {
        match self {
            RemoveResponse::Success => Ok(()),
            RemoveResponse::Failure(m) => Err(m@),
        }
    }
}

pub const GET_REQUEST: u8 = 0;

pub const PUT_REQUEST: u8 = 1;

pub const REMOVE_REQUEST: u8 = 2;

/// The bytes of a request on the wire.
pub open spec fn request_bytes(r: RequestView) -> Seq<u8> {
    match r {
        RequestView::Get { key } => seq![GET_REQUEST] + str_bytes(key),
        RequestView::Put { key, value } => seq![PUT_REQUEST] + str_bytes(key) + str_bytes(value),
        RequestView::Remove { key } => seq![REMOVE_REQUEST] + str_bytes(key),
    }
}

/// The strings of a request fit their length fields.
pub open spec fn request_fits(r: RequestView) -> bool {
    match r {
        RequestView::Get { key } => str_fits(key),
        RequestView::Put { key, value } => str_fits(key) && str_fits(value),
        RequestView::Remove { key } => str_fits(key),
    }
}

/// Reading one request from the start of `b`.
pub open spec fn parse_request(b: Seq<u8>) -> Parse<RequestView> {
    if b.len() == 0 {
        Parse::Incomplete
    } else if b[0] == PUT_REQUEST {
        match parse_str(b, 1) {
            Parse::Done(key, e1) => match parse_str(b, e1 as int) {
                Parse::Done(value, e2) => Parse::Done(RequestView::Put { key, value }, e2),
                Parse::Incomplete => Parse::Incomplete,
                Parse::Invalid => Parse::Invalid,
            },
            Parse::Incomplete => Parse::Incomplete,
            Parse::Invalid => Parse::Invalid,
        }
    } else if b[0] == GET_REQUEST || b[0] == REMOVE_REQUEST {
        match parse_str(b, 1) {
            Parse::Done(key, e1) => Parse::Done(
                if b[0] == GET_REQUEST {
                    RequestView::Get { key }
                } else {
                    RequestView::Remove { key }
                },
                e1,
            ),
            Parse::Incomplete => Parse::Incomplete,
            Parse::Invalid => Parse::Invalid,
        }
    } else {
        Parse::Invalid
    }
}

/// The bytes of the answer to a `Get` on the wire.
pub open spec fn get_response_bytes(r: Result<Option<Seq<char>>, Seq<char>>) -> Seq<u8> {
    match r {
        Ok(None) => seq![0u8],
        Ok(Some(v)) => seq![1u8] + str_bytes(v),
        Err(m) => seq![2u8] + str_bytes(m),
    }
}

/// The strings of the answer to a `Get` fit their length fields.
pub open spec fn get_response_fits(r: Result<Option<Seq<char>>, Seq<char>>) -> bool {
    match r {
        Ok(None) => true,
        Ok(Some(v)) => str_fits(v),
        Err(m) => str_fits(m),
    }
}

/// Reading the answer to a `Get` from the start of `b`.
pub open spec fn parse_get_response(b: Seq<u8>) -> Parse<Result<Option<Seq<char>>, Seq<char>>> {
    if b.len() == 0 {
        Parse::Incomplete
    } else if b[0] == 0 {
        Parse::Done(Ok(None), 1)
    } else if b[0] == 1 || b[0] == 2 {
        match parse_str(b, 1) {
            Parse::Done(s, e1) => Parse::Done(
                if b[0] == 1 {
                    Ok(Some(s))
                } else {
                    Err(s)
                },
                e1,
            ),
            Parse::Incomplete => Parse::Incomplete,
            Parse::Invalid => Parse::Invalid,
        }
    } else {
        Parse::Invalid
    }
}

/// The bytes of the answer to a `Put` or a `Remove` on the wire.
pub open spec fn status_bytes(r: Result<(), Seq<char>>) -> Seq<u8> {
    match r {
        Ok(()) => seq![0u8],
        Err(m) => seq![1u8] + str_bytes(m),
    }
}

/// The message of the answer to a `Put` or a `Remove` fits its length field.
pub open spec fn status_fits(r: Result<(), Seq<char>>) -> bool {
    match r {
        Ok(()) => true,
        Err(m) => str_fits(m),
    }
}

/// Reading the answer to a `Put` or a `Remove` from the start of `b`.
pub open spec fn parse_status(b: Seq<u8>) -> Parse<Result<(), Seq<char>>> {
    if b.len() == 0 {
        Parse::Incomplete
    } else if b[0] == 0 {
        Parse::Done(Ok(()), 1)
    } else if b[0] == 1 {
        match parse_str(b, 1) {
            Parse::Done(m, e1) => Parse::Done(Err(m), e1),
            Parse::Incomplete => Parse::Incomplete,
            Parse::Invalid => Parse::Invalid,
        }
    } else {
        Parse::Invalid
    }
}

/// Round trip of requests: decoding the encoding of a request, whatever
/// follows it on the stream, gives the request back and stops right after it.
pub proof fn lemma_request_round_trip(r: RequestView, rest: Seq<u8>)
    requires
        request_fits(r),
    ensures
        parse_request(request_bytes(r) + rest) == Parse::Done(r, request_bytes(r).len()),
{
    let b = request_bytes(r) + rest;
    match r {
        RequestView::Put { key, value } => {
            let e1 = 1 + str_bytes(key).len() as int;
            let e2 = e1 + str_bytes(value).len() as int;
            assert(b.subrange(1, e1) == str_bytes(key));
            lemma_str_round_trip(key, b, 1);
            assert(b.subrange(e1, e2) == str_bytes(value));
            lemma_str_round_trip(value, b, e1);
        },
        RequestView::Get { key } => {
            let e1 = 1 + str_bytes(key).len() as int;
            assert(b.subrange(1, e1) == str_bytes(key));
            lemma_str_round_trip(key, b, 1);
        },
        RequestView::Remove { key } => {
            let e1 = 1 + str_bytes(key).len() as int;
            assert(b.subrange(1, e1) == str_bytes(key));
            lemma_str_round_trip(key, b, 1);
        },
    }
}

/// Round trip of the answers to `Get`.
pub proof fn lemma_get_response_round_trip(r: Result<Option<Seq<char>>, Seq<char>>, rest: Seq<u8>)
    requires
        get_response_fits(r),
    ensures
        parse_get_response(get_response_bytes(r) + rest) == Parse::Done(
            r,
            get_response_bytes(r).len(),
        ),
{
    let b = get_response_bytes(r) + rest;
    match r {
        Ok(None) => {},
        Ok(Some(s)) => {
            let e1 = 1 + str_bytes(s).len() as int;
            assert(b.subrange(1, e1) == str_bytes(s));
            lemma_str_round_trip(s, b, 1);
        },
        Err(s) => {
            let e1 = 1 + str_bytes(s).len() as int;
            assert(b.subrange(1, e1) == str_bytes(s));
            lemma_str_round_trip(s, b, 1);
        },
    }
}

/// Round trip of the answers to `Put` and `Remove`.
pub proof fn lemma_status_round_trip(r: Result<(), Seq<char>>, rest: Seq<u8>)
    requires
        status_fits(r),
    ensures
        parse_status(status_bytes(r) + rest) == Parse::Done(r, status_bytes(r).len()),
{
    let b = status_bytes(r) + rest;
    match r {
        Ok(u) => {
            assert(b[0] == 0);
            assert(u == ());
            assert(status_bytes(r).len() == 1);
        },
        Err(s) => {
            let e1 = 1 + str_bytes(s).len() as int;
            assert(b.subrange(1, e1) == str_bytes(s));
            lemma_str_round_trip(s, b, 1);
        },
    }
}

impl Request {
    /// The bytes of the request on the wire.
    pub fn encode(&self) -> (r: Vec<u8>)
        ensures
            r@ == request_bytes(self@),
            request_fits(self@),
    {
        let mut out: Vec<u8> = Vec::new();
        match self {
            Request::Get { key } => {
                out.push(GET_REQUEST);
                write_str(&mut out, key.as_str());
            },
            Request::Put { key, value } => {
                out.push(PUT_REQUEST);
                write_str(&mut out, key.as_str());
                write_str(&mut out, value.as_str());
            },
            Request::Remove { key } => {
                out.push(REMOVE_REQUEST);
                write_str(&mut out, key.as_str());
            },
        }
        out
    }

    /// Reads one request from the start of `b`; `Done` carries the number of
    /// bytes it took.
    pub fn decode(b: &[u8]) -> (r: Decoded<Request>)
        ensures
            r@ == parse_request(b@),
    {
        if b.len() == 0 {
            return Decoded::Incomplete;
        }
        let tag = b[0];
        if tag == PUT_REQUEST {
            match read_str(b, 1) {
                Decoded::Done(key, e1) => match read_str(b, e1) {
                    Decoded::Done(value, e2) => Decoded::Done(Request::Put { key, value }, e2),
                    Decoded::Incomplete => Decoded::Incomplete,
                    Decoded::Invalid => Decoded::Invalid,
                },
                Decoded::Incomplete => Decoded::Incomplete,
                Decoded::Invalid => Decoded::Invalid,
            }
        } else if tag == GET_REQUEST || tag == REMOVE_REQUEST {
            match read_str(b, 1) {
                Decoded::Done(key, e1) => if tag == GET_REQUEST {
                    Decoded::Done(Request::Get { key }, e1)
                } else {
                    Decoded::Done(Request::Remove { key }, e1)
                },
                Decoded::Incomplete => Decoded::Incomplete,
                Decoded::Invalid => Decoded::Invalid,
            }
        } else {
            Decoded::Invalid
        }
    }
}

impl GetResponse {
    /// The bytes of the answer on the wire.
    pub fn encode(&self) -> (r: Vec<u8>)
        ensures
            r@ == get_response_bytes(self@),
            get_response_fits(self@),
    {
        let mut out: Vec<u8> = Vec::new();
        match self {
            GetResponse::Success(None) => {
                out.push(0u8);
            },
            GetResponse::Success(Some(v)) => {
                out.push(1u8);
                write_str(&mut out, v.as_str());
            },
            GetResponse::Failure(m) => {
                out.push(2u8);
                write_str(&mut out, m.as_str());
            },
        }
        out
    }

    /// Reads one answer from the start of `b`.
    pub fn decode(b: &[u8]) -> (r: Decoded<GetResponse>)
        ensures
            r@ == parse_get_response(b@),
    {
        if b.len() == 0 {
            return Decoded::Incomplete;
        }
        let tag = b[0];
        if tag == 0 {
            Decoded::Done(GetResponse::Success(None), 1)
        } else if tag == 1 || tag == 2 {
            match read_str(b, 1) {
                Decoded::Done(s, e1) => if tag == 1 {
                    Decoded::Done(GetResponse::Success(Some(s)), e1)
                } else {
                    Decoded::Done(GetResponse::Failure(s), e1)
                },
                Decoded::Incomplete => Decoded::Incomplete,
                Decoded::Invalid => Decoded::Invalid,
            }
        } else {
            Decoded::Invalid
        }
    }

    /// What a client makes of the answer: the value, or the peer's error.
    pub fn into_result(self) -> (r: Result<Option<String>, KvsError>)
        ensures
            match self {
                GetResponse::Success(v) => r == Ok::<Option<String>, KvsError>(v),
                GetResponse::Failure(m) => r matches Err(KvsError::StringError(e)) && e == m,
            },
    {
        match self {
            GetResponse::Success(v) => Ok(v),
            GetResponse::Failure(m) => Err(KvsError::StringError(m)),
        }
    }
}

fn write_status(out: &mut Vec<u8>, err: Option<&String>)
    ensures
        final(out)@ == old(out)@ + status_bytes(
            match err {
                None => Ok(()),
                Some(m) => Err(m@),
            },
        ),
        err matches Some(m) ==> str_fits(m@),
{
    match err {
        None => {
            out.push(0u8);
        },
        Some(m) => {
            out.push(1u8);
            write_str(out, m.as_str());
            assert(old(out)@.push(1u8) + str_bytes(m@) == old(out)@ + (seq![1u8] + str_bytes(m@)));
        },
    }
}

fn read_status(b: &[u8]) -> (r: Decoded<Option<String>>)
    ensures
        match r {
            Decoded::Done(None, e) => parse_status(b@) == Parse::<Result<(), Seq<char>>>::Done(
                Ok(()),
                e as nat,
            ),
            Decoded::Done(Some(m), e) => parse_status(b@) == Parse::<Result<(), Seq<char>>>::Done(
                Err(m@),
                e as nat,
            ),
            Decoded::Incomplete => parse_status(b@) is Incomplete,
            Decoded::Invalid => parse_status(b@) is Invalid,
        },
{
    if b.len() == 0 {
        return Decoded::Incomplete;
    }
    let tag = b[0];
    if tag == 0 {
        Decoded::Done(None, 1)
    } else if tag == 1 {
        match read_str(b, 1) {
            Decoded::Done(m, e1) => Decoded::Done(Some(m), e1),
            Decoded::Incomplete => Decoded::Incomplete,
            Decoded::Invalid => Decoded::Invalid,
        }
    } else {
        Decoded::Invalid
    }
}

impl SetResponse {
    /// The bytes of the answer on the wire.
    pub fn encode(&self) -> (r: Vec<u8>)
        ensures
            r@ == status_bytes(self@),
            status_fits(self@),
    {
        let mut out: Vec<u8> = Vec::new();
        match self {
            SetResponse::Success => write_status(&mut out, None),
            SetResponse::Failure(m) => write_status(&mut out, Some(m)),
        }
        assert(out@ == Seq::<u8>::empty() + status_bytes(self@));
        out
    }

    /// Reads one answer from the start of `b`.
    pub fn decode(b: &[u8]) -> (r: Decoded<SetResponse>)
        ensures
            r@ == parse_status(b@),
    {
        match read_status(b) {
            Decoded::Done(None, e) => Decoded::Done(SetResponse::Success, e),
            Decoded::Done(Some(m), e) => Decoded::Done(SetResponse::Failure(m), e),
            Decoded::Incomplete => Decoded::Incomplete,
            Decoded::Invalid => Decoded::Invalid,
        }
    }

    /// What a client makes of the answer: success, or the peer's error.
    pub fn into_result(self) -> (r: Result<(), KvsError>)
        ensures
            match self {
                SetResponse::Success => r is Ok,
                SetResponse::Failure(m) => r matches Err(KvsError::StringError(e)) && e == m,
            },
    {
        match self {
            SetResponse::Success => Ok(()),
            SetResponse::Failure(m) => Err(KvsError::StringError(m)),
        }
    }
}

impl RemoveResponse {
    /// The bytes of the answer on the wire.
    pub fn encode(&self) -> (r: Vec<u8>)
        ensures
            r@ == status_bytes(self@),
            status_fits(self@),
    {
        let mut out: Vec<u8> = Vec::new();
        match self {
            RemoveResponse::Success => write_status(&mut out, None),
            RemoveResponse::Failure(m) => write_status(&mut out, Some(m)),
        }
        assert(out@ == Seq::<u8>::empty() + status_bytes(self@));
        out
    }

    /// Reads one answer from the start of `b`.
    pub fn decode(b: &[u8]) -> (r: Decoded<RemoveResponse>)
        ensures
            r@ == parse_status(b@),
    {
        match read_status(b) {
            Decoded::Done(None, e) => Decoded::Done(RemoveResponse::Success, e),
            Decoded::Done(Some(m), e) => Decoded::Done(RemoveResponse::Failure(m), e),
            Decoded::Incomplete => Decoded::Incomplete,
            Decoded::Invalid => Decoded::Invalid,
        }
    }

    /// What a client makes of the answer: success, or the peer's error.
    pub fn into_result(self) -> (r: Result<(), KvsError>)
        ensures
            match self {
                RemoveResponse::Success => r is Ok,
                RemoveResponse::Failure(m) => r matches Err(KvsError::StringError(e)) && e == m,
            },
    {
        match self {
            RemoveResponse::Success => Ok(()),
            RemoveResponse::Failure(m) => Err(KvsError::StringError(m)),
        }
    }
}

/// The answer to a request, of the kind that the request asks for.
#[derive(Clone, Debug, PartialEq, Eq)]
pub enum Response {
    Get(GetResponse),
    Put(SetResponse),
    Remove(RemoveResponse),
}

impl Response {
    /// The bytes of the answer on the wire.
    pub fn encode(&self) -> (r: Vec<u8>)
        ensures
            match self {
                Response::Get(g) => r@ == get_response_bytes(g@),
                Response::Put(s) => r@ == status_bytes(s@),
                Response::Remove(s) => r@ == status_bytes(s@),
            },
    {
        match self {
            Response::Get(g) => g.encode(),
            Response::Put(s) => s.encode(),
            Response::Remove(s) => s.encode(),
        }
    }
}

/// The text that an engine error becomes in an answer.
pub open spec fn failure_text(e: KvsError, m: Seq<char>) -> bool {
    known_message(e) matches Some(k) ==> m == k
}

/// `g` is the answer to a `Get` whose engine call gave `x`.
pub open spec fn get_answer(x: Result<Option<String>, KvsError>, g: GetResponse) -> bool {
    match x {
        Ok(v) => g == GetResponse::Success(v),
        Err(e) => g matches GetResponse::Failure(m) && failure_text(e, m@),
    }
}

/// `s` is the answer to a `Put` or a `Remove` whose engine call gave `x`.
pub open spec fn status_answer(x: Result<(), KvsError>, s: Result<(), Seq<char>>) -> bool {
    match x {
        Ok(_) => s is Ok,
        Err(e) => s matches Err(m) && failure_text(e, m),
    }
}

/// The answer that a server sends for what the engine gave for a `Get`:
/// the value, or the text of the engine's error.
pub fn get_response(r: Result<Option<String>, KvsError>) -> (resp: GetResponse)
    ensures
        get_answer(r, resp),
{
    match r {
        Ok(v) => GetResponse::Success(v),
        Err(e) => GetResponse::Failure(e.message()),
    }
}

/// The answer that a server sends for what the engine gave for a `Put`.
pub fn set_response(r: Result<(), KvsError>) -> (resp: SetResponse)
    ensures
        status_answer(r, resp@),
{
    match r {
        Ok(_) => SetResponse::Success,
        Err(e) => SetResponse::Failure(e.message()),
    }
}

/// The answer that a server sends for what the engine gave for a `Remove`.
pub fn remove_response(r: Result<(), KvsError>) -> (resp: RemoveResponse)
    ensures
        status_answer(r, resp@),
{
    match r {
        Ok(_) => RemoveResponse::Success,
        Err(e) => RemoveResponse::Failure(e.message()),
    }
}

/// `r` answers `req` on `engine`: the request's key (and value) went to the
/// matching engine call, and `r` is what that call's result gives.
pub open spec fn answers<E: KvsEngine>(engine: &E, req: RequestView, r: Response) -> bool {
    match req {
        RequestView::Get { key } => match r {
            Response::Get(g) => get_answered(engine, key, g),
            _ => false,
        },
        RequestView::Put { key, value } => match r {
            Response::Put(s) => set_answered(engine, key, value, s@),
            _ => false,
        },
        RequestView::Remove { key } => match r {
            Response::Remove(s) => remove_answered(engine, key, s@),
            _ => false,
        },
    }
}

/// `g` answers a `Get` of `key` on `engine`: it is what some result that
/// `engine.get(key)` may give makes.
pub open spec fn get_answered<E: KvsEngine>(engine: &E, key: Seq<char>, g: GetResponse) -> bool {
    exists|x: Result<Option<String>, KvsError>|
        #![trigger engine.get_post(key, x)]
        engine.get_post(key, x) && get_answer(x, g)
}

/// Serves one request against `engine`: the request's key (and value) go to
/// the matching engine call, made once, and the answer is what that call
/// gave; an engine error becomes a `Failure` answer, never a dropped
/// connection.
pub fn handle_request<E: KvsEngine>(engine: &E, req: Request) -> (r: Response)
    ensures
        answers(engine, req@, r),
{
    let r = match &req {
        Request::Get { key } => {
            let x = engine.get(key.clone());
            let ghost gx = x;
            let g = get_response(x);
            assert(engine.get_post(key@, gx) && get_answer(gx, g));
            assert(get_answered(engine, key@, g));
            assert(req@ == RequestView::Get { key: key@ });
            assert(answers(engine, req@, Response::Get(g)));
            Response::Get(g)
        },
        Request::Put { key, value } => {
            let x = engine.set(key.clone(), value.clone());
            let ghost gx = x;
            let s = set_response(x);
            assert(engine.set_post(key@, value@, gx) && status_answer(gx, s@));
            assert(set_answered(engine, key@, value@, s@));
            assert(req@ == RequestView::Put { key: key@, value: value@ });
            assert(answers(engine, req@, Response::Put(s)));
            Response::Put(s)
        },
        Request::Remove { key } => {
            let x = engine.remove(key.clone());
            let ghost gx = x;
            let s = remove_response(x);
            assert(engine.remove_post(key@, gx) && status_answer(gx, s@));
            assert(remove_answered(engine, key@, s@));
            assert(req@ == RequestView::Remove { key: key@ });
            assert(answers(engine, req@, Response::Remove(s)));
            Response::Remove(s)
        },
    };
    r
}

/// `s` answers a `Put` of `key` and `value` on `engine`.
pub open spec fn set_answered<E: KvsEngine>(
    engine: &E,
    key: Seq<char>,
    value: Seq<char>,
    s: Result<(), Seq<char>>,
) -> bool {
    exists|x: Result<(), KvsError>|
        #![trigger engine.set_post(key, value, x)]
        engine.set_post(key, value, x) && status_answer(x, s)
}

/// `s` answers a `Remove` of `key` on `engine`.
pub open spec fn remove_answered<E: KvsEngine>(
    engine: &E,
    key: Seq<char>,
    s: Result<(), Seq<char>>,
) -> bool {
    exists|x: Result<(), KvsError>|
        #![trigger engine.remove_post(key, x)]
        engine.remove_post(key, x) && status_answer(x, s)
}

/// What a connection does next with the bytes it has received and not yet
/// served.
#[derive(Clone, Debug, PartialEq, Eq)]
pub enum Step {
    /// Send this answer to the first request, which took the given number
    /// of bytes.
    Answer(Response, usize),
    /// Read more bytes: the first request is not complete yet (or no bytes
    /// are left, and the connection ends if the peer has closed it).
    ReadMore,
    /// Close the connection: the bytes can never start a request.
    Malformed,
}

/// Decides the next step of a connection whose unserved bytes are
/// `pending`, serving the first request against `engine` if it is complete.
pub fn next_step<E: KvsEngine>(engine: &E, pending: &[u8]) -> (r: Step)
    ensures
        match parse_request(pending@) {
            Parse::Done(req, n) => r matches Step::Answer(resp, used) && used == n && answers(
                engine,
                req,
                resp,
            ),
            Parse::Incomplete => r is ReadMore,
            Parse::Invalid => r is Malformed,
        },
{
    match Request::decode(pending) {
        Decoded::Done(req, n) => Step::Answer(handle_request(engine, req), n),
        Decoded::Incomplete => Step::ReadMore,
        Decoded::Invalid => Step::Malformed,
    }
}

} // verus!
