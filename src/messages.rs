use vstd::prelude::*;
use crate::codec::{decode, enc, encodable, encode, entries_view, items_view, parse, wf, CodecError};
use crate::framing::{chunks, dechunk, frame, unframe, FrameError, MAX_CHUNK};
use crate::row::{str_eq, strings_view};
use crate::types::{is_str_list, str_list};
use crate::value::{Val, WireValue};

verus! {

pub const HELLO: u8 = 0x01;
pub const GOODBYE: u8 = 0x02;
pub const RESET: u8 = 0x0F;
pub const RUN: u8 = 0x10;
pub const BEGIN: u8 = 0x11;
pub const COMMIT: u8 = 0x12;
pub const ROLLBACK: u8 = 0x13;
pub const DISCARD: u8 = 0x2F;
pub const PULL: u8 = 0x3F;
pub const SUCCESS: u8 = 0x70;
pub const RECORD: u8 = 0x71;
pub const IGNORED: u8 = 0x7E;
pub const FAILURE: u8 = 0x7F;

/// A message that the client sends.
pub enum Request {
    /// Identifies the client; `extra` carries the agent and the credentials.
    Hello { extra: Vec<(String, WireValue)> },
    Goodbye,
    Reset,
    /// A query and its parameters.
    Run { query: String, params: Vec<(String, WireValue)>, extra: Vec<(String, WireValue)> },
    Begin { extra: Vec<(String, WireValue)> },
    Commit,
    Rollback,
    /// Abandons up to `n` records of the result (-1: all).
    Discard { n: i64, qid: i64 },
    /// Asks for up to `n` more records (-1: all).
    Pull { n: i64, qid: i64 },
}

pub open spec fn flow_extra(n: i64, qid: i64) -> Seq<(Seq<char>, Val)> {
    seq![(seq!['n'], Val::Integer(n as int)), (seq!['q', 'i', 'd'], Val::Integer(qid as int))]
}

impl Request {
    /// The structure that carries the request.
    pub open spec fn view(&self) -> Val {
        match self {
            Request::Hello { extra } => Val::Struct(HELLO, seq![Val::Dict(entries_view(extra))]),
            Request::Goodbye => Val::Struct(GOODBYE, Seq::empty()),
            Request::Reset => Val::Struct(RESET, Seq::empty()),
            Request::Run { query, params, extra } => Val::Struct(
                RUN,
                seq![Val::Str(query@), Val::Dict(entries_view(params)), Val::Dict(entries_view(extra))],
            ),
            Request::Begin { extra } => Val::Struct(BEGIN, seq![Val::Dict(entries_view(extra))]),
            Request::Commit => Val::Struct(COMMIT, Seq::empty()),
            Request::Rollback => Val::Struct(ROLLBACK, Seq::empty()),
            Request::Discard { n, qid } => Val::Struct(DISCARD, seq![Val::Dict(flow_extra(*n, *qid))]),
            Request::Pull { n, qid } => Val::Struct(PULL, seq![Val::Dict(flow_extra(*n, *qid))]),
        }
    }

    /// The structure that carries the request.
    pub fn into_value(self) -> (r: WireValue)
        ensures
            r@ == self@,
    {
        let ghost me = self@;
        let mut f: Vec<WireValue> = Vec::new();
        let tag = match self {
            Request::Hello { extra } => {
                f.push(dict_value(extra));
                HELLO
            },
            Request::Goodbye => GOODBYE,
            Request::Reset => RESET,
            Request::Run { query, params, extra } => {
                f.push(WireValue::String(query));
                f.push(dict_value(params));
                f.push(dict_value(extra));
                RUN
            },
            Request::Begin { extra } => {
                f.push(dict_value(extra));
                BEGIN
            },
            Request::Commit => COMMIT,
            Request::Rollback => ROLLBACK,
            Request::Discard { n, qid } => {
                f.push(flow_value(n, qid));
                DISCARD
            },
            Request::Pull { n, qid } => {
                f.push(flow_value(n, qid));
                PULL
            },
        };
        let r = WireValue::Struct(tag, f);
        proof {
            assert forall|i: int| 0 <= i < f@.len() implies #[trigger] r@->Struct_1[i] == me->Struct_1[i] by {
                assert(f@[i]@ == me->Struct_1[i]);
            }
            assert(r@->Struct_1 =~= me->Struct_1);
        }
        r
    }
}

fn dict_value(m: Vec<(String, WireValue)>) -> (r: WireValue)
    ensures
        r@ == Val::Dict(entries_view(&m)),
{
    let ghost ev = entries_view(&m);
    let r = WireValue::Dict(m);
    assert(r@->Dict_0 =~= ev);
    r
}

fn flow_value(n: i64, qid: i64) -> (r: WireValue)
    ensures
        r@ == Val::Dict(flow_extra(n, qid)),
{
    let mut m: Vec<(String, WireValue)> = Vec::new();
    m.push(("n".to_owned(), WireValue::Integer(n)));
    m.push(("qid".to_owned(), WireValue::Integer(qid)));
    proof {
        reveal_strlit("n");
        reveal_strlit("qid");
        assert(m@[0].0@ =~= seq!['n']);
        assert(m@[1].0@ =~= seq!['q', 'i', 'd']);
        assert(m@[0].1@ == Val::Integer(n as int));
        assert(m@[1].1@ == Val::Integer(qid as int));
    }
    let r = WireValue::Dict(m);
    assert(r@->Dict_0 =~= flow_extra(n, qid));
    r
}

/// The bytes that carry a request: its encoding, split into chunks; none
/// when a size in it does not fit the encoding.
pub fn request_bytes(req: Request) -> (r: Option<Vec<u8>>)
    ensures
        r is Some <==> wf(req@),
        r is Some ==> r->Some_0@ == chunks(enc(req@), MAX_CHUNK as nat),
{
    let v = req.into_value();
    if !encodable(&v) {
        return None;
    }
    let mut out: Vec<u8> = Vec::new();
    encode(&v, &mut out);
    assert(out@ =~= enc(v@));
    Some(frame(&out, MAX_CHUNK))
}

/// A message that the server sends.
pub enum Response {
    /// The request succeeded; metadata such as field names or "has_more".
    Success(Vec<(String, WireValue)>),
    /// One record of a result.
    Record(Vec<WireValue>),
    /// The request was ignored, the session being in failure.
    Ignored,
    /// The request failed; metadata holds the server's code and message.
    Failure(Vec<(String, WireValue)>),
}

impl Response {
    pub open spec fn view(&self) -> Val {
        match self {
            Response::Success(m) => Val::Struct(SUCCESS, seq![Val::Dict(entries_view(m))]),
            Response::Record(l) => Val::Struct(RECORD, seq![Val::List(items_view(l))]),
            Response::Ignored => Val::Struct(IGNORED, Seq::empty()),
            Response::Failure(m) => Val::Struct(FAILURE, seq![Val::Dict(entries_view(m))]),
        }
    }
}

/// Whether `v` is a message that the server may send.
pub open spec fn is_response(v: Val) -> bool {
    match v {
        Val::Struct(t, f) => ((t == SUCCESS || t == FAILURE) && f.len() == 1 && f[0] is Dict) || (t == RECORD
            && f.len() == 1 && f[0] is List) || (t == IGNORED && f.len() == 0),
        _ => false,
    }
}

/// Why bytes from the server are not a message.
#[derive(Debug, Clone, Copy, PartialEq, Eq, Structural)]
pub enum ProtocolError {
    Frame(FrameError),
    Codec(CodecError),
    /// The bytes hold more than one value.
    TrailingBytes,
    /// The value is not a server message.
    NotAMessage,
    /// A request holds a size that the encoding cannot carry.
    TooLarge,
}

/// Reads a server message from its structure.
pub fn response_of(v: WireValue) -> (r: Option<Response>)
    ensures
        r is Some <==> is_response(v@),
        r is Some ==> r->Some_0@ == v@,
{
    let ghost vv = v@;
    match v {
        WireValue::Struct(t, f) => {
            let ghost fv = items_view(&f);
            assert(vv->Struct_1 =~= fv);
            let mut f = f;
            if t == IGNORED && f.len() == 0 {
                let r = Response::Ignored;
                assert(r@->Struct_1 =~= vv->Struct_1);
                return Some(r);
            }
            if f.len() != 1 || !(t == SUCCESS || t == FAILURE || t == RECORD) {
                return None;
            }
            let x = f.pop().unwrap();
            let ghost xv = x@;
            assert(x@ == fv[0]);
            match x {
                WireValue::Dict(m) => {
                    if t == RECORD {
                        return None;
                    }
                    assert(xv->Dict_0 =~= entries_view(&m));
                    let r = if t == SUCCESS { Response::Success(m) } else { Response::Failure(m) };
                    assert(r@->Struct_1 =~= vv->Struct_1);
                    Some(r)
                },
                WireValue::List(l) => {
                    if t != RECORD {
                        return None;
                    }
                    assert(xv->List_0 =~= items_view(&l));
                    let r = Response::Record(l);
                    assert(r@->Struct_1 =~= vv->Struct_1);
                    Some(r)
                },
                _ => None,
            }
        },
        _ => None,
    }
}

/// The message that a whole framed reply from the server holds.
pub open spec fn message_of(s: Seq<u8>) -> Result<Val, ProtocolError> {
    match dechunk(s, 0) {
        Err(e) => Err(ProtocolError::Frame(e)),
        Ok((m, _)) => match parse(m, 0) {
            Err(e) => Err(ProtocolError::Codec(e)),
            Ok((v, q)) => if q != m.len() {
                Err(ProtocolError::TrailingBytes)
            } else if !is_response(v) {
                Err(ProtocolError::NotAMessage)
            } else {
                Ok(v)
            },
        },
    }
}

/// Reads one framed server message from the start of `buf`.
pub fn read_message(buf: &Vec<u8>) -> (r: Result<Response, ProtocolError>)
    ensures
        match message_of(buf@) {
            Ok(v) => r is Ok && r->Ok_0@ == v,
            Err(e) => r is Err && r->Err_0 == e,
        },
{
    let (msg, _end) = match unframe(buf, 0) {
        Ok(x) => x,
        Err(e) => return Err(ProtocolError::Frame(e)),
    };
    let (v, q) = match decode(&msg, 0) {
        Ok(x) => x,
        Err(e) => return Err(ProtocolError::Codec(e)),
    };
    if q != msg.len() {
        return Err(ProtocolError::TrailingBytes);
    }
    match response_of(v) {
        Some(r) => Ok(r),
        None => Err(ProtocolError::NotAMessage),
    }
}

/// The value of the first metadata entry named `key`.
pub fn meta_get<'a>(meta: &'a Vec<(String, WireValue)>, key: &str) -> (r: Option<&'a WireValue>)
    ensures
        match r {
            Some(v) => exists|i: int|
                0 <= i < meta.len() && meta@[i].0@ == key@ && v@ == meta@[i].1@ && forall|j: int|
                    0 <= j < i ==> meta@[j].0@ != key@,
            None => forall|j: int| 0 <= j < meta.len() ==> meta@[j].0@ != key@,
        },
{
    let mut i: usize = 0;
    while i < meta.len()
        invariant
            i <= meta.len(),
            forall|j: int| 0 <= j < i ==> meta@[j].0@ != key@,
        decreases meta.len() - i,
    {
        if str_eq(meta[i].0.as_str(), key) {
            return Some(&meta[i].1);
        }
        i = i + 1;
    }
    None
}

/// Whether a summary's first "has_more" entry is `true`.
pub open spec fn summary_has_more(m: Seq<(Seq<char>, Val)>) -> bool {
    exists|i: int|
        0 <= i < m.len() && m[i].0 == seq!['h', 'a', 's', '_', 'm', 'o', 'r', 'e'] && m[i].1 == Val::Bool(true)
            && forall|j: int| 0 <= j < i ==> m[j].0 != seq!['h', 'a', 's', '_', 'm', 'o', 'r', 'e']
}

/// Whether a SUCCESS summary says that more records wait: its "has_more"
/// entry is `true`.
pub fn has_more(meta: &Vec<(String, WireValue)>) -> (r: bool)
    ensures
        r == summary_has_more(entries_view(meta)),
        r == exists|i: int|
            0 <= i < meta.len() && meta@[i].0@ == seq!['h', 'a', 's', '_', 'm', 'o', 'r', 'e'] && meta@[i].1@
                == Val::Bool(true) && forall|j: int| 0 <= j < i ==> meta@[j].0@ != seq!['h', 'a', 's', '_', 'm', 'o', 'r', 'e'],
{
    proof {
        reveal_strlit("has_more");
    }
    let key = "has_more";
    assert(key@ =~= seq!['h', 'a', 's', '_', 'm', 'o', 'r', 'e']);
    let ghost m = entries_view(meta);
    assert forall|i: int| 0 <= i < meta.len() implies #[trigger] m[i] == (meta@[i].0@, meta@[i].1@) by {}
    let got = meta_get(meta, key);
    proof {
        match got {
            Some(v) => {
                let i = choose|i: int|
                    0 <= i < meta.len() && meta@[i].0@ == key@ && v@ == meta@[i].1@ && forall|j: int|
                        0 <= j < i ==> meta@[j].0@ != key@;
                assert(m[i] == (meta@[i].0@, meta@[i].1@));
                if summary_has_more(m) {
                    let k = choose|k: int|
                        0 <= k < m.len() && m[k].0 == seq!['h', 'a', 's', '_', 'm', 'o', 'r', 'e'] && m[k].1 == Val::Bool(true)
                            && forall|j: int| 0 <= j < k ==> m[j].0 != seq!['h', 'a', 's', '_', 'm', 'o', 'r', 'e'];
                    if k < i {
                        assert(m[k] == (meta@[k].0@, meta@[k].1@));
                    } else if k > i {
                    }
                    assert(k == i);
                }
                if v@ == Val::Bool(true) {
                    assert forall|j: int| 0 <= j < i implies m[j].0 != seq!['h', 'a', 's', '_', 'm', 'o', 'r', 'e'] by {
                        assert(m[j] == (meta@[j].0@, meta@[j].1@));
                    }
                }
            },
            None => {
                if summary_has_more(m) {
                    let k = choose|k: int|
                        0 <= k < m.len() && m[k].0 == seq!['h', 'a', 's', '_', 'm', 'o', 'r', 'e'] && m[k].1 == Val::Bool(true)
                            && forall|j: int| 0 <= j < k ==> m[j].0 != seq!['h', 'a', 's', '_', 'm', 'o', 'r', 'e'];
                    assert(m[k] == (meta@[k].0@, meta@[k].1@));
                }
            },
        }
    }
    match got {
        Some(WireValue::Bool(b)) => *b,
        Some(_) => false,
        None => false,
    }
}

/// The field names that a RUN's SUCCESS announces under "fields", when
/// that entry is a list of strings.
pub fn field_names(meta: &Vec<(String, WireValue)>) -> (r: Option<Vec<String>>)
    ensures
        match r {
            Some(names) => exists|i: int|
                0 <= i < meta.len() && meta@[i].0@ == seq!['f', 'i', 'e', 'l', 'd', 's'] && meta@[i].1@ == str_list(
                    strings_view(&names),
                ) && forall|j: int| 0 <= j < i ==> meta@[j].0@ != seq!['f', 'i', 'e', 'l', 'd', 's'],
            None => forall|i: int|
                0 <= i < meta.len() && meta@[i].0@ == seq!['f', 'i', 'e', 'l', 'd', 's'] && (forall|j: int|
                    0 <= j < i ==> meta@[j].0@ != seq!['f', 'i', 'e', 'l', 'd', 's']) ==> !is_str_list(meta@[i].1@),
        },
{
    proof {
        reveal_strlit("fields");
    }
    let key = "fields";
    assert(key@ =~= seq!['f', 'i', 'e', 'l', 'd', 's']);
    let got = meta_get(meta, key);
    match got {
        Some(WireValue::List(l)) => {
            let ghost lv = items_view(l);
            let ghost idx = choose|i: int|
                0 <= i < meta.len() && meta@[i].0@ == key@ && got->Some_0@ == meta@[i].1@ && forall|j: int|
                    0 <= j < i ==> meta@[j].0@ != key@;
            assert(got->Some_0@->List_0 =~= lv);
            let mut out: Vec<String> = Vec::new();
            let mut i: usize = 0;
            while i < l.len()
                invariant
                    lv == items_view(l),
                    0 <= idx < meta.len(),
                    meta@[idx].0@ == seq!['f', 'i', 'e', 'l', 'd', 's'],
                    forall|j: int| 0 <= j < idx ==> meta@[j].0@ != seq!['f', 'i', 'e', 'l', 'd', 's'],
                    meta@[idx].1@ == Val::List(lv),
                    i <= l.len(),
                    out.len() == i,
                    forall|j: int| 0 <= j < i ==> lv[j] == Val::Str(#[trigger] out@[j]@),
                decreases l.len() - i,
            {
                match &l[i] {
                    WireValue::String(x) => out.push(x.as_str().to_owned()),
                    _ => {
                        assert(!(lv[i as int] is Str));
                        proof {
                            assert forall|k: int|
                                0 <= k < meta.len() && meta@[k].0@ == seq!['f', 'i', 'e', 'l', 'd', 's'] && (forall|j: int|
                                    0 <= j < k ==> meta@[j].0@ != seq!['f', 'i', 'e', 'l', 'd', 's']) implies !is_str_list(
                                meta@[k].1@,
                            ) by {
                                if k < idx {
                                } else if k > idx {
                                } else {
                                    assert(meta@[k].1@->List_0[i as int] == lv[i as int]);
                                }
                            }
                        }
                        return None;
                    },
                }
                i = i + 1;
            }
            proof {
                assert(str_list(strings_view(&out))->List_0 =~= lv);
            }
            Some(out)
        },
        Some(v) => {
            proof {
                assert forall|k: int|
                    0 <= k < meta.len() && meta@[k].0@ == seq!['f', 'i', 'e', 'l', 'd', 's'] && (forall|j: int|
                        0 <= j < k ==> meta@[j].0@ != seq!['f', 'i', 'e', 'l', 'd', 's']) implies !is_str_list(
                    meta@[k].1@,
                ) by {
                    let i = choose|i: int|
                        0 <= i < meta.len() && meta@[i].0@ == key@ && v@ == meta@[i].1@ && forall|j: int|
                            0 <= j < i ==> meta@[j].0@ != key@;
                    if k < i {
                    } else if k > i {
                        assert(meta@[i].0@ == key@);
                    }
                }
            }
            None
        },
        None => None,
    }
}

} // verus!
