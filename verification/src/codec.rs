//! Wire codec: newline-delimited text lines carrying GET/SET requests and
//! their responses.
//!
//! Request grammar (case-sensitive keywords, fields separated by a single
//! space):
//! ```text
//! GET <key>
//! SET <key> <value>
//! ```
//! Response grammar:
//! ```text
//! GET <key> <value-or-ABSENT>
//! SET <key>
//! ```
//! Keys and values are non-empty tokens free of space, carriage return and
//! line feed. The reserved token `ABSENT` marks a missing key in a GET
//! response; a stored value equal to that token cannot be told apart from it
//! on the wire, so well-formed responses exclude it. A line matching neither
//! grammar is a protocol error: the decoder reports it rather than skipping
//! the line.

use vstd::prelude::*;
use crate::util::{copy_range, find_byte, push_all};

verus! {

pub const BYTE_SPACE: u8 = 32;
pub const BYTE_LF: u8 = 10;
pub const BYTE_CR: u8 = 13;

pub const BYTE_G: u8 = 71;
pub const BYTE_S: u8 = 83;
pub const BYTE_E: u8 = 69;
pub const BYTE_T: u8 = 84;
pub const BYTE_A: u8 = 65;
pub const BYTE_B: u8 = 66;
pub const BYTE_N: u8 = 78;

/// A token is a non-empty run of bytes containing none of the separator
/// bytes (space, carriage return, line feed).
pub open spec fn is_token(s: Seq<u8>) -> bool {
    s.len() > 0 && forall|i: int|
        0 <= i < s.len() ==> s[i] != BYTE_SPACE && s[i] != BYTE_CR && s[i] != BYTE_LF
}

/// The bytes of the keyword `GET` followed by a space.
pub open spec fn get_prefix() -> Seq<u8> {
    seq![BYTE_G, BYTE_E, BYTE_T, BYTE_SPACE]
}

/// The bytes of the keyword `SET` followed by a space.
pub open spec fn set_prefix() -> Seq<u8> {
    seq![BYTE_S, BYTE_E, BYTE_T, BYTE_SPACE]
}

/// The bytes of the reserved absent marker `ABSENT`.
pub open spec fn absent_marker() -> Seq<u8> {
    seq![BYTE_A, BYTE_B, BYTE_S, BYTE_E, BYTE_N, BYTE_T]
}

/// Mathematical shape of a request: the decoded fields.
pub enum ReqModel {
    Get { key: Seq<u8> },
    Put { key: Seq<u8>, value: Seq<u8> },
}

/// Mathematical shape of a response: the decoded fields, with a GET value
/// of `None` standing for an absent key.
pub enum RespModel {
    Get { key: Seq<u8>, value: Option<Seq<u8>> },
    Put { key: Seq<u8> },
}

/// A request whose fields the wire format can carry.
pub open spec fn req_wf(m: ReqModel) -> bool {
    match m {
        ReqModel::Get { key } => is_token(key),
        ReqModel::Put { key, value } => is_token(key) && is_token(value),
    }
}

/// A response whose fields the wire format can carry; a present GET value
/// must differ from the reserved absent marker.
pub open spec fn resp_wf(m: RespModel) -> bool {
    match m {
        RespModel::Get { key, value } => is_token(key) && match value {
            Some(v) => is_token(v) && v != absent_marker(),
            None => true,
        },
        RespModel::Put { key } => is_token(key),
    }
}

/// The bytes of one request line, without the terminator.
pub open spec fn encode_request_spec(m: ReqModel) -> Seq<u8> {
    match m {
        ReqModel::Get { key } => get_prefix() + key,
        ReqModel::Put { key, value } => set_prefix() + key + seq![BYTE_SPACE] + value,
    }
}

/// The bytes of one response line, without the terminator.
pub open spec fn encode_response_spec(m: RespModel) -> Seq<u8> {
    match m {
        RespModel::Get { key, value } => match value {
            Some(v) => get_prefix() + key + seq![BYTE_SPACE] + v,
            None => get_prefix() + key + seq![BYTE_SPACE] + absent_marker(),
        },
        RespModel::Put { key } => set_prefix() + key,
    }
}

/// Splits `rest` at its first space into two tokens, if that is its shape.
pub open spec fn parse_fields(rest: Seq<u8>) -> Option<(Seq<u8>, Seq<u8>)> {
    match rest.index_of_first(BYTE_SPACE) {
        Some(i) => {
            let k = rest.take(i);
            let v = rest.skip(i + 1);
            if is_token(k) && is_token(v) {
                Some((k, v))
            } else {
                None
            }
        },
        None => None,
    }
}

/// The request carried by one line, or `None` if the line is malformed.
pub open spec fn parse_request_spec(line: Seq<u8>) -> Option<ReqModel> {
    if line.len() > 4 && line.take(4) == get_prefix() {
        let rest = line.skip(4);
        if is_token(rest) {
            Some(ReqModel::Get { key: rest })
        } else {
            None
        }
    } else if line.len() > 4 && line.take(4) == set_prefix() {
        match parse_fields(line.skip(4)) {
            Some((k, v)) => Some(ReqModel::Put { key: k, value: v }),
            None => None,
        }
    } else {
        None
    }
}

/// The response carried by one line, or `None` if the line is malformed;
/// the reserved marker decodes to an absent value.
pub open spec fn parse_response_spec(line: Seq<u8>) -> Option<RespModel> {
    if line.len() > 4 && line.take(4) == get_prefix() {
        match parse_fields(line.skip(4)) {
            Some((k, v)) => Some(
                RespModel::Get {
                    key: k,
                    value: if v == absent_marker() {
                        None
                    } else {
                        Some(v)
                    },
                },
            ),
            None => None,
        }
    } else if line.len() > 4 && line.take(4) == set_prefix() {
        let rest = line.skip(4);
        if is_token(rest) {
            Some(RespModel::Put { key: rest })
        } else {
            None
        }
    } else {
        None
    }
}

/// A decoded request.
pub enum Request {
    Get { key: Vec<u8> },
    Put { key: Vec<u8>, value: Vec<u8> },
}

/// A response to be encoded; a GET value of `None` stands for an absent key.
pub enum Response {
    Get { key: Vec<u8>, value: Option<Vec<u8>> },
    Put { key: Vec<u8> },
}

/// A line that matches neither request grammar.
#[derive(Clone, Copy, Debug, PartialEq, Eq, Structural)]
pub enum ProtocolError {
    MalformedLine,
}

impl View for Request {
    type V = ReqModel;

    open spec fn view(&self) -> ReqModel {
        match self {
            Request::Get { key } => ReqModel::Get { key: key@ },
            Request::Put { key, value } => ReqModel::Put { key: key@, value: value@ },
        }
    }
}

impl View for Response {
    type V = RespModel;

    open spec fn view(&self) -> RespModel {
        match self {
            Response::Get { key, value } => RespModel::Get {
                key: key@,
                value: match value {
                    Some(v) => Some(v@),
                    None => None,
                },
            },
            Response::Put { key } => RespModel::Put { key: key@ },
        }
    }
}

/// Checks that `s` is a non-empty token free of separator bytes.
pub fn check_token(s: &[u8]) -> (r: bool)
    ensures
        r == is_token(s@),
{
    if s.len() == 0 {
        return false;
    }
    let mut i: usize = 0;
    while i < s.len()
        invariant
            i <= s@.len(),
            s@.len() > 0,
            forall|j: int| 0 <= j < i ==> s@[j] != BYTE_SPACE && s@[j] != BYTE_CR && s@[j] != BYTE_LF,
        decreases s@.len() - i,
    {
        if s[i] == BYTE_SPACE || s[i] == BYTE_CR || s[i] == BYTE_LF {
            return false;
        }
        i = i + 1;
    }
    true
}

/// Decodes one terminator-stripped line into a request, reporting a
/// protocol error for any line the request grammar does not cover.
pub fn parse_request(line: &[u8]) -> (r: Result<Request, ProtocolError>)
    ensures
        match r {
            Ok(req) => parse_request_spec(line@) == Some(req@),
            Err(_) => parse_request_spec(line@) is None,
        },
{
    if line.len() <= 4 {
        return Err(ProtocolError::MalformedLine);
    }
    if line[0] == BYTE_G && line[1] == BYTE_E && line[2] == BYTE_T && line[3] == BYTE_SPACE {
        proof {
            assert(line@.take(4) =~= get_prefix());
        }
        let rest = copy_range(line, 4, line.len());
        proof {
            assert(rest@ =~= line@.skip(4));
        }
        if check_token(rest.as_slice()) {
            Ok(Request::Get { key: rest })
        } else {
            Err(ProtocolError::MalformedLine)
        }
    } else if line[0] == BYTE_S && line[1] == BYTE_E && line[2] == BYTE_T && line[3] == BYTE_SPACE {
        proof {
            assert(line@.take(4) =~= set_prefix());
            assert(line@.take(4) != get_prefix()) by {
                assert(get_prefix()[0] == BYTE_G);
                assert(set_prefix()[0] == BYTE_S);
            }
        }
        let rest = copy_range(line, 4, line.len());
        proof {
            assert(rest@ =~= line@.skip(4));
        }
        match find_byte(rest.as_slice(), BYTE_SPACE) {
            Some(i) => {
                proof {
                    rest@.index_of_first_ensures(BYTE_SPACE);
                }
                let k = copy_range(rest.as_slice(), 0, i);
                let v = copy_range(rest.as_slice(), i + 1, rest.len());
                proof {
                    assert(k@ =~= rest@.take(i as int));
                    assert(v@ =~= rest@.skip(i as int + 1));
                }
                if check_token(k.as_slice()) && check_token(v.as_slice()) {
                    Ok(Request::Put { key: k, value: v })
                } else {
                    Err(ProtocolError::MalformedLine)
                }
            },
            None => Err(ProtocolError::MalformedLine),
        }
    } else {
        proof {
            assert(line@.take(4) != get_prefix() && line@.take(4) != set_prefix()) by {
                assert(line@.take(4)[0] == line@[0]);
                assert(line@.take(4)[1] == line@[1]);
                assert(line@.take(4)[2] == line@[2]);
                assert(line@.take(4)[3] == line@[3]);
            }
        }
        Err(ProtocolError::MalformedLine)
    }
}

/// Encodes a request as one line, without the terminator.
pub fn encode_request(req: &Request) -> (r: Vec<u8>)
    ensures
        r@ == encode_request_spec(req@),
{
    let mut out: Vec<u8> = Vec::new();
    match req {
        Request::Get { key } => {
            out.push(BYTE_G);
            out.push(BYTE_E);
            out.push(BYTE_T);
            out.push(BYTE_SPACE);
            push_all(&mut out, key.as_slice());
            proof {
                assert(out@ =~= get_prefix() + key@);
            }
        },
        Request::Put { key, value } => {
            out.push(BYTE_S);
            out.push(BYTE_E);
            out.push(BYTE_T);
            out.push(BYTE_SPACE);
            push_all(&mut out, key.as_slice());
            out.push(BYTE_SPACE);
            push_all(&mut out, value.as_slice());
            proof {
                assert(out@ =~= set_prefix() + key@ + seq![BYTE_SPACE] + value@);
            }
        },
    }
    out
}

/// Encodes a response as one line, without the terminator; an absent GET
/// value becomes the reserved marker.
pub fn encode_response(resp: &Response) -> (r: Vec<u8>)
    ensures
        r@ == encode_response_spec(resp@),
{
    let mut out: Vec<u8> = Vec::new();
    match resp {
        Response::Get { key, value } => {
            out.push(BYTE_G);
            out.push(BYTE_E);
            out.push(BYTE_T);
            out.push(BYTE_SPACE);
            push_all(&mut out, key.as_slice());
            out.push(BYTE_SPACE);
            match value {
                Some(v) => {
                    push_all(&mut out, v.as_slice());
                    proof {
                        assert(out@ =~= get_prefix() + key@ + seq![BYTE_SPACE] + v@);
                    }
                },
                None => {
                    out.push(BYTE_A);
                    out.push(BYTE_B);
                    out.push(BYTE_S);
                    out.push(BYTE_E);
                    out.push(BYTE_N);
                    out.push(BYTE_T);
                    proof {
                        assert(out@ =~= get_prefix() + key@ + seq![BYTE_SPACE] + absent_marker());
                    }
                },
            }
        },
        Response::Put { key } => {
            out.push(BYTE_S);
            out.push(BYTE_E);
            out.push(BYTE_T);
            out.push(BYTE_SPACE);
            push_all(&mut out, key.as_slice());
            proof {
                assert(out@ =~= set_prefix() + key@);
            }
        },
    }
    out
}

/// Decodes one terminator-stripped line into a response, reporting a
/// protocol error for any line the response grammar does not cover.
pub fn parse_response(line: &[u8]) -> (r: Result<Response, ProtocolError>)
    ensures
        match r {
            Ok(resp) => parse_response_spec(line@) == Some(resp@),
            Err(_) => parse_response_spec(line@) is None,
        },
{
    if line.len() <= 4 {
        return Err(ProtocolError::MalformedLine);
    }
    if line[0] == BYTE_G && line[1] == BYTE_E && line[2] == BYTE_T && line[3] == BYTE_SPACE {
        proof {
            assert(line@.take(4) =~= get_prefix());
        }
        let rest = copy_range(line, 4, line.len());
        proof {
            assert(rest@ =~= line@.skip(4));
        }
        match find_byte(rest.as_slice(), BYTE_SPACE) {
            Some(i) => {
                proof {
                    rest@.index_of_first_ensures(BYTE_SPACE);
                }
                let k = copy_range(rest.as_slice(), 0, i);
                let v = copy_range(rest.as_slice(), i + 1, rest.len());
                proof {
                    assert(k@ =~= rest@.take(i as int));
                    assert(v@ =~= rest@.skip(i as int + 1));
                }
                if check_token(k.as_slice()) && check_token(v.as_slice()) {
                    if is_absent_marker(v.as_slice()) {
                        Ok(Response::Get { key: k, value: None })
                    } else {
                        Ok(Response::Get { key: k, value: Some(v) })
                    }
                } else {
                    Err(ProtocolError::MalformedLine)
                }
            },
            None => Err(ProtocolError::MalformedLine),
        }
    } else if line[0] == BYTE_S && line[1] == BYTE_E && line[2] == BYTE_T && line[3] == BYTE_SPACE {
        proof {
            assert(line@.take(4) =~= set_prefix());
            assert(line@.take(4) != get_prefix()) by {
                assert(get_prefix()[0] == BYTE_G);
                assert(set_prefix()[0] == BYTE_S);
            }
        }
        let rest = copy_range(line, 4, line.len());
        proof {
            assert(rest@ =~= line@.skip(4));
        }
        if check_token(rest.as_slice()) {
            Ok(Response::Put { key: rest })
        } else {
            Err(ProtocolError::MalformedLine)
        }
    } else {
        proof {
            assert(line@.take(4) != get_prefix() && line@.take(4) != set_prefix()) by {
                assert(line@.take(4)[0] == line@[0]);
                assert(line@.take(4)[1] == line@[1]);
                assert(line@.take(4)[2] == line@[2]);
                assert(line@.take(4)[3] == line@[3]);
            }
        }
        Err(ProtocolError::MalformedLine)
    }
}

/// Checks whether `s` is exactly the reserved absent marker.
fn is_absent_marker(s: &[u8]) -> (r: bool)
    ensures
        r == (s@ == absent_marker()),
{
    if s.len() != 6 {
        proof {
            assert(absent_marker().len() == 6);
        }
        return false;
    }
    let r = s[0] == BYTE_A && s[1] == BYTE_B && s[2] == BYTE_S && s[3] == BYTE_E && s[4] == BYTE_N
        && s[5] == BYTE_T;
    proof {
        if r {
            assert(s@ =~= absent_marker());
        } else {
            assert(s@ != absent_marker()) by {
                assert(absent_marker()[0] == BYTE_A);
                assert(absent_marker()[1] == BYTE_B);
                assert(absent_marker()[2] == BYTE_S);
                assert(absent_marker()[3] == BYTE_E);
                assert(absent_marker()[4] == BYTE_N);
                assert(absent_marker()[5] == BYTE_T);
            }
        }
    }
    r
}

/// The reserved absent marker is itself a well-formed token.
pub proof fn lemma_absent_marker_is_token()
    ensures
        is_token(absent_marker()),
{
    assert forall|i: int| 0 <= i < absent_marker().len() implies absent_marker()[i] != BYTE_SPACE
        && absent_marker()[i] != BYTE_CR && absent_marker()[i] != BYTE_LF by {
        if i == 0 {
            assert(absent_marker()[0] == BYTE_A);
        } else if i == 1 {
            assert(absent_marker()[1] == BYTE_B);
        } else if i == 2 {
            assert(absent_marker()[2] == BYTE_S);
        } else if i == 3 {
            assert(absent_marker()[3] == BYTE_E);
        } else if i == 4 {
            assert(absent_marker()[4] == BYTE_N);
        } else {
            assert(absent_marker()[5] == BYTE_T);
        }
    }
}

/// Splitting a token, a space and a token at the first space recovers the
/// two tokens.
proof fn lemma_fields_split(k: Seq<u8>, v: Seq<u8>)
    requires
        is_token(k),
        is_token(v),
    ensures
        parse_fields(k + seq![BYTE_SPACE] + v) == Some((k, v)),
{
    let rest = k + seq![BYTE_SPACE] + v;
    rest.index_of_first_ensures(BYTE_SPACE);
    assert(rest[k.len() as int] == BYTE_SPACE);
    assert(rest.contains(BYTE_SPACE));
    let i = rest.index_of_first(BYTE_SPACE)->Some_0;
    assert(i == k.len()) by {
        if i < k.len() {
            assert(rest[i] == k[i]);
        }
        if i > k.len() {
            assert(rest[k.len() as int] != BYTE_SPACE);
        }
    }
    assert(rest.take(i) =~= k);
    assert(rest.skip(i + 1) =~= v);
}

/// Round trip for requests: decoding a line encoded from well-formed fields
/// recovers exactly those fields.
pub proof fn lemma_request_round_trip(m: ReqModel)
    requires
        req_wf(m),
    ensures
        parse_request_spec(encode_request_spec(m)) == Some(m),
{
    match m {
        ReqModel::Get { key } => {
            let line = get_prefix() + key;
            assert(line.take(4) =~= get_prefix());
            assert(line.skip(4) =~= key);
        },
        ReqModel::Put { key, value } => {
            let line = set_prefix() + key + seq![BYTE_SPACE] + value;
            assert(line.take(4) =~= set_prefix());
            assert(line.take(4) != get_prefix()) by {
                assert(set_prefix()[0] == BYTE_S);
                assert(get_prefix()[0] == BYTE_G);
            }
            assert(line.skip(4) =~= key + seq![BYTE_SPACE] + value);
            lemma_fields_split(key, value);
        },
    }
}

/// Round trip for responses: decoding a line encoded from well-formed
/// fields recovers exactly those fields, with the reserved marker decoding
/// back to an absent value.
pub proof fn lemma_response_round_trip(m: RespModel)
    requires
        resp_wf(m),
    ensures
        parse_response_spec(encode_response_spec(m)) == Some(m),
{
    match m {
        RespModel::Get { key, value } => {
            let v = match value {
                Some(v) => v,
                None => absent_marker(),
            };
            lemma_absent_marker_is_token();
            let line = get_prefix() + key + seq![BYTE_SPACE] + v;
            assert(line.take(4) =~= get_prefix());
            assert(line.skip(4) =~= key + seq![BYTE_SPACE] + v);
            lemma_fields_split(key, v);
        },
        RespModel::Put { key } => {
            let line = set_prefix() + key;
            assert(line.take(4) =~= set_prefix());
            assert(line.take(4) != get_prefix()) by {
                assert(set_prefix()[0] == BYTE_S);
                assert(get_prefix()[0] == BYTE_G);
            }
            assert(line.skip(4) =~= key);
        },
    }
}


/// The parser accepts nothing but encodings: a line decoded as a request
/// is the encoding of well-formed fields, so distinct messages can never
/// merge into one decode nor one message split across two.
pub proof fn lemma_request_parse_complete(line: Seq<u8>, m: ReqModel)
    requires
        parse_request_spec(line) == Some(m),
    ensures
        req_wf(m),
        encode_request_spec(m) == line,
{
    if line.len() > 4 && line.take(4) == get_prefix() {
        assert(line =~= line.take(4) + line.skip(4));
    } else {
        let rest = line.skip(4);
        rest.index_of_first_ensures(BYTE_SPACE);
        let i = rest.index_of_first(BYTE_SPACE)->Some_0;
        match m {
            ReqModel::Put { key, value } => {
                assert(key == rest.take(i) && value == rest.skip(i + 1));
                assert(rest =~= rest.take(i) + seq![rest[i]] + rest.skip(i + 1));
                assert(line =~= line.take(4) + line.skip(4));
                assert(encode_request_spec(m) =~= line.take(4) + (key + seq![BYTE_SPACE] + value));
            },
            ReqModel::Get { .. } => {
                assert(false);
            },
        }
    }
}

/// The parser accepts nothing but encodings, for responses: a line decoded
/// as a response is the encoding of well-formed fields.
pub proof fn lemma_response_parse_complete(line: Seq<u8>, m: RespModel)
    requires
        parse_response_spec(line) == Some(m),
    ensures
        resp_wf(m),
        encode_response_spec(m) == line,
{
    if line.len() > 4 && line.take(4) == get_prefix() {
        let rest = line.skip(4);
        rest.index_of_first_ensures(BYTE_SPACE);
        let i = rest.index_of_first(BYTE_SPACE)->Some_0;
        match m {
            RespModel::Get { key, value } => {
                let v = rest.skip(i + 1);
                assert(key == rest.take(i));
                assert(rest =~= rest.take(i) + seq![rest[i]] + rest.skip(i + 1));
                assert(line =~= line.take(4) + line.skip(4));
                assert(encode_response_spec(m) =~= line.take(4) + (key + seq![BYTE_SPACE] + v));
            },
            RespModel::Put { .. } => {
                assert(false);
            },
        }
    } else {
        assert(line =~= line.take(4) + line.skip(4));
    }
}


/// Encodes a response as one complete wire frame: the line followed by the
/// terminator.
pub fn encode_response_frame(resp: &Response) -> (r: Vec<u8>)
    ensures
        r@ == encode_response_spec(resp@) + seq![BYTE_LF],
{
    let mut out = encode_response(resp);
    out.push(BYTE_LF);
    out
}

} // verus!


