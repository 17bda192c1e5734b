//! Per-connection protocol step: the decision core of the connection
//! driver's loop. Each decoded request becomes one store operation and one
//! response; a malformed line becomes an error that leaves the store
//! untouched, so the failure stays confined to the offending connection.

use vstd::prelude::*;
use crate::codec::{
    encode_response_frame, encode_response_spec, parse_request, parse_request_spec, ProtocolError,
    ReqModel, Request, RespModel, Response, BYTE_LF,
};
use crate::store::{
    apply_op_result, apply_op_state, OpModel, Operation, OperationResult, ResModel, Store,
};

verus! {

/// The mapping after serving one request: a GET leaves it unchanged, a SET
/// inserts or replaces the binding for its key.
pub open spec fn state_after(m: Map<Seq<u8>, Seq<u8>>, req: ReqModel) -> Map<Seq<u8>, Seq<u8>> {
    match req {
        ReqModel::Get { key } => m,
        ReqModel::Put { key, value } => m.insert(key, value),
    }
}

/// The response owed to a request against a given mapping: a GET echoes
/// the key with the value present iff the key is bound, a SET echoes the
/// key as its unconditional acknowledgment.
pub open spec fn response_for(m: Map<Seq<u8>, Seq<u8>>, req: ReqModel) -> RespModel {
    match req {
        ReqModel::Get { key } => RespModel::Get {
            key,
            value: if m.contains_key(key) {
                Some(m[key])
            } else {
                None
            },
        },
        ReqModel::Put { key, value } => RespModel::Put { key },
    }
}

/// Serves one decoded request: dispatches it to the store and builds the
/// response the peer is owed, reflecting the mapping at the instant the
/// store processed it.
pub fn process_request(store: &mut Store, req: Request) -> (resp: Response)
    requires
        old(store).wf(),
    ensures
        final(store).wf(),
        final(store)@ == state_after(old(store)@, req@),
        resp@ == response_for(old(store)@, req@),
{
    match req {
        Request::Get { key } => {
            let value = store.get(key.as_slice());
            Response::Get { key, value }
        },
        Request::Put { key, value } => {
            let key_copy = crate::util::copy_range(key.as_slice(), 0, key.len());
            proof {
                assert(key_copy@ =~= key@);
            }
            store.set(key, value);
            Response::Put { key: key_copy }
        },
    }
}

/// Serves one terminator-stripped line: decodes it, dispatches the request
/// and encodes the terminated response frame. A malformed line yields the
/// protocol error and leaves the store exactly as it was.
pub fn handle_line(store: &mut Store, line: &[u8]) -> (r: Result<Vec<u8>, ProtocolError>)
    requires
        old(store).wf(),
    ensures
        final(store).wf(),
        match parse_request_spec(line@) {
            Some(req) => {
                &&& r is Ok
                &&& final(store)@ == state_after(old(store)@, req)
                &&& r->Ok_0@ == encode_response_spec(response_for(old(store)@, req)) + seq![
                    BYTE_LF,
                ]
            },
            None => {
                &&& r is Err
                &&& final(store)@ == old(store)@
            },
        },
{
    match parse_request(line) {
        Ok(req) => {
            let resp = process_request(store, req);
            Ok(encode_response_frame(&resp))
        },
        Err(e) => Err(e),
    }
}

/// The store operation a decoded request asks for.
pub open spec fn op_of_req(req: ReqModel) -> OpModel {
    match req {
        ReqModel::Get { key } => OpModel::Get { key },
        ReqModel::Put { key, value } => OpModel::Put { key, value },
    }
}

/// The response that carries an engine reply back to the peer.
pub open spec fn resp_of_res(res: ResModel) -> RespModel {
    match res {
        ResModel::GetResult { key, value } => RespModel::Get { key, value },
        ResModel::PutResult { key } => RespModel::Put { key },
    }
}

/// Turns one decoded request into the operation to submit to the engine.
pub fn operation_of(req: Request) -> (op: Operation)
    ensures
        op@ == op_of_req(req@),
{
    match req {
        Request::Get { key } => Operation::Get { key },
        Request::Put { key, value } => Operation::Put { key, value },
    }
}

/// Turns the engine's reply into the response owed on the connection.
pub fn response_of(res: OperationResult) -> (resp: Response)
    ensures
        resp@ == resp_of_res(res@),
{
    match res {
        OperationResult::GetResult { key, value } => Response::Get { key, value },
        OperationResult::PutResult { key } => Response::Put { key },
    }
}

/// Dispatching through the engine agrees with serving the request in
/// place: the operation's reply, carried back as a response, is exactly
/// the response the request is owed, and the mapping moves the same way.
pub proof fn lemma_dispatch_coherent(m: Map<Seq<u8>, Seq<u8>>, req: ReqModel)
    ensures
        apply_op_state(m, op_of_req(req)) == state_after(m, req),
        resp_of_res(apply_op_result(m, op_of_req(req))) == response_for(m, req),
{
}

} // verus!

