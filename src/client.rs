//! Calls, batches of calls, and what their results decode to.
use vstd::prelude::*;
use crate::codec::{Kind, Value, CodecError, decode_model, decode_value};
use crate::error::{RPCError, ConnectionError};
use crate::krpc::{
    Argument, CallModel, ProcedureCall, ProcedureResult, Request, Response, ResultModel,
    ConnectionRequest, ConnectionResponse, ConnectionType, ConnectionStatus,
    call_bytes,
};

verus! {

/// What a result decodes to as a value of kind `k`: the server's error
/// where it reports one, else the value its bytes hold.
pub open spec fn result_matches(r: Result<Value, RPCError>, res: ResultModel, k: Kind) -> bool {
    match res.error {
        Some(e) => r matches Err(RPCError::KRPCRequestErr(x)) && x@ == e,
        None => match decode_model(k, res.value) {
            Some(m) => r matches Ok(v) && v@ == m,
            None => r matches Err(RPCError::ProtobufErr(_)),
        },
    }
}

/// The value of a call's result, decoded as kind `kind`; the server's
/// error where it reports one, without reading the value.
pub fn extract_result(result: &ProcedureResult, kind: &Kind) -> (r: Result<Value, RPCError>)
    ensures
        result_matches(r, result@, *kind),
{
    match &result.error {
        Some(e) => Err(RPCError::KRPCRequestErr(e.copy())),
        None => match decode_value(kind, result.value.as_slice()) {
            Ok(v) => Ok(v),
            Err(e) => Err(RPCError::ProtobufErr(e)),
        },
    }
}

/// A call together with the kind of value its result holds.
#[derive(Debug)]
pub struct CallHandle {
    pub proc_call: ProcedureCall,
    pub kind: Kind,
}

/// The call that asks the server for a stream of the results of `c`: the
/// `AddStream` procedure of the `KRPC` service, with the encoded call as its
/// one argument.
pub open spec fn add_stream_call(c: CallModel) -> CallModel {
    CallModel {
        service: seq!['K', 'R', 'P', 'C'],
        procedure: seq!['A', 'd', 'd', 'S', 't', 'r', 'e', 'a', 'm'],
        service_id: 0,
        procedure_id: 0,
        arguments: seq![(0u32, call_bytes(c))],
    }
}

/// Builds a call of the `KRPC` service with one argument at position zero.
fn krpc_call(procedure: String, arg: Vec<u8>) -> (r: ProcedureCall)
    ensures
        r@.service == seq!['K', 'R', 'P', 'C'],
        r@.procedure == procedure@,
        r@.service_id == 0,
        r@.procedure_id == 0,
        r@.arguments == seq![(0u32, arg@)],
{
    let service = "KRPC".to_string();
    proof {
        reveal_strlit("KRPC");
        assert(service@ =~= seq!['K', 'R', 'P', 'C']);
    }
    let mut arguments: Vec<Argument> = Vec::new();
    arguments.push(Argument { position: 0, value: arg });
    let r = ProcedureCall { service, procedure, service_id: 0, procedure_id: 0, arguments };
    assert(r@.arguments =~= seq![(0u32, r.arguments@[0].value@)]);
    r
}

/// Wraps a call so that, once submitted, it starts a stream of its results
/// and returns the stream's identifier. A stream of a stream is accepted.
pub fn mk_stream(call: &CallHandle) -> (r: CallHandle)
    ensures
        r.proc_call@ == add_stream_call(call.proc_call@),
        r.kind == Kind::Stream(Box::new(call.kind)),
{
    let bytes = call.proc_call.encode();
    let procedure = "AddStream".to_string();
    proof {
        reveal_strlit("AddStream");
        assert(procedure@ =~= seq!['A', 'd', 'd', 'S', 't', 'r', 'e', 'a', 'm']);
    }
    let proc_call = krpc_call(procedure, bytes);
    CallHandle { proc_call, kind: Kind::Stream(Box::new(call.kind.copy())) }
}

impl CallHandle {
    pub fn new(proc_call: ProcedureCall, kind: Kind) -> (r: CallHandle)
        ensures
            r.proc_call == proc_call,
            r.kind == kind,
    {
        CallHandle { proc_call, kind }
    }

    /// The call that starts a stream of this call's results.
    pub fn to_stream(&self) -> (r: CallHandle)
        ensures
            r.proc_call@ == add_stream_call(self.proc_call@),
            r.kind == Kind::Stream(Box::new(self.kind)),
    {
        mk_stream(self)
    }

    /// This call's value in `result`.
    pub fn get_result(&self, result: &ProcedureResult) -> (r: Result<Value, RPCError>)
        ensures
            result_matches(r, result@, self.kind),
    {
        extract_result(result, &self.kind)
    }

    pub fn get_call(&self) -> (r: &ProcedureCall)
        ensures
            r == &self.proc_call,
    {
        &self.proc_call
    }
}

/// A batch of calls under construction, in the order they were added.
#[derive(Debug)]
pub struct RPCRequest {
    pub calls: Vec<ProcedureCall>,
}

impl RPCRequest {
    pub fn new() -> (r: RPCRequest)
        ensures
            r.calls@.len() == 0,
    {
        RPCRequest { calls: Vec::new() }
    }

    /// Appends a copy of the handle's call to the batch.
    pub fn add_call(&mut self, handle: &CallHandle)
        ensures
            final(self).calls@.len() == old(self).calls@.len() + 1,
            forall|i: int|
                0 <= i < old(self).calls@.len() ==> #[trigger] final(self).calls@[i] == old(
                    self,
                ).calls@[i],
            final(self).calls@[old(self).calls@.len() as int]@ == handle.proc_call@,
    {
        self.calls.push(handle.proc_call.copy());
    }

    /// The request that carries the batch, calls in the order they were added.
    pub fn build(self) -> (r: Request)
        ensures
            r.calls@ == self.calls@,
    {
        Request { calls: self.calls }
    }
}

impl Default for RPCRequest {
    fn default() -> (r: RPCRequest)
        ensures
            r.calls@.len() == 0,
    {
        RPCRequest::new()
    }
}

/// The results of a batch, one for each call, in the order of the calls:
/// result `i` is decoded as the kind of handle `i` from result `i` of the
/// response alone. A failure of the whole request, or a response with another
/// number of results than there were calls, fails the batch.
pub fn batch_results(response: &Response, handles: &Vec<CallHandle>) -> (r: Result<
    Vec<Result<Value, RPCError>>,
    RPCError,
>)
    ensures
        match response@.error {
            Some(e) => r matches Err(RPCError::KRPCRequestErr(x)) && x@ == e,
            None => if response.results@.len() != handles@.len() {
                r matches Err(RPCError::ProtobufErr(CodecError::Malformed))
            } else {
                r matches Ok(v) && v@.len() == handles@.len() && forall|i: int|
                    0 <= i < v@.len() ==> result_matches(
                        #[trigger] v@[i],
                        response@.results[i],
                        handles@[i].kind,
                    )
            },
        },
{
    if let Some(e) = &response.error {
        return Err(RPCError::KRPCRequestErr(e.copy()));
    }
    if response.results.len() != handles.len() {
        return Err(RPCError::ProtobufErr(CodecError::Malformed));
    }
    let mut out: Vec<Result<Value, RPCError>> = Vec::new();
    let mut i: usize = 0;
    while i < handles.len()
        invariant
            i <= handles@.len() == response.results@.len(),
            out@.len() == i,
            forall|j: int|
                0 <= j < i ==> result_matches(
                    #[trigger] out@[j],
                    response@.results[j],
                    handles@[j].kind,
                ),
        decreases handles@.len() - i,
    {
        let r = handles[i].get_result(&response.results[i]);
        out.push(r);
        i = i + 1;
    }
    Ok(out)
}

/// The opening message of an RPC channel, naming the client.
pub fn rpc_connection_request(client_name: &str) -> (r: ConnectionRequest)
    ensures
        r.connection_type == ConnectionType::Rpc,
        r.client_name@ == client_name@,
        r.client_identifier@.len() == 0,
{
    ConnectionRequest {
        connection_type: ConnectionType::Rpc,
        client_name: client_name.to_string(),
        client_identifier: Vec::new(),
    }
}

/// The identity that the server issues to an RPC connection it accepts.
/// Only an accepted handshake makes one, so a stream channel can be opened
/// only after an RPC channel was.
#[derive(Debug)]
pub struct ClientIdentity {
    bytes: Vec<u8>,
}

impl View for ClientIdentity {
    type V = Seq<u8>;

    closed spec fn view(&self) -> Seq<u8> {
        self.bytes@
    }
}

impl ClientIdentity {
    pub fn as_bytes(&self) -> (r: &[u8])
        ensures
            r@ == self@,
    {
        self.bytes.as_slice()
    }
}

/// The opening message of a stream channel, presenting the identity that
/// the RPC channel was given.
pub fn stream_connection_request(identity: &ClientIdentity) -> (r: ConnectionRequest)
    ensures
        r.connection_type == ConnectionType::Stream,
        r.client_name@.len() == 0,
        r.client_identifier@ == identity@,
{
    let client_identifier = crate::wire::copy_range(identity.bytes.as_slice(), 0, identity.bytes.len());
    assert(identity.bytes@.subrange(0, identity.bytes@.len() as int) =~= identity.bytes@);
    ConnectionRequest { connection_type: ConnectionType::Stream, client_name: String::new(), client_identifier }
}

/// What a connection response means: the identity the server issued where
/// it accepted the connection, else a refusal with its status and message.
pub fn connection_outcome(response: ConnectionResponse) -> (r: Result<ClientIdentity, ConnectionError>)
    ensures
        if response.status == ConnectionStatus::Accepted {
            r matches Ok(id) && id@ == response.client_identifier@
        } else {
            r matches Err(ConnectionError::ConnectionRefused { error, status }) && error@
                == response.message@ && status == response.status
        },
{
    match response.status {
        ConnectionStatus::Accepted => Ok(ClientIdentity { bytes: response.client_identifier }),
        s => Err(ConnectionError::ConnectionRefused { error: response.message, status: s }),
    }
}


/// What `batch_results` promises of each slot of a batch.
pub open spec fn batch_matches(
    v: Seq<Result<Value, RPCError>>,
    results: Seq<ResultModel>,
    handles: Seq<CallHandle>,
) -> bool {
    &&& v.len() == handles.len()
    &&& forall|i: int| 0 <= i < v.len() ==> result_matches(#[trigger] v[i], results[i], handles[i].kind)
}

/// Errors stay in their slot: where call `j` of a batch fails at the server
/// and every other call returns a value of its kind, slot `j` carries that
/// failure and every other slot its decoded value.
pub proof fn lemma_error_isolation(
    v: Seq<Result<Value, RPCError>>,
    results: Seq<ResultModel>,
    handles: Seq<CallHandle>,
    j: int,
)
    requires
        batch_matches(v, results, handles),
        results.len() == handles.len(),
        0 <= j < results.len(),
        results[j].error is Some,
        forall|i: int|
            0 <= i < results.len() && i != j ==> (#[trigger] results[i]).error is None
                && decode_model(handles[i].kind, results[i].value) is Some,
    ensures
        v.len() == results.len(),
        v[j] matches Err(RPCError::KRPCRequestErr(e)) && Some(e@) == results[j].error,
        forall|i: int|
            0 <= i < v.len() && i != j ==> ((#[trigger] v[i]) matches Ok(x) && Some(x@)
                == decode_model(handles[i].kind, results[i].value)),
{
    assert(result_matches(v[j], results[j], handles[j].kind));
    assert forall|i: int| 0 <= i < v.len() && i != j implies ((#[trigger] v[i]) matches Ok(x)
        && Some(x@) == decode_model(handles[i].kind, results[i].value)) by {
        assert(result_matches(v[i], results[i], handles[i].kind));
    }
}

} // verus!
