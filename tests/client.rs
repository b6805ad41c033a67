use krpc_mars::client::{
    batch_results, connection_outcome, extract_result, mk_stream, rpc_connection_request,
    stream_connection_request, CallHandle, RPCRequest,
};
use krpc_mars::codec::{encode_value, values_equal, Kind, Value};
use krpc_mars::error::{ConnectionError, RPCError};
use krpc_mars::krpc::{
    Argument, ConnectionResponse, ConnectionStatus, ProcedureCall, ProcedureResult, Response,
};
use krpc_mars::space_center::{get_navball, get_ut, set_navball};
use krpc_mars::wire::{frame_message, read_varint, write_delimited_field, write_varint_field};

fn call(service: &str, procedure: &str) -> ProcedureCall {
    ProcedureCall {
        service: String::from(service),
        procedure: String::from(procedure),
        service_id: 0,
        procedure_id: 0,
        arguments: vec![],
    }
}

fn error_bytes(service: &str, name: &str, description: &str) -> Vec<u8> {
    let mut e = Vec::new();
    write_delimited_field(&mut e, 1, service.as_bytes());
    write_delimited_field(&mut e, 2, name.as_bytes());
    write_delimited_field(&mut e, 3, description.as_bytes());
    e
}

fn value_result(value: &[u8]) -> Vec<u8> {
    let mut r = Vec::new();
    write_delimited_field(&mut r, 2, value);
    r
}

fn error_result(service: &str, name: &str, description: &str) -> Vec<u8> {
    let mut r = Vec::new();
    write_delimited_field(&mut r, 1, &error_bytes(service, name, description));
    r
}

fn response_bytes(results: &[Vec<u8>]) -> Vec<u8> {
    let mut out = Vec::new();
    for r in results {
        write_delimited_field(&mut out, 2, r);
    }
    out
}

#[test]
fn call_wire_bytes() {
    let c = ProcedureCall {
        service: String::from("SC"),
        procedure: String::from("get_ut"),
        service_id: 0,
        procedure_id: 0,
        arguments: vec![Argument { position: 1, value: vec![0x05] }],
    };
    let mut expected = vec![0x0A, 0x02, b'S', b'C', 0x12, 0x06];
    expected.extend_from_slice(b"get_ut");
    expected.extend_from_slice(&[0x1A, 0x05, 0x08, 0x01, 0x12, 0x01, 0x05]);
    assert_eq!(c.encode(), expected);

    let by_id = ProcedureCall {
        service: String::new(),
        procedure: String::new(),
        service_id: 2,
        procedure_id: 35,
        arguments: vec![],
    };
    assert_eq!(by_id.encode(), vec![0x20, 0x02, 0x28, 0x23]);
}

#[test]
fn request_keeps_call_order() {
    let mut req = RPCRequest::default();
    let names = ["a", "b", "c", "d"];
    for n in names.iter() {
        req.add_call(&CallHandle::new(call("S", n), Kind::Unit));
    }
    let request = req.build();
    assert_eq!(request.calls.len(), 4);
    for (i, n) in names.iter().enumerate() {
        assert_eq!(request.calls[i].procedure, *n);
    }
    let mut expected = Vec::new();
    for c in request.calls.iter() {
        write_delimited_field(&mut expected, 1, &c.encode());
    }
    assert_eq!(request.encode(), expected);
}

#[test]
fn connection_request_bytes() {
    let r = rpc_connection_request("Example");
    let mut expected = vec![0x12, 0x07];
    expected.extend_from_slice(b"Example");
    assert_eq!(r.encode(), expected);
}

#[test]
fn handshake_accepted_then_stream_request() {
    let mut b = Vec::new();
    write_delimited_field(&mut b, 3, &[9, 8, 7]);
    let resp = ConnectionResponse::decode(&b).unwrap();
    assert_eq!(resp.status, ConnectionStatus::Accepted);
    let id = connection_outcome(resp).unwrap();
    assert_eq!(id.as_bytes(), &[9, 8, 7]);
    let sr = stream_connection_request(&id);
    assert_eq!(sr.encode(), vec![0x08, 0x01, 0x1A, 0x03, 9, 8, 7]);
}

#[test]
fn handshake_refusal_keeps_status_and_message() {
    let mut b = Vec::new();
    write_varint_field(&mut b, 1, 3);
    write_delimited_field(&mut b, 2, b"wrong type");
    let resp = ConnectionResponse::decode(&b).unwrap();
    match connection_outcome(resp) {
        Err(ConnectionError::ConnectionRefused { error, status }) => {
            assert_eq!(error, "wrong type");
            assert_eq!(status, ConnectionStatus::WrongType);
        }
        other => panic!("{:?}", other),
    }
    let mut b = Vec::new();
    write_varint_field(&mut b, 1, 17);
    let resp = ConnectionResponse::decode(&b).unwrap();
    match connection_outcome(resp) {
        Err(ConnectionError::ConnectionRefused { status, .. }) => {
            assert_eq!(status, ConnectionStatus::Unknown(17));
        }
        other => panic!("{:?}", other),
    }
}

#[test]
fn batch_isolates_a_failing_call() {
    let handles = vec![
        CallHandle::new(call("S", "one"), Kind::U32),
        CallHandle::new(call("S", "two"), Kind::Str),
        CallHandle::new(call("S", "three"), Kind::Bool),
    ];
    let bytes = response_bytes(&[
        value_result(&encode_value(&Value::U32(5))),
        error_result("S", "two", "it broke"),
        value_result(&encode_value(&Value::Bool(true))),
    ]);
    let response = Response::decode(&bytes).unwrap();
    let results = batch_results(&response, &handles).unwrap();
    assert_eq!(results.len(), 3);
    assert!(values_equal(results[0].as_ref().unwrap(), &Value::U32(5)));
    match &results[1] {
        Err(RPCError::KRPCRequestErr(e)) => {
            assert_eq!(e.service, "S");
            assert_eq!(e.name, "two");
            assert_eq!(e.description, "it broke");
        }
        other => panic!("{:?}", other),
    }
    assert!(values_equal(results[2].as_ref().unwrap(), &Value::Bool(true)));
}

#[test]
fn batch_results_follow_call_order() {
    let n: u32 = 200;
    let handles: Vec<CallHandle> =
        (0..n).map(|_| CallHandle::new(call("S", "id"), Kind::U32)).collect();
    let results: Vec<Vec<u8>> = (0..n).map(|i| value_result(&encode_value(&Value::U32(i * 7)))).collect();
    let response = Response::decode(&response_bytes(&results)).unwrap();
    let out = batch_results(&response, &handles).unwrap();
    for i in 0..n {
        assert!(values_equal(out[i as usize].as_ref().unwrap(), &Value::U32(i * 7)));
    }
}

#[test]
fn batch_level_failure_and_count_mismatch() {
    let mut bytes = Vec::new();
    write_delimited_field(&mut bytes, 1, &error_bytes("KRPC", "", "bad request"));
    let response = Response::decode(&bytes).unwrap();
    let handles = vec![CallHandle::new(call("S", "x"), Kind::U32)];
    match batch_results(&response, &handles) {
        Err(RPCError::KRPCRequestErr(e)) => assert_eq!(e.description, "bad request"),
        other => panic!("{:?}", other),
    }
    let response = Response::decode(&response_bytes(&[])).unwrap();
    assert!(matches!(batch_results(&response, &handles), Err(RPCError::ProtobufErr(_))));
}

#[test]
fn example_client_two_calls() {
    // get_active_vessel expects an identifier, get_ut a double
    let vessel = CallHandle::new(call("SpaceCenter", "get_ActiveVessel"), Kind::U64);
    let ut = CallHandle::new(call("SpaceCenter", "get_UT"), Kind::Double);
    let mut req = RPCRequest::default();
    req.add_call(&vessel);
    req.add_call(&ut);
    let request = req.build();
    assert_eq!(request.calls[0].procedure, "get_ActiveVessel");
    assert_eq!(request.calls[1].procedure, "get_UT");
    let bytes = response_bytes(&[
        value_result(&encode_value(&Value::U64(17))),
        value_result(&1234.5f64.to_le_bytes()),
    ]);
    let response = Response::decode(&bytes).unwrap();
    let results = batch_results(&response, &vec![vessel, ut]).unwrap();
    assert!(values_equal(results[0].as_ref().unwrap(), &Value::U64(17)));
    match results[1].as_ref().unwrap() {
        Value::Double(bits) => assert_eq!(f64::from_bits(*bits), 1234.5),
        other => panic!("{:?}", other),
    }
    // a later batch in which the call fails does not touch these results
    let failing = Response::decode(&response_bytes(&[error_result("SpaceCenter", "get_UT", "no")]))
        .unwrap();
    let again = CallHandle::new(call("SpaceCenter", "get_UT"), Kind::Double);
    assert!(matches!(again.get_result(&failing.results[0]), Err(RPCError::KRPCRequestErr(_))));
    assert!(values_equal(results[0].as_ref().unwrap(), &Value::U64(17)));
}

#[test]
fn result_decode_failure_is_not_a_service_error() {
    let r = ProcedureResult { error: None, value: vec![0x80] };
    assert!(matches!(extract_result(&r, &Kind::U32), Err(RPCError::ProtobufErr(_))));
    let r = ProcedureResult { error: None, value: vec![0x02, 0xC3, 0xA9] };
    match extract_result(&r, &Kind::Str) {
        Ok(Value::Str(s)) => assert_eq!(s, "é"),
        other => panic!("{:?}", other),
    }
}

#[test]
fn stream_call_wraps_the_encoded_call() {
    let inner = CallHandle::new(call("SpaceCenter", "get_UT"), Kind::Double);
    let s = inner.to_stream();
    assert_eq!(s.proc_call.service, "KRPC");
    assert_eq!(s.proc_call.procedure, "AddStream");
    assert_eq!(s.proc_call.arguments.len(), 1);
    assert_eq!(s.proc_call.arguments[0].position, 0);
    assert_eq!(s.proc_call.arguments[0].value, inner.get_call().encode());
    assert!(matches!(s.kind, Kind::Stream(_)));
    let twice = mk_stream(&s);
    assert_eq!(twice.proc_call.arguments[0].value, s.proc_call.encode());
}

#[test]
fn space_center_calls() {
    let ut = get_ut();
    assert_eq!(ut.proc_call.encode(), vec![0x20, 0x02, 0x28, 0x23]);
    assert!(matches!(ut.kind, Kind::Double));
    let nav = get_navball();
    assert_eq!(nav.proc_call.encode(), vec![0x20, 0x02, 0x28, 0x21]);
    assert!(matches!(nav.kind, Kind::Bool));
    let set = set_navball(true);
    assert_eq!(set.proc_call.arguments.len(), 1);
    assert_eq!(set.proc_call.arguments[0].position, 0);
    assert_eq!(set.proc_call.arguments[0].value, vec![0x01]);
    assert_eq!(
        set.proc_call.encode(),
        vec![0x1A, 0x03, 0x12, 0x01, 0x01, 0x20, 0x02, 0x28, 0x22]
    );
    assert!(matches!(set.kind, Kind::Unit));
}

#[test]
fn frames_carry_their_length() {
    assert_eq!(frame_message(&[7, 8]), vec![0x02, 7, 8]);
    let big = vec![0u8; 300];
    let framed = frame_message(&big);
    assert_eq!(&framed[..2], &[0xAC, 0x02]);
    assert_eq!(framed.len(), 302);
    assert_eq!(read_varint(&framed, 0), Some((300, 2)));
    assert_eq!(read_varint(&[0x80], 0), None);
}
