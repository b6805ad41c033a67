use krpc_mars::codec::{encode_value, values_equal, Kind, Value};
use krpc_mars::error::RPCError;
use krpc_mars::krpc::ProcedureResult;
use krpc_mars::stream::{StreamHandle, StreamUpdate};
use krpc_mars::wire::{write_delimited_field, write_varint_field};

fn frame(entries: &[(u64, Value)]) -> Vec<u8> {
    let mut out = Vec::new();
    for (id, v) in entries {
        let mut result = Vec::new();
        write_delimited_field(&mut result, 2, &encode_value(v));
        let mut entry = Vec::new();
        write_varint_field(&mut entry, 1, *id);
        write_delimited_field(&mut entry, 2, &result);
        write_delimited_field(&mut out, 1, &entry);
    }
    out
}

fn value_of(u: &StreamUpdate, id: u64) -> Result<Value, RPCError> {
    u.get_result(&StreamHandle::new(id, Kind::U32))
}

#[test]
fn update_decodes_and_answers_by_stream() {
    let u = StreamUpdate::decode(&frame(&[(1, Value::U32(10)), (2, Value::U32(20))])).unwrap();
    assert!(values_equal(&value_of(&u, 1).unwrap(), &Value::U32(10)));
    assert!(values_equal(&value_of(&u, 2).unwrap(), &Value::U32(20)));
}

#[test]
fn unknown_stream_is_its_own_error() {
    let u = StreamUpdate::decode(&frame(&[(1, Value::U32(10))])).unwrap();
    assert!(matches!(value_of(&u, 99), Err(RPCError::NoSuchStream)));
    assert!(matches!(value_of(&StreamUpdate::empty(), 1), Err(RPCError::NoSuchStream)));
}

#[test]
fn later_entry_of_a_frame_wins() {
    let u = StreamUpdate::decode(&frame(&[(1, Value::U32(10)), (1, Value::U32(11))])).unwrap();
    assert!(values_equal(&value_of(&u, 1).unwrap(), &Value::U32(11)));
}

#[test]
fn merge_overwrites_and_keeps() {
    let mut u1 = StreamUpdate::decode(&frame(&[(1, Value::U32(10)), (2, Value::U32(20))])).unwrap();
    let u2 = StreamUpdate::decode(&frame(&[(2, Value::U32(21)), (3, Value::U32(30))])).unwrap();
    u1.merge_with(u2);
    assert!(values_equal(&value_of(&u1, 1).unwrap(), &Value::U32(10)));
    assert!(values_equal(&value_of(&u1, 2).unwrap(), &Value::U32(21)));
    assert!(values_equal(&value_of(&u1, 3).unwrap(), &Value::U32(30)));
    u1.merge_with(StreamUpdate::empty());
    assert!(values_equal(&value_of(&u1, 2).unwrap(), &Value::U32(21)));
    assert!(matches!(value_of(&u1, 4), Err(RPCError::NoSuchStream)));
}

#[test]
fn put_replaces_a_result() {
    let mut u = StreamUpdate::empty();
    u.put(5, ProcedureResult { error: None, value: encode_value(&Value::U32(1)) });
    u.put(5, ProcedureResult { error: None, value: encode_value(&Value::U32(2)) });
    assert!(values_equal(&value_of(&u, 5).unwrap(), &Value::U32(2)));
}

#[test]
fn malformed_frame_is_refused() {
    assert!(StreamUpdate::decode(&[0x0A, 0x09]).is_none());
    assert!(StreamUpdate::decode(&[0x08, 0x01]).is_none());
}

#[test]
fn remove_call_names_the_stream() {
    let h = StreamHandle::new(300, Kind::Double);
    let c = h.remove();
    assert_eq!(c.proc_call.service, "KRPC");
    assert_eq!(c.proc_call.procedure, "RemoveStream");
    assert_eq!(c.proc_call.arguments.len(), 1);
    assert_eq!(c.proc_call.arguments[0].value, vec![0xAC, 0x02]);
    assert!(matches!(c.kind, Kind::Unit));
}
