//! Calls of the space center service, named by numeric identifiers.
use vstd::prelude::*;
use crate::client::CallHandle;
use crate::codec::{encode_value, Kind, Value, ValueModel, encode_model};
use crate::krpc::{Argument, CallModel, ProcedureCall};

verus! {

/// The numeric identifier of the space center service.
pub const SERVICE_ID: u32 = 2;

/// A call of procedure `procedure_id` of the space center service.
pub open spec fn service_call(procedure_id: u32, arguments: Seq<(u32, Seq<u8>)>) -> CallModel {
    CallModel {
        service: Seq::empty(),
        procedure: Seq::empty(),
        service_id: SERVICE_ID,
        procedure_id,
        arguments,
    }
}

fn by_id(procedure_id: u32, arguments: Vec<Argument>) -> (r: ProcedureCall)
    ensures
        r@ == service_call(procedure_id, arguments@.map_values(|a: Argument| a@)),
{
    let r = ProcedureCall {
        service: String::new(),
        procedure: String::new(),
        service_id: SERVICE_ID,
        procedure_id,
        arguments,
    };
    assert(r@.service =~= Seq::<char>::empty());
    assert(r@.procedure =~= Seq::<char>::empty());
    r
}

/// The universal time of the game, a double.
pub fn get_ut() -> (r: CallHandle)
    ensures
        r.proc_call@ == service_call(35, Seq::empty()),
        r.kind == Kind::Double,
{
    let c = by_id(35, Vec::new());
    assert(c@.arguments =~= Seq::<(u32, Seq<u8>)>::empty());
    CallHandle::new(c, Kind::Double)
}

/// Whether the navball is shown.
pub fn get_navball() -> (r: CallHandle)
    ensures
        r.proc_call@ == service_call(33, Seq::empty()),
        r.kind == Kind::Bool,
{
    let c = by_id(33, Vec::new());
    assert(c@.arguments =~= Seq::<(u32, Seq<u8>)>::empty());
    CallHandle::new(c, Kind::Bool)
}

/// Shows or hides the navball; the call returns no value.
pub fn set_navball(val: bool) -> (r: CallHandle)
    ensures
        r.proc_call@ == service_call(34, seq![(0u32, encode_model(ValueModel::Bool(val)))]),
        r.kind == Kind::Unit,
{
    let mut arguments: Vec<Argument> = Vec::new();
    arguments.push(Argument { position: 0, value: encode_value(&Value::Bool(val)) });
    let c = by_id(34, arguments);
    assert(c@.arguments =~= seq![(0u32, encode_model(ValueModel::Bool(val)))]);
    CallHandle::new(c, Kind::Unit)
}

} // verus!
