//! The protocol's message records and their wire form.
use vstd::prelude::*;
use vstd::utf8::{encode_utf8, valid_utf8, decode_utf8};
use crate::wire::{
    varint_field, delimited_field, write_varint_field, write_delimited_field, parse_fields,
    read_fields, FieldModel, Field, WireValue, fields_in, field_fits, field_in, copy_range,
};
use crate::codec::{items_message, parse_items, lemma_items_message_push, lemma_parse_items_message, last_delimited, last_varint, text_from_utf8, last_delimited_in, last_varint_in};

verus! {

/// A varint field, left out where it holds zero.
pub open spec fn opt_varint_field(num: u64, v: u64) -> Seq<u8> {
    if v == 0 {
        Seq::empty()
    } else {
        varint_field(num, v)
    }
}

/// A length-delimited field, left out where it is empty.
pub open spec fn opt_delimited_field(num: u64, b: Seq<u8>) -> Seq<u8> {
    if b.len() == 0 {
        Seq::empty()
    } else {
        delimited_field(num, b)
    }
}

fn put_varint(out: &mut Vec<u8>, num: u64, v: u64)
    requires
        1 <= num <= 15,
    ensures
        final(out)@ == old(out)@ + opt_varint_field(num, v),
{
    if v != 0 {
        write_varint_field(out, num, v);
    } else {
        assert(out@ =~= old(out)@ + Seq::<u8>::empty());
    }
}

fn put_bytes(out: &mut Vec<u8>, num: u64, b: &[u8])
    requires
        1 <= num <= 15,
    ensures
        final(out)@ == old(out)@ + opt_delimited_field(num, b@),
{
    if b.len() != 0 {
        write_delimited_field(out, num, b);
    } else {
        assert(out@ =~= old(out)@ + Seq::<u8>::empty());
    }
}

fn put_text(out: &mut Vec<u8>, num: u64, s: &String)
    requires
        1 <= num <= 15,
    ensures
        final(out)@ == old(out)@ + opt_delimited_field(num, encode_utf8(s@)),
{
    put_bytes(out, num, s.as_str().as_bytes());
}

/// A positional argument of a call: its position and its encoded value.
#[derive(Debug)]
pub struct Argument {
    pub position: u32,
    pub value: Vec<u8>,
}

/// A call of one remote procedure, named by service and procedure, or by
/// their numeric identifiers.
#[derive(Debug)]
pub struct ProcedureCall {
    pub service: String,
    pub procedure: String,
    pub service_id: u32,
    pub procedure_id: u32,
    pub arguments: Vec<Argument>,
}

/// What a call is: its names, identifiers and arguments as (position,
/// bytes) pairs.
pub ghost struct CallModel {
    pub service: Seq<char>,
    pub procedure: Seq<char>,
    pub service_id: u32,
    pub procedure_id: u32,
    pub arguments: Seq<(u32, Seq<u8>)>,
}

impl View for Argument {
    type V = (u32, Seq<u8>);

    open spec fn view(&self) -> (u32, Seq<u8>) {
        (self.position, self.value@)
    }
}

impl View for ProcedureCall {
    type V = CallModel;

    open spec fn view(&self) -> CallModel {
        CallModel {
            service: self.service@,
            procedure: self.procedure@,
            service_id: self.service_id,
            procedure_id: self.procedure_id,
            arguments: self.arguments@.map_values(|a: Argument| a@),
        }
    }
}

pub open spec fn argument_bytes(a: (u32, Seq<u8>)) -> Seq<u8> {
    opt_varint_field(1, a.0 as u64) + opt_delimited_field(2, a.1)
}

pub open spec fn arguments_bytes(args: Seq<(u32, Seq<u8>)>) -> Seq<u8>
    decreases args.len(),
{
    if args.len() == 0 {
        Seq::empty()
    } else {
        arguments_bytes(args.subrange(0, args.len() - 1)) + delimited_field(
            3,
            argument_bytes(args[args.len() - 1]),
        )
    }
}

/// The wire form of a call: fields in the order of their numbers, those
/// that hold their default left out.
pub open spec fn call_bytes(c: CallModel) -> Seq<u8> {
    opt_delimited_field(1, encode_utf8(c.service)) + opt_delimited_field(
        2,
        encode_utf8(c.procedure),
    ) + arguments_bytes(c.arguments) + opt_varint_field(4, c.service_id as u64)
        + opt_varint_field(5, c.procedure_id as u64)
}

fn encode_argument(a: &Argument) -> (r: Vec<u8>)
    ensures
        r@ == argument_bytes(a@),
{
    let mut out: Vec<u8> = Vec::new();
    put_varint(&mut out, 1, a.position as u64);
    put_bytes(&mut out, 2, a.value.as_slice());
    assert(out@ =~= argument_bytes(a@));
    out
}

impl ProcedureCall {
    /// The wire form of this call.
    pub fn encode(&self) -> (r: Vec<u8>)
        ensures
            r@ == call_bytes(self@),
    {
        let ghost args = self@.arguments;
        let mut out: Vec<u8> = Vec::new();
        put_text(&mut out, 1, &self.service);
        put_text(&mut out, 2, &self.procedure);
        let ghost head = out@;
        let mut i: usize = 0;
        assert(args.subrange(0, 0) =~= Seq::<(u32, Seq<u8>)>::empty());
        assert(out@ =~= head + arguments_bytes(args.subrange(0, 0)));
        while i < self.arguments.len()
            invariant
                i <= self.arguments@.len(),
                args == self.arguments@.map_values(|a: Argument| a@),
                out@ == head + arguments_bytes(args.subrange(0, i as int)),
            decreases self.arguments@.len() - i,
        {
            let a = encode_argument(&self.arguments[i]);
            write_delimited_field(&mut out, 3, a.as_slice());
            let ghost next = args.subrange(0, i + 1);
            assert(next.subrange(0, i as int) =~= args.subrange(0, i as int));
            assert(out@ =~= head + arguments_bytes(next));
            i = i + 1;
        }
        assert(args.subrange(0, i as int) =~= args);
        put_varint(&mut out, 4, self.service_id as u64);
        put_varint(&mut out, 5, self.procedure_id as u64);
        assert(out@ =~= call_bytes(self@));
        out
    }

    /// A copy of this call.
    pub fn copy(&self) -> (r: ProcedureCall)
        ensures
            r@ == self@,
    {
        let mut arguments: Vec<Argument> = Vec::new();
        let mut i: usize = 0;
        while i < self.arguments.len()
            invariant
                i <= self.arguments@.len(),
                arguments@.map_values(|a: Argument| a@) =~= self.arguments@.subrange(
                    0,
                    i as int,
                ).map_values(|a: Argument| a@),
            decreases self.arguments@.len() - i,
        {
            let a = &self.arguments[i];
            let value = copy_range(a.value.as_slice(), 0, a.value.len());
            assert(a.value@.subrange(0, a.value@.len() as int) =~= a.value@);
            let ghost pre = arguments@.map_values(|a: Argument| a@);
            let arg = Argument { position: a.position, value };
            assert(arg@ == a@);
            arguments.push(arg);
            assert(arguments@.map_values(|a: Argument| a@) =~= pre.push(a@));
            assert(self.arguments@.subrange(0, i + 1).map_values(|a: Argument| a@)
                =~= self.arguments@.subrange(0, i as int).map_values(|a: Argument| a@).push(a@));
            i = i + 1;
        }
        assert(self.arguments@.subrange(0, i as int) =~= self.arguments@);
        ProcedureCall {
            service: self.service.clone(),
            procedure: self.procedure.clone(),
            service_id: self.service_id,
            procedure_id: self.procedure_id,
            arguments,
        }
    }
}


/// A batch of calls, answered in the same order.
#[derive(Debug)]
pub struct Request {
    pub calls: Vec<ProcedureCall>,
}

pub open spec fn calls_bytes(calls: Seq<ProcedureCall>) -> Seq<u8>
    decreases calls.len(),
{
    if calls.len() == 0 {
        Seq::empty()
    } else {
        calls_bytes(calls.subrange(0, calls.len() - 1)) + delimited_field(
            1,
            call_bytes(calls[calls.len() - 1]@),
        )
    }
}

/// The encoded calls, in order.
pub open spec fn call_blobs(calls: Seq<ProcedureCall>) -> Seq<Seq<u8>> {
    calls.map_values(|c: ProcedureCall| call_bytes(c@))
}

proof fn lemma_calls_bytes_items(calls: Seq<ProcedureCall>)
    ensures
        calls_bytes(calls) == items_message(call_blobs(calls)),
    decreases calls.len(),
{
    if calls.len() > 0 {
        let init = calls.subrange(0, calls.len() - 1);
        lemma_calls_bytes_items(init);
        assert(call_blobs(calls) =~= call_blobs(init).push(call_bytes(calls[calls.len() - 1]@)));
        lemma_items_message_push(call_blobs(init), call_bytes(calls[calls.len() - 1]@));
    } else {
        assert(call_blobs(calls) =~= Seq::<Seq<u8>>::empty());
    }
}

/// A request goes on the wire with its calls in order: reading back field 1
/// of its encoding gives call `i`'s encoding at position `i`, for every
/// batch whose calls each encode within a 64-bit length.
pub proof fn lemma_request_order(calls: Seq<ProcedureCall>)
    requires
        forall|i: int| 0 <= i < calls.len() ==> call_bytes((#[trigger] calls[i])@).len() <= u64::MAX,
    ensures
        parse_items(calls_bytes(calls)) == Some(call_blobs(calls)),
        call_blobs(calls).len() == calls.len(),
        forall|i: int| 0 <= i < calls.len() ==> #[trigger] call_blobs(calls)[i] == call_bytes(calls[i]@),
{
    lemma_calls_bytes_items(calls);
    lemma_parse_items_message(call_blobs(calls));
}

impl Request {
    /// The wire form of this request: each call in field 1, in order.
    pub fn encode(&self) -> (r: Vec<u8>)
        ensures
            r@ == calls_bytes(self.calls@),
    {
        let mut out: Vec<u8> = Vec::new();
        let mut i: usize = 0;
        assert(self.calls@.subrange(0, 0) =~= Seq::<ProcedureCall>::empty());
        while i < self.calls.len()
            invariant
                i <= self.calls@.len(),
                out@ == calls_bytes(self.calls@.subrange(0, i as int)),
            decreases self.calls@.len() - i,
        {
            let c = self.calls[i].encode();
            write_delimited_field(&mut out, 1, c.as_slice());
            let ghost next = self.calls@.subrange(0, i + 1);
            assert(next.subrange(0, i as int) =~= self.calls@.subrange(0, i as int));
            i = i + 1;
        }
        assert(self.calls@.subrange(0, i as int) =~= self.calls@);
        out
    }
}

/// Which of the two channels a connection request opens.
#[derive(Clone, Copy, Debug, PartialEq, Eq, Structural)]
pub enum ConnectionType {
    Rpc,
    Stream,
}

pub open spec fn connection_type_code(t: ConnectionType) -> u64 {
    match t {
        ConnectionType::Rpc => 0,
        ConnectionType::Stream => 1,
    }
}

/// The first message on a connection: an RPC channel names its client, a
/// stream channel presents the identity that the RPC channel was given.
#[derive(Debug)]
pub struct ConnectionRequest {
    pub connection_type: ConnectionType,
    pub client_name: String,
    pub client_identifier: Vec<u8>,
}

pub open spec fn connection_request_bytes(r: ConnectionRequest) -> Seq<u8> {
    opt_varint_field(1, connection_type_code(r.connection_type)) + opt_delimited_field(
        2,
        encode_utf8(r.client_name@),
    ) + opt_delimited_field(3, r.client_identifier@)
}

impl ConnectionRequest {
    /// The wire form of this request.
    pub fn encode(&self) -> (r: Vec<u8>)
        ensures
            r@ == connection_request_bytes(*self),
    {
        let mut out: Vec<u8> = Vec::new();
        let code: u64 = match self.connection_type {
            ConnectionType::Rpc => 0,
            ConnectionType::Stream => 1,
        };
        put_varint(&mut out, 1, code);
        put_text(&mut out, 2, &self.client_name);
        put_bytes(&mut out, 3, self.client_identifier.as_slice());
        assert(out@ =~= connection_request_bytes(*self));
        out
    }
}


/// The text that UTF-8 bytes spell.
pub open spec fn text_of(b: Seq<u8>) -> Option<Seq<char>> {
    if valid_utf8(b) {
        Some(decode_utf8(b))
    } else {
        None
    }
}

pub open spec fn field_number(f: FieldModel) -> u64 {
    match f {
        FieldModel::Varint(n, _) => n,
        FieldModel::Delimited(n, _) => n,
        FieldModel::Fixed(n) => n,
    }
}

/// The message holds field `num` at least once.
pub open spec fn has_field(fs: Seq<FieldModel>, num: u64) -> bool {
    exists|i: int| 0 <= i < fs.len() && field_number(#[trigger] fs[i]) == num
}

/// Every occurrence of the repeated delimited field `num`, in order;
/// `None` where one has another wire type.
pub open spec fn repeated_in(fs: Seq<FieldModel>, num: u64) -> Option<Seq<Seq<u8>>>
    decreases fs.len(),
{
    if fs.len() == 0 {
        Some(Seq::empty())
    } else {
        match repeated_in(fs.subrange(0, fs.len() - 1), num) {
            None => None,
            Some(items) => {
                let f = fs[fs.len() - 1];
                if field_number(f) != num {
                    Some(items)
                } else {
                    match f {
                        FieldModel::Delimited(_, b) => Some(items.push(b)),
                        _ => None,
                    }
                }
            },
        }
    }
}

/// A failure that the server reports for a call.
pub ghost struct ErrorModel {
    pub service: Seq<char>,
    pub name: Seq<char>,
    pub description: Seq<char>,
    pub stack_trace: Seq<char>,
}

pub open spec fn text_field(fs: Seq<FieldModel>, num: u64) -> Option<Seq<char>> {
    match last_delimited(fs, num) {
        Some(b) => text_of(b),
        None => None,
    }
}

pub open spec fn parse_error(b: Seq<u8>) -> Option<ErrorModel> {
    match parse_fields(b) {
        None => None,
        Some(fs) => match (
            text_field(fs, 1),
            text_field(fs, 2),
            text_field(fs, 3),
            text_field(fs, 4),
        ) {
            (Some(s), Some(n), Some(d), Some(t)) => Some(
                ErrorModel { service: s, name: n, description: d, stack_trace: t },
            ),
            _ => None,
        },
    }
}

/// The error in field `num` where the message holds one.
pub open spec fn error_field(fs: Seq<FieldModel>, num: u64) -> Option<Option<ErrorModel>> {
    if has_field(fs, num) {
        match last_delimited(fs, num) {
            Some(b) => match parse_error(b) {
                Some(e) => Some(Some(e)),
                None => None,
            },
            None => None,
        }
    } else {
        Some(None)
    }
}

/// The outcome of one call: an error, or the encoded value it returned.
pub ghost struct ResultModel {
    pub error: Option<ErrorModel>,
    pub value: Seq<u8>,
}

pub open spec fn parse_result(b: Seq<u8>) -> Option<ResultModel> {
    match parse_fields(b) {
        None => None,
        Some(fs) => match (error_field(fs, 1), last_delimited(fs, 2)) {
            (Some(e), Some(v)) => Some(ResultModel { error: e, value: v }),
            _ => None,
        },
    }
}

pub open spec fn parse_results(items: Seq<Seq<u8>>) -> Option<Seq<ResultModel>>
    decreases items.len(),
{
    if items.len() == 0 {
        Some(Seq::empty())
    } else {
        match (
            parse_results(items.subrange(0, items.len() - 1)),
            parse_result(items[items.len() - 1]),
        ) {
            (Some(rs), Some(r)) => Some(rs.push(r)),
            _ => None,
        }
    }
}

pub ghost struct ResponseModel {
    pub error: Option<ErrorModel>,
    pub results: Seq<ResultModel>,
}

/// A response: a failure of the whole request in field 1, or the results of
/// the calls in field 2, in order.
pub open spec fn parse_response(b: Seq<u8>) -> Option<ResponseModel> {
    match parse_fields(b) {
        None => None,
        Some(fs) => match (error_field(fs, 1), repeated_in(fs, 2)) {
            (Some(e), Some(items)) => match parse_results(items) {
                Some(rs) => Some(ResponseModel { error: e, results: rs }),
                None => None,
            },
            _ => None,
        },
    }
}

#[derive(Debug)]
pub struct Error {
    pub service: String,
    pub name: String,
    pub description: String,
    pub stack_trace: String,
}

impl View for Error {
    type V = ErrorModel;

    open spec fn view(&self) -> ErrorModel {
        ErrorModel {
            service: self.service@,
            name: self.name@,
            description: self.description@,
            stack_trace: self.stack_trace@,
        }
    }
}

impl Error {
    /// A copy of this error.
    pub fn copy(&self) -> (r: Error)
        ensures
            r@ == self@,
    {
        Error {
            service: self.service.clone(),
            name: self.name.clone(),
            description: self.description.clone(),
            stack_trace: self.stack_trace.clone(),
        }
    }
}

pub open spec fn opt_error_view(e: Option<Error>) -> Option<ErrorModel> {
    match e {
        Some(e) => Some(e@),
        None => None,
    }
}

#[derive(Debug)]
pub struct ProcedureResult {
    pub error: Option<Error>,
    pub value: Vec<u8>,
}

impl View for ProcedureResult {
    type V = ResultModel;

    open spec fn view(&self) -> ResultModel {
        ResultModel { error: opt_error_view(self.error), value: self.value@ }
    }
}

pub open spec fn results_view(rs: Seq<ProcedureResult>) -> Seq<ResultModel> {
    rs.map_values(|r: ProcedureResult| r@)
}

#[derive(Debug)]
pub struct Response {
    pub error: Option<Error>,
    pub results: Vec<ProcedureResult>,
}

impl View for Response {
    type V = ResponseModel;

    open spec fn view(&self) -> ResponseModel {
        ResponseModel { error: opt_error_view(self.error), results: results_view(self.results@) }
    }
}

proof fn lemma_stays_none_repeated(fs: Seq<FieldModel>, num: u64, j: int)
    requires
        0 <= j <= fs.len(),
        repeated_in(fs.subrange(0, j), num) is None,
    ensures
        repeated_in(fs, num) is None,
    decreases fs.len() - j,
{
    if j < fs.len() {
        assert(fs.subrange(0, j + 1).subrange(0, j) =~= fs.subrange(0, j));
        lemma_stays_none_repeated(fs, num, j + 1);
    } else {
        assert(fs.subrange(0, j) =~= fs);
    }
}

fn read_repeated(b: &[u8], fields: &Vec<Field>, num: u64) -> (r: Option<Vec<Vec<u8>>>)
    requires
        forall|j: int| 0 <= j < fields@.len() ==> field_fits(b@, #[trigger] fields@[j]),
    ensures
        match repeated_in(fields_in(b@, fields@), num) {
            Some(items) => r matches Some(v) && v@.map_values(|x: Vec<u8>| x@) == items,
            None => r is None,
        },
{
    let ghost fms = fields_in(b@, fields@);
    let mut items: Vec<Vec<u8>> = Vec::new();
    let mut i: usize = 0;
    assert(fms.subrange(0, 0) =~= Seq::<FieldModel>::empty());
    assert(items@.map_values(|x: Vec<u8>| x@) =~= Seq::<Seq<u8>>::empty());
    while i < fields.len()
        invariant
            i <= fields@.len(),
            fms == fields_in(b@, fields@),
            forall|j: int| 0 <= j < fields@.len() ==> field_fits(b@, #[trigger] fields@[j]),
            repeated_in(fms.subrange(0, i as int), num) == Some(
                items@.map_values(|x: Vec<u8>| x@),
            ),
        decreases fields@.len() - i,
    {
        let ghost pre = items@.map_values(|x: Vec<u8>| x@);
        assert(fms.subrange(0, i + 1).subrange(0, i as int) =~= fms.subrange(0, i as int));
        assert(fms[i as int] == field_in(b@, fields@[i as int]));
        let f = &fields[i];
        if f.number == num {
            match f.value {
                WireValue::Delimited(a, e) => {
                    let item = copy_range(b, a, e);
                    items.push(item);
                    assert(items@.map_values(|x: Vec<u8>| x@) =~= pre.push(item@));
                },
                _ => {
                    proof {
                        let p = fms.subrange(0, i + 1);
                        assert(p[p.len() - 1] == fms[i as int]);
                        lemma_stays_none_repeated(fms, num, i + 1);
                    }
                    return None;
                },
            }
        }
        i = i + 1;
    }
    assert(fms.subrange(0, fields@.len() as int) =~= fms);
    Some(items)
}

fn has_field_in(b: &[u8], fields: &Vec<Field>, num: u64) -> (r: bool)
    ensures
        r == has_field(fields_in(b@, fields@), num),
{
    let ghost fms = fields_in(b@, fields@);
    let mut i: usize = 0;
    while i < fields.len()
        invariant
            i <= fields@.len(),
            fms == fields_in(b@, fields@),
            forall|j: int| 0 <= j < i ==> field_number(#[trigger] fms[j]) != num,
        decreases fields@.len() - i,
    {
        assert(fms[i as int] == field_in(b@, fields@[i as int]));
        if fields[i].number == num {
            assert(field_number(fms[i as int]) == num);
            return true;
        }
        i = i + 1;
    }
    false
}

fn text_field_in(b: &[u8], fields: &Vec<Field>, num: u64) -> (r: Option<String>)
    requires
        forall|j: int| 0 <= j < fields@.len() ==> field_fits(b@, #[trigger] fields@[j]),
    ensures
        match text_field(fields_in(b@, fields@), num) {
            Some(t) => r matches Some(s) && s@ == t,
            None => r is None,
        },
{
    match last_delimited_in(b, fields, num) {
        Some(bytes) => text_from_utf8(bytes.as_slice()),
        None => None,
    }
}

fn decode_error(b: &[u8]) -> (r: Option<Error>)
    ensures
        match parse_error(b@) {
            Some(m) => r matches Some(e) && e@ == m,
            None => r is None,
        },
{
    let fields = match read_fields(b) {
        Some(f) => f,
        None => return None,
    };
    let service = text_field_in(b, &fields, 1);
    let name = text_field_in(b, &fields, 2);
    let description = text_field_in(b, &fields, 3);
    let stack_trace = text_field_in(b, &fields, 4);
    match (service, name, description, stack_trace) {
        (Some(service), Some(name), Some(description), Some(stack_trace)) => Some(
            Error { service, name, description, stack_trace },
        ),
        _ => None,
    }
}

fn error_field_in(b: &[u8], fields: &Vec<Field>, num: u64) -> (r: Option<Option<Error>>)
    requires
        forall|j: int| 0 <= j < fields@.len() ==> field_fits(b@, #[trigger] fields@[j]),
    ensures
        match error_field(fields_in(b@, fields@), num) {
            Some(m) => r matches Some(e) && opt_error_view(e) == m,
            None => r is None,
        },
{
    if !has_field_in(b, fields, num) {
        return Some(None);
    }
    match last_delimited_in(b, fields, num) {
        Some(bytes) => match decode_error(bytes.as_slice()) {
            Some(e) => Some(Some(e)),
            None => None,
        },
        None => None,
    }
}

/// Decodes the result of one call.
pub fn decode_result(b: &[u8]) -> (r: Option<ProcedureResult>)
    ensures
        match parse_result(b@) {
            Some(m) => r matches Some(p) && p@ == m,
            None => r is None,
        },
{
    let fields = match read_fields(b) {
        Some(f) => f,
        None => return None,
    };
    let error = error_field_in(b, &fields, 1);
    let value = last_delimited_in(b, &fields, 2);
    match (error, value) {
        (Some(error), Some(value)) => Some(ProcedureResult { error, value }),
        _ => None,
    }
}

proof fn lemma_parse_results_stays_none(items: Seq<Seq<u8>>, j: int)
    requires
        0 <= j <= items.len(),
        parse_results(items.subrange(0, j)) is None,
    ensures
        parse_results(items) is None,
    decreases items.len() - j,
{
    if j < items.len() {
        assert(items.subrange(0, j + 1).subrange(0, j) =~= items.subrange(0, j));
        lemma_parse_results_stays_none(items, j + 1);
    } else {
        assert(items.subrange(0, j) =~= items);
    }
}

fn decode_results(items: &Vec<Vec<u8>>) -> (r: Option<Vec<ProcedureResult>>)
    ensures
        match parse_results(items@.map_values(|x: Vec<u8>| x@)) {
            Some(m) => r matches Some(v) && results_view(v@) == m,
            None => r is None,
        },
{
    let ghost bs = items@.map_values(|x: Vec<u8>| x@);
    let mut out: Vec<ProcedureResult> = Vec::new();
    let mut i: usize = 0;
    assert(bs.subrange(0, 0) =~= Seq::<Seq<u8>>::empty());
    assert(results_view(out@) =~= Seq::<ResultModel>::empty());
    while i < items.len()
        invariant
            i <= items@.len(),
            bs == items@.map_values(|x: Vec<u8>| x@),
            parse_results(bs.subrange(0, i as int)) == Some(results_view(out@)),
        decreases items@.len() - i,
    {
        assert(bs.subrange(0, i + 1).subrange(0, i as int) =~= bs.subrange(0, i as int));
        assert(bs[i as int] == items@[i as int]@);
        match decode_result(items[i].as_slice()) {
            Some(p) => {
                let ghost pre = results_view(out@);
                let ghost pv = p@;
                out.push(p);
                assert(results_view(out@) =~= pre.push(pv));
            },
            None => {
                proof {
                    lemma_parse_results_stays_none(bs, i + 1);
                }
                return None;
            },
        }
        i = i + 1;
    }
    assert(bs.subrange(0, items@.len() as int) =~= bs);
    Some(out)
}

impl Response {
    /// Decodes a response; `None` where the bytes hold none.
    pub fn decode(b: &[u8]) -> (r: Option<Response>)
        ensures
            match parse_response(b@) {
                Some(m) => r matches Some(p) && p@ == m,
                None => r is None,
            },
    {
        let fields = match read_fields(b) {
            Some(f) => f,
            None => return None,
        };
        let error = error_field_in(b, &fields, 1);
        let items = read_repeated(b, &fields, 2);
        match (error, items) {
            (Some(error), Some(items)) => match decode_results(&items) {
                Some(results) => Some(Response { error, results }),
                None => None,
            },
            _ => None,
        }
    }
}


/// The server's answer to a connection request.
#[derive(Clone, Copy, Debug, PartialEq, Eq, Structural)]
pub enum ConnectionStatus {
    Accepted,
    MalformedMessage,
    Timeout,
    WrongType,
    Unknown(u64),
}

pub open spec fn status_of(code: u64) -> ConnectionStatus {
    if code == 0 {
        ConnectionStatus::Accepted
    } else if code == 1 {
        ConnectionStatus::MalformedMessage
    } else if code == 2 {
        ConnectionStatus::Timeout
    } else if code == 3 {
        ConnectionStatus::WrongType
    } else {
        ConnectionStatus::Unknown(code)
    }
}

pub ghost struct ConnectionResponseModel {
    pub status: ConnectionStatus,
    pub message: Seq<char>,
    pub client_identifier: Seq<u8>,
}

/// A connection response: the status in field 1, a message in field 2, and
/// the identity the server issued in field 3.
pub open spec fn parse_connection_response(b: Seq<u8>) -> Option<ConnectionResponseModel> {
    match parse_fields(b) {
        None => None,
        Some(fs) => match (last_varint(fs, 1), text_field(fs, 2), last_delimited(fs, 3)) {
            (Some(c), Some(m), Some(id)) => Some(
                ConnectionResponseModel { status: status_of(c), message: m, client_identifier: id },
            ),
            _ => None,
        },
    }
}

#[derive(Debug)]
pub struct ConnectionResponse {
    pub status: ConnectionStatus,
    pub message: String,
    pub client_identifier: Vec<u8>,
}

impl View for ConnectionResponse {
    type V = ConnectionResponseModel;

    open spec fn view(&self) -> ConnectionResponseModel {
        ConnectionResponseModel {
            status: self.status,
            message: self.message@,
            client_identifier: self.client_identifier@,
        }
    }
}

fn status_from_code(code: u64) -> (r: ConnectionStatus)
    ensures
        r == status_of(code),
{
    if code == 0 {
        ConnectionStatus::Accepted
    } else if code == 1 {
        ConnectionStatus::MalformedMessage
    } else if code == 2 {
        ConnectionStatus::Timeout
    } else if code == 3 {
        ConnectionStatus::WrongType
    } else {
        ConnectionStatus::Unknown(code)
    }
}

impl ConnectionResponse {
    /// Decodes a connection response; `None` where the bytes hold none.
    pub fn decode(b: &[u8]) -> (r: Option<ConnectionResponse>)
        ensures
            match parse_connection_response(b@) {
                Some(m) => r matches Some(p) && p@ == m,
                None => r is None,
            },
    {
        let fields = match read_fields(b) {
            Some(f) => f,
            None => return None,
        };
        let code = last_varint_in(b, &fields, 1);
        let message = text_field_in(b, &fields, 2);
        let id = last_delimited_in(b, &fields, 3);
        match (code, message, id) {
            (Some(code), Some(message), Some(client_identifier)) => Some(
                ConnectionResponse { status: status_from_code(code), message, client_identifier },
            ),
            _ => None,
        }
    }
}

/// One entry of a stream push: the stream's identifier and its latest result.
pub open spec fn parse_stream_result(b: Seq<u8>) -> Option<(u64, ResultModel)> {
    match parse_fields(b) {
        None => None,
        Some(fs) => match (last_varint(fs, 1), last_delimited(fs, 2)) {
            (Some(id), Some(rb)) => match parse_result(rb) {
                Some(r) => Some((id, r)),
                None => None,
            },
            _ => None,
        },
    }
}

pub open spec fn parse_stream_results(items: Seq<Seq<u8>>) -> Option<Seq<(u64, ResultModel)>>
    decreases items.len(),
{
    if items.len() == 0 {
        Some(Seq::empty())
    } else {
        match (
            parse_stream_results(items.subrange(0, items.len() - 1)),
            parse_stream_result(items[items.len() - 1]),
        ) {
            (Some(rs), Some(r)) => Some(rs.push(r)),
            _ => None,
        }
    }
}

/// A stream push message: its entries in field 1, in order.
pub open spec fn parse_stream_message(b: Seq<u8>) -> Option<Seq<(u64, ResultModel)>> {
    match parse_fields(b) {
        None => None,
        Some(fs) => match repeated_in(fs, 1) {
            Some(items) => parse_stream_results(items),
            None => None,
        },
    }
}

pub open spec fn entries_view(es: Seq<(u64, ProcedureResult)>) -> Seq<(u64, ResultModel)> {
    es.map_values(|e: (u64, ProcedureResult)| (e.0, e.1@))
}

fn decode_stream_result(b: &[u8]) -> (r: Option<(u64, ProcedureResult)>)
    ensures
        match parse_stream_result(b@) {
            Some(m) => r matches Some(p) && (p.0, p.1@) == m,
            None => r is None,
        },
{
    let fields = match read_fields(b) {
        Some(f) => f,
        None => return None,
    };
    let id = last_varint_in(b, &fields, 1);
    let rb = last_delimited_in(b, &fields, 2);
    match (id, rb) {
        (Some(id), Some(rb)) => match decode_result(rb.as_slice()) {
            Some(p) => Some((id, p)),
            None => None,
        },
        _ => None,
    }
}

proof fn lemma_parse_stream_results_stays_none(items: Seq<Seq<u8>>, j: int)
    requires
        0 <= j <= items.len(),
        parse_stream_results(items.subrange(0, j)) is None,
    ensures
        parse_stream_results(items) is None,
    decreases items.len() - j,
{
    if j < items.len() {
        assert(items.subrange(0, j + 1).subrange(0, j) =~= items.subrange(0, j));
        lemma_parse_stream_results_stays_none(items, j + 1);
    } else {
        assert(items.subrange(0, j) =~= items);
    }
}

/// Decodes a stream push message into its entries, in order; `None` where
/// the bytes hold none.
pub fn decode_stream_message(b: &[u8]) -> (r: Option<Vec<(u64, ProcedureResult)>>)
    ensures
        match parse_stream_message(b@) {
            Some(m) => r matches Some(v) && entries_view(v@) == m,
            None => r is None,
        },
{
    let fields = match read_fields(b) {
        Some(f) => f,
        None => return None,
    };
    let items = match read_repeated(b, &fields, 1) {
        Some(items) => items,
        None => return None,
    };
    let ghost bs = items@.map_values(|x: Vec<u8>| x@);
    let mut out: Vec<(u64, ProcedureResult)> = Vec::new();
    let mut i: usize = 0;
    assert(bs.subrange(0, 0) =~= Seq::<Seq<u8>>::empty());
    assert(entries_view(out@) =~= Seq::<(u64, ResultModel)>::empty());
    while i < items.len()
        invariant
            i <= items@.len(),
            bs == items@.map_values(|x: Vec<u8>| x@),
            parse_stream_message(b@) == parse_stream_results(bs),
            parse_stream_results(bs.subrange(0, i as int)) == Some(entries_view(out@)),
        decreases items@.len() - i,
    {
        assert(bs.subrange(0, i + 1).subrange(0, i as int) =~= bs.subrange(0, i as int));
        assert(bs[i as int] == items@[i as int]@);
        match decode_stream_result(items[i].as_slice()) {
            Some(p) => {
                let ghost pre = entries_view(out@);
                let ghost pv = (p.0, p.1@);
                out.push(p);
                assert(entries_view(out@) =~= pre.push(pv));
            },
            None => {
                proof {
                    lemma_parse_stream_results_stays_none(bs, i + 1);
                }
                return None;
            },
        }
        i = i + 1;
    }
    assert(bs.subrange(0, items@.len() as int) =~= bs);
    Some(out)
}

} // verus!
