//! The value codec: typed values to and from the opaque byte payloads that
//! arguments and results carry. A composite is a container message of
//! separately encoded element blobs.
use vstd::prelude::*;
use vstd::utf8::*;
use crate::wire::{le_bytes, le_value, write_le, read_le, lemma_le_round_trip, lemma_le_value_bound, lemma_pow256_facts, lemma_parse_varint, lemma_parse_varint_field, lemma_zigzag32, lemma_zigzag64, lemma_parse_delimited_field, decode_zigzag32, decode_zigzag64, read_varint, read_fields, copy_range, field_in, fields_in, field_fits, Field, WireValue, write_varint, write_varint_field, write_delimited_field, append_bytes, encode_zigzag32, encode_zigzag64, varint, parse_varint, parse_fields, FieldModel, delimited_field, varint_field, zigzag32, unzigzag32, zigzag64, unzigzag64};

verus! {

/// The shape of a value, which selects how its bytes are read.
#[derive(Debug)]
pub enum Kind {
    Unit,
    Bool,
    U32,
    U64,
    I32,
    I64,
    /// A 32-bit float, as its IEEE 754 bit pattern.
    Float,
    /// A 64-bit float, as its IEEE 754 bit pattern.
    Double,
    Str,
    List(Box<Kind>),
    SetOf(Box<Kind>),
    Dict(Box<Kind>, Box<Kind>),
    /// A tuple of two, three or four elements of the given kinds.
    Tuple2(Box<Kind>, Box<Kind>),
    Tuple3(Box<Kind>, Box<Kind>, Box<Kind>),
    Tuple4(Box<Kind>, Box<Kind>, Box<Kind>, Box<Kind>),
    /// A stream of values of the inner kind, read as its identifier.
    Stream(Box<Kind>),
}

impl Kind {
    /// A copy of this kind.
    pub fn copy(&self) -> (r: Kind)
        ensures
            r == *self,
        decreases self,
    {
        match self {
            Kind::Unit => Kind::Unit,
            Kind::Bool => Kind::Bool,
            Kind::U32 => Kind::U32,
            Kind::U64 => Kind::U64,
            Kind::I32 => Kind::I32,
            Kind::I64 => Kind::I64,
            Kind::Float => Kind::Float,
            Kind::Double => Kind::Double,
            Kind::Str => Kind::Str,
            Kind::List(e) => Kind::List(Box::new((**e).copy())),
            Kind::SetOf(e) => Kind::SetOf(Box::new((**e).copy())),
            Kind::Dict(k, v) => Kind::Dict(Box::new((**k).copy()), Box::new((**v).copy())),
            Kind::Tuple2(a, b) => Kind::Tuple2(Box::new((**a).copy()), Box::new((**b).copy())),
            Kind::Tuple3(a, b, c) => Kind::Tuple3(
                Box::new((**a).copy()),
                Box::new((**b).copy()),
                Box::new((**c).copy()),
            ),
            Kind::Tuple4(a, b, c, d) => Kind::Tuple4(
                Box::new((**a).copy()),
                Box::new((**b).copy()),
                Box::new((**c).copy()),
                Box::new((**d).copy()),
            ),
            Kind::Stream(e) => Kind::Stream(Box::new((**e).copy())),
        }
    }
}

/// The mathematical value that a `Value` stands for.
pub ghost enum ValueModel {
    Unit,
    Bool(bool),
    U32(u32),
    U64(u64),
    I32(i32),
    I64(i64),
    Float(u32),
    Double(u64),
    Str(Seq<char>),
    List(Seq<ValueModel>),
    SetOf(Seq<ValueModel>),
    Dict(Seq<(ValueModel, ValueModel)>),
    Tuple(Seq<ValueModel>),
    Stream(u64),
}

/// A decoded value. A set holds each element once; a dictionary holds each
/// key once.
#[derive(Debug)]
pub enum Value {
    Unit,
    Bool(bool),
    U32(u32),
    U64(u64),
    I32(i32),
    I64(i64),
    Float(u32),
    Double(u64),
    Str(String),
    List(Vec<Value>),
    SetOf(Vec<Value>),
    Dict(Vec<(Value, Value)>),
    Tuple(Vec<Value>),
    Stream(u64),
}

pub open spec fn model_of(v: Value) -> ValueModel
    decreases v, 0nat,
{
    match v {
        Value::Unit => ValueModel::Unit,
        Value::Bool(b) => ValueModel::Bool(b),
        Value::U32(x) => ValueModel::U32(x),
        Value::U64(x) => ValueModel::U64(x),
        Value::I32(x) => ValueModel::I32(x),
        Value::I64(x) => ValueModel::I64(x),
        Value::Float(x) => ValueModel::Float(x),
        Value::Double(x) => ValueModel::Double(x),
        Value::Str(s) => ValueModel::Str(s@),
        Value::List(xs) => ValueModel::List(models_of(xs@)),
        Value::SetOf(xs) => ValueModel::SetOf(models_of(xs@)),
        Value::Dict(es) => ValueModel::Dict(entry_models_of(es@)),
        Value::Tuple(xs) => ValueModel::Tuple(models_of(xs@)),
        Value::Stream(id) => ValueModel::Stream(id),
    }
}

pub open spec fn models_of(s: Seq<Value>) -> Seq<ValueModel>
    decreases s, s.len(),
{
    if s.len() == 0 {
        Seq::empty()
    } else {
        models_of(s.subrange(0, s.len() - 1)).push(model_of(s[s.len() - 1]))
    }
}

pub open spec fn entry_models_of(s: Seq<(Value, Value)>) -> Seq<(ValueModel, ValueModel)>
    decreases s, s.len(),
{
    if s.len() == 0 {
        Seq::empty()
    } else {
        let e = s[s.len() - 1];
        entry_models_of(s.subrange(0, s.len() - 1)).push((model_of(e.0), model_of(e.1)))
    }
}

impl View for Value {
    type V = ValueModel;

    open spec fn view(&self) -> ValueModel {
        model_of(*self)
    }
}


/// A container message whose field 1 holds each blob in turn.
pub open spec fn items_message(items: Seq<Seq<u8>>) -> Seq<u8>
    decreases items.len(),
{
    if items.len() == 0 {
        Seq::empty()
    } else {
        delimited_field(1, items[0]) + items_message(items.subrange(1, items.len() as int))
    }
}

pub proof fn lemma_items_message_push(items: Seq<Seq<u8>>, b: Seq<u8>)
    ensures
        items_message(items.push(b)) == items_message(items) + delimited_field(1, b),
    decreases items.len(),
{
    if items.len() == 0 {
        assert(items.push(b).subrange(1, 1) =~= Seq::<Seq<u8>>::empty());
        assert(items.push(b)[0] == b);
        assert(items_message(Seq::<Seq<u8>>::empty()) == Seq::<u8>::empty());
        assert(items_message(items) == Seq::<u8>::empty());
        assert(delimited_field(1, b) + Seq::<u8>::empty() =~= delimited_field(1, b));
        assert(Seq::<u8>::empty() + delimited_field(1, b) =~= delimited_field(1, b));
    } else {
        let rest = items.subrange(1, items.len() as int);
        assert(items.push(b).subrange(1, (items.len() + 1) as int) =~= rest.push(b));
        lemma_items_message_push(rest, b);
        assert(items.push(b)[0] == items[0]);
        assert(items_message(items.push(b)) == delimited_field(1, items[0]) + items_message(
            rest.push(b),
        ));
        assert(items_message(items.push(b)) =~= items_message(items) + delimited_field(1, b));
    }
}

/// A dictionary entry message: the key blob in field 1, the value blob in
/// field 2.
pub open spec fn entry_message(key: Seq<u8>, value: Seq<u8>) -> Seq<u8> {
    delimited_field(1, key) + delimited_field(2, value)
}

/// The bytes of a value.
pub open spec fn encode_model(v: ValueModel) -> Seq<u8>
    decreases v, 0nat,
{
    match v {
        ValueModel::Unit => Seq::empty(),
        ValueModel::Bool(b) => varint(if b { 1 } else { 0 }),
        ValueModel::U32(x) => varint(x as u64),
        ValueModel::U64(x) => varint(x),
        ValueModel::I32(x) => varint(zigzag32(x) as u64),
        ValueModel::I64(x) => varint(zigzag64(x)),
        ValueModel::Float(x) => le_bytes(x as nat, 4),
        ValueModel::Double(x) => le_bytes(x as nat, 8),
        ValueModel::Str(s) => varint(encode_utf8(s).len() as u64) + encode_utf8(s),
        ValueModel::List(xs) => items_message(encode_models(xs)),
        ValueModel::SetOf(xs) => items_message(encode_models(xs)),
        ValueModel::Dict(es) => items_message(encode_entries(es)),
        ValueModel::Tuple(xs) => items_message(encode_models(xs)),
        ValueModel::Stream(id) => varint_field(1, id),
    }
}

/// Each value encoded to a blob of its own.
pub open spec fn encode_models(xs: Seq<ValueModel>) -> Seq<Seq<u8>>
    decreases xs, xs.len(),
{
    if xs.len() == 0 {
        Seq::empty()
    } else {
        encode_models(xs.subrange(0, xs.len() - 1)).push(encode_model(xs[xs.len() - 1]))
    }
}

/// Each entry encoded to an entry message of its own.
pub open spec fn encode_entries(es: Seq<(ValueModel, ValueModel)>) -> Seq<Seq<u8>>
    decreases es, es.len(),
{
    if es.len() == 0 {
        Seq::empty()
    } else {
        let e = es[es.len() - 1];
        encode_entries(es.subrange(0, es.len() - 1)).push(
            entry_message(encode_model(e.0), encode_model(e.1)),
        )
    }
}

/// The whole of `b` is one varint.
pub open spec fn whole_varint(b: Seq<u8>) -> Option<u64> {
    match parse_varint(b) {
        Some((v, n)) => if n == b.len() {
            Some(v)
        } else {
            None
        },
        None => None,
    }
}

/// The blobs in field 1 of a container message; other fields are skipped,
/// and field 1 with another wire type is refused.
pub open spec fn items_in(fs: Seq<FieldModel>) -> Option<Seq<Seq<u8>>>
    decreases fs.len(),
{
    if fs.len() == 0 {
        Some(Seq::empty())
    } else {
        match items_in(fs.subrange(0, fs.len() - 1)) {
            None => None,
            Some(items) => match fs[fs.len() - 1] {
                FieldModel::Delimited(1, b) => Some(items.push(b)),
                FieldModel::Varint(1, _) => None,
                FieldModel::Fixed(1) => None,
                _ => Some(items),
            },
        }
    }
}

pub open spec fn parse_items(b: Seq<u8>) -> Option<Seq<Seq<u8>>> {
    match parse_fields(b) {
        Some(fs) => items_in(fs),
        None => None,
    }
}

/// The last delimited field `num` of a message, empty where there is none;
/// `None` where field `num` has another wire type.
pub open spec fn last_delimited(fs: Seq<FieldModel>, num: u64) -> Option<Seq<u8>>
    decreases fs.len(),
{
    if fs.len() == 0 {
        Some(Seq::empty())
    } else {
        match last_delimited(fs.subrange(0, fs.len() - 1), num) {
            None => None,
            Some(b) => match fs[fs.len() - 1] {
                FieldModel::Delimited(n, c) => if n == num {
                    Some(c)
                } else {
                    Some(b)
                },
                FieldModel::Varint(n, _) => if n == num {
                    None
                } else {
                    Some(b)
                },
                FieldModel::Fixed(n) => if n == num {
                    None
                } else {
                    Some(b)
                },
            },
        }
    }
}

/// The last varint field `num` of a message, zero where there is none;
/// `None` where field `num` has another wire type.
pub open spec fn last_varint(fs: Seq<FieldModel>, num: u64) -> Option<u64>
    decreases fs.len(),
{
    if fs.len() == 0 {
        Some(0)
    } else {
        match last_varint(fs.subrange(0, fs.len() - 1), num) {
            None => None,
            Some(x) => match fs[fs.len() - 1] {
                FieldModel::Varint(n, v) => if n == num {
                    Some(v)
                } else {
                    Some(x)
                },
                FieldModel::Delimited(n, _) => if n == num {
                    None
                } else {
                    Some(x)
                },
                FieldModel::Fixed(n) => if n == num {
                    None
                } else {
                    Some(x)
                },
            },
        }
    }
}

/// The key and value blobs of a dictionary entry message.
pub open spec fn parse_entry(b: Seq<u8>) -> Option<(Seq<u8>, Seq<u8>)> {
    match parse_fields(b) {
        None => None,
        Some(fs) => match (last_delimited(fs, 1), last_delimited(fs, 2)) {
            (Some(k), Some(v)) => Some((k, v)),
            _ => None,
        },
    }
}

/// The identifier in a stream message.
pub open spec fn parse_stream_id(b: Seq<u8>) -> Option<u64> {
    match parse_fields(b) {
        None => None,
        Some(fs) => last_varint(fs, 1),
    }
}

/// `s` with `x` added unless it holds `x` already.
pub open spec fn set_insert(s: Seq<ValueModel>, x: ValueModel) -> Seq<ValueModel> {
    if s.contains(x) {
        s
    } else {
        s.push(x)
    }
}

/// The elements of `xs`, each once, in the order they first occur.
pub open spec fn distinct_of(xs: Seq<ValueModel>) -> Seq<ValueModel>
    decreases xs.len(),
{
    if xs.len() == 0 {
        Seq::empty()
    } else {
        set_insert(distinct_of(xs.subrange(0, xs.len() - 1)), xs[xs.len() - 1])
    }
}

/// `d` with the value of key `k` set to `v`: in place where `d` holds `k`,
/// at the end where it does not.
pub open spec fn dict_insert(
    d: Seq<(ValueModel, ValueModel)>,
    k: ValueModel,
    v: ValueModel,
) -> Seq<(ValueModel, ValueModel)> {
    if exists|i: int| 0 <= i < d.len() && (#[trigger] d[i]).0 == k {
        let i = choose|i: int| 0 <= i < d.len() && (#[trigger] d[i]).0 == k;
        d.update(i, (k, v))
    } else {
        d.push((k, v))
    }
}

/// The entries of `es` inserted in order: a later value for a key replaces
/// an earlier one.
pub open spec fn dict_of(es: Seq<(ValueModel, ValueModel)>) -> Seq<(ValueModel, ValueModel)>
    decreases es.len(),
{
    if es.len() == 0 {
        Seq::empty()
    } else {
        let e = es[es.len() - 1];
        dict_insert(dict_of(es.subrange(0, es.len() - 1)), e.0, e.1)
    }
}

/// The value of kind `k` that the bytes `b` hold, or `None` where they hold
/// none.
pub open spec fn decode_model(k: Kind, b: Seq<u8>) -> Option<ValueModel>
    decreases k, 0nat,
{
    match k {
        Kind::Unit => if b.len() == 0 {
            Some(ValueModel::Unit)
        } else {
            None
        },
        Kind::Bool => match whole_varint(b) {
            Some(x) => Some(ValueModel::Bool(x != 0)),
            None => None,
        },
        Kind::U32 => match whole_varint(b) {
            Some(x) => if x <= u32::MAX {
                Some(ValueModel::U32(x as u32))
            } else {
                None
            },
            None => None,
        },
        Kind::U64 => match whole_varint(b) {
            Some(x) => Some(ValueModel::U64(x)),
            None => None,
        },
        Kind::I32 => match whole_varint(b) {
            Some(x) => if x <= u32::MAX {
                Some(ValueModel::I32(unzigzag32(x as u32)))
            } else {
                None
            },
            None => None,
        },
        Kind::I64 => match whole_varint(b) {
            Some(x) => Some(ValueModel::I64(unzigzag64(x))),
            None => None,
        },
        Kind::Float => if b.len() == 4 {
            Some(ValueModel::Float(le_value(b) as u32))
        } else {
            None
        },
        Kind::Double => if b.len() == 8 {
            Some(ValueModel::Double(le_value(b) as u64))
        } else {
            None
        },
        Kind::Str => match parse_varint(b) {
            Some((n, m)) => {
                let t = b.subrange(m as int, b.len() as int);
                if m + n == b.len() && valid_utf8(t) {
                    Some(ValueModel::Str(decode_utf8(t)))
                } else {
                    None
                }
            },
            None => None,
        },
        Kind::List(e) => match parse_items(b) {
            Some(items) => match decode_all(*e, items) {
                Some(xs) => Some(ValueModel::List(xs)),
                None => None,
            },
            None => None,
        },
        Kind::SetOf(e) => match parse_items(b) {
            Some(items) => match decode_all(*e, items) {
                Some(xs) => Some(ValueModel::SetOf(distinct_of(xs))),
                None => None,
            },
            None => None,
        },
        Kind::Dict(kk, vk) => match parse_items(b) {
            Some(items) => match parse_entries(items) {
                Some((kbs, vbs)) => match (decode_all(*kk, kbs), decode_all(*vk, vbs)) {
                    (Some(xs), Some(ys)) => Some(ValueModel::Dict(dict_of(zip(xs, ys)))),
                    _ => None,
                },
                None => None,
            },
            None => None,
        },
        Kind::Tuple2(k0, k1) => match parse_items(b) {
            Some(items) => if items.len() == 2 {
                match (decode_model(*k0, items[0]), decode_model(*k1, items[1])) {
                    (Some(x0), Some(x1)) => Some(ValueModel::Tuple(seq![x0, x1])),
                    _ => None,
                }
            } else {
                None
            },
            None => None,
        },
        Kind::Tuple3(k0, k1, k2) => match parse_items(b) {
            Some(items) => if items.len() == 3 {
                match (
                    decode_model(*k0, items[0]),
                    decode_model(*k1, items[1]),
                    decode_model(*k2, items[2]),
                ) {
                    (Some(x0), Some(x1), Some(x2)) => Some(ValueModel::Tuple(seq![x0, x1, x2])),
                    _ => None,
                }
            } else {
                None
            },
            None => None,
        },
        Kind::Tuple4(k0, k1, k2, k3) => match parse_items(b) {
            Some(items) => if items.len() == 4 {
                match (
                    decode_model(*k0, items[0]),
                    decode_model(*k1, items[1]),
                    decode_model(*k2, items[2]),
                    decode_model(*k3, items[3]),
                ) {
                    (Some(x0), Some(x1), Some(x2), Some(x3)) => Some(
                        ValueModel::Tuple(seq![x0, x1, x2, x3]),
                    ),
                    _ => None,
                }
            } else {
                None
            },
            None => None,
        },
        Kind::Stream(_) => match parse_stream_id(b) {
            Some(id) => Some(ValueModel::Stream(id)),
            None => None,
        },
    }
}

/// Every blob decoded as kind `e`.
pub open spec fn decode_all(e: Kind, items: Seq<Seq<u8>>) -> Option<Seq<ValueModel>>
    decreases e, items.len(),
{
    if items.len() == 0 {
        Some(Seq::empty())
    } else {
        match decode_all(e, items.subrange(0, items.len() - 1)) {
            None => None,
            Some(xs) => match decode_model(e, items[items.len() - 1]) {
                None => None,
                Some(x) => Some(xs.push(x)),
            },
        }
    }
}

/// The key blobs and the value blobs of a sequence of entry messages.
pub open spec fn parse_entries(items: Seq<Seq<u8>>) -> Option<(Seq<Seq<u8>>, Seq<Seq<u8>>)>
    decreases items.len(),
{
    if items.len() == 0 {
        Some((Seq::empty(), Seq::empty()))
    } else {
        match parse_entries(items.subrange(0, items.len() - 1)) {
            None => None,
            Some((ks, vs)) => match parse_entry(items[items.len() - 1]) {
                None => None,
                Some((kb, vb)) => Some((ks.push(kb), vs.push(vb))),
            },
        }
    }
}

pub open spec fn zip(xs: Seq<ValueModel>, ys: Seq<ValueModel>) -> Seq<(ValueModel, ValueModel)> {
    Seq::new(xs.len(), |i: int| (xs[i], ys[i]))
}



proof fn lemma_encode_models_push(m: Seq<ValueModel>, x: ValueModel)
    ensures
        encode_models(m.push(x)) == encode_models(m).push(encode_model(x)),
{
    assert(m.push(x).subrange(0, m.len() as int) =~= m);
}

proof fn lemma_encode_entries_push(m: Seq<(ValueModel, ValueModel)>, e: (ValueModel, ValueModel))
    ensures
        encode_entries(m.push(e)) == encode_entries(m).push(
            entry_message(encode_model(e.0), encode_model(e.1)),
        ),
{
    assert(m.push(e).subrange(0, m.len() as int) =~= m);
}

fn encode_scalar(x: u64) -> (r: Vec<u8>)
    ensures
        r@ == varint(x),
{
    let mut out: Vec<u8> = Vec::new();
    write_varint(&mut out, x);
    assert(out@ =~= varint(x));
    out
}

/// The bytes of a value: the scalar's wire form, or a container message of
/// separately encoded element blobs.
pub fn encode_value(v: &Value) -> (r: Vec<u8>)
    ensures
        r@ == encode_model(v@),
    decreases v, 0nat,
{
    match v {
        Value::Unit => Vec::new(),
        Value::Bool(b) => encode_scalar(if *b { 1 } else { 0 }),
        Value::U32(x) => encode_scalar(*x as u64),
        Value::U64(x) => encode_scalar(*x),
        Value::I32(x) => encode_scalar(encode_zigzag32(*x) as u64),
        Value::I64(x) => encode_scalar(encode_zigzag64(*x)),
        Value::Float(x) => {
            let mut out: Vec<u8> = Vec::new();
            write_le(&mut out, *x as u64, 4);
            assert(out@ =~= le_bytes(*x as nat, 4));
            out
        },
        Value::Double(x) => {
            let mut out: Vec<u8> = Vec::new();
            write_le(&mut out, *x, 8);
            assert(out@ =~= le_bytes(*x as nat, 8));
            out
        },
        Value::Str(s) => {
            let bytes = s.as_str().as_bytes();
            let mut out: Vec<u8> = Vec::new();
            write_varint(&mut out, bytes.len() as u64);
            append_bytes(&mut out, bytes);
            assert(out@ =~= varint(encode_utf8(s@).len() as u64) + encode_utf8(s@));
            out
        },
        Value::List(xs) => encode_items(xs),
        Value::SetOf(xs) => encode_items(xs),
        Value::Tuple(xs) => encode_items(xs),
        Value::Dict(es) => encode_dict(es),
        Value::Stream(id) => {
            let mut out: Vec<u8> = Vec::new();
            write_varint_field(&mut out, 1, *id);
            assert(out@ =~= varint_field(1, *id));
            out
        },
    }
}

fn encode_items(xs: &Vec<Value>) -> (r: Vec<u8>)
    ensures
        r@ == items_message(encode_models(models_of(xs@))),
    decreases xs, 1nat,
{
    let mut out: Vec<u8> = Vec::new();
    let mut i: usize = 0;
    assert(xs@.subrange(0, 0) =~= Seq::<Value>::empty());
    while i < xs.len()
        invariant
            i <= xs@.len(),
            out@ == items_message(encode_models(models_of(xs@.subrange(0, i as int)))),
        decreases xs@.len() - i,
    {
        assert(decreases_to!(xs => xs@[i as int]));
        let b = encode_value(&xs[i]);
        let ghost pre = xs@.subrange(0, i as int);
        let ghost next = xs@.subrange(0, i + 1);
        assert(next.subrange(0, i as int) =~= pre);
        assert(models_of(next) == models_of(pre).push(model_of(xs@[i as int])));
        proof {
            lemma_encode_models_push(models_of(pre), model_of(xs@[i as int]));
            lemma_items_message_push(encode_models(models_of(pre)), b@);
        }
        write_delimited_field(&mut out, 1, b.as_slice());
        i = i + 1;
    }
    assert(xs@.subrange(0, xs@.len() as int) =~= xs@);
    out
}

fn encode_dict(es: &Vec<(Value, Value)>) -> (r: Vec<u8>)
    ensures
        r@ == items_message(encode_entries(entry_models_of(es@))),
    decreases es, 1nat,
{
    let mut out: Vec<u8> = Vec::new();
    let mut i: usize = 0;
    assert(es@.subrange(0, 0) =~= Seq::<(Value, Value)>::empty());
    while i < es.len()
        invariant
            i <= es@.len(),
            out@ == items_message(encode_entries(entry_models_of(es@.subrange(0, i as int)))),
        decreases es@.len() - i,
    {
        let e = &es[i];
        assert(decreases_to!(es => es@[i as int]));
        let kb = encode_value(&e.0);
        let vb = encode_value(&e.1);
        let mut entry: Vec<u8> = Vec::new();
        write_delimited_field(&mut entry, 1, kb.as_slice());
        write_delimited_field(&mut entry, 2, vb.as_slice());
        assert(entry@ =~= entry_message(kb@, vb@));
        let ghost pre = es@.subrange(0, i as int);
        let ghost next = es@.subrange(0, i + 1);
        assert(next.subrange(0, i as int) =~= pre);
        assert(entry_models_of(next) == entry_models_of(pre).push(
            (model_of(es@[i as int].0), model_of(es@[i as int].1)),
        ));
        proof {
            lemma_encode_entries_push(
                entry_models_of(pre),
                (model_of(es@[i as int].0), model_of(es@[i as int].1)),
            );
            lemma_items_message_push(encode_entries(entry_models_of(pre)), entry@);
        }
        write_delimited_field(&mut out, 1, entry.as_slice());
        i = i + 1;
    }
    assert(es@.subrange(0, es@.len() as int) =~= es@);
    out
}


/// A malformed payload: truncated or overlong bytes, a wrong wire type, or
/// bytes that do not hold a value of the kind asked for.
#[derive(Debug, PartialEq, Eq, Structural)]
pub enum CodecError {
    Malformed,
}

pub open spec fn blobs(v: Seq<Vec<u8>>) -> Seq<Seq<u8>> {
    v.map_values(|x: Vec<u8>| x@)
}

pub proof fn lemma_models_of(s: Seq<Value>)
    ensures
        models_of(s).len() == s.len(),
        forall|i: int| 0 <= i < s.len() ==> #[trigger] models_of(s)[i] == model_of(s[i]),
    decreases s.len(),
{
    if s.len() > 0 {
        lemma_models_of(s.subrange(0, s.len() - 1));
    }
}

pub proof fn lemma_entry_models_of(s: Seq<(Value, Value)>)
    ensures
        entry_models_of(s).len() == s.len(),
        forall|i: int|
            0 <= i < s.len() ==> #[trigger] entry_models_of(s)[i] == (
            model_of(s[i].0),
            model_of(s[i].1),
        ),
    decreases s.len(),
{
    if s.len() > 0 {
        lemma_entry_models_of(s.subrange(0, s.len() - 1));
    }
}

proof fn lemma_items_in_stays_none(fs: Seq<FieldModel>, j: int)
    requires
        0 <= j <= fs.len(),
        items_in(fs.subrange(0, j)) is None,
    ensures
        items_in(fs) is None,
    decreases fs.len() - j,
{
    if j < fs.len() {
        assert(fs.subrange(0, j + 1).subrange(0, j) =~= fs.subrange(0, j));
        lemma_items_in_stays_none(fs, j + 1);
    } else {
        assert(fs.subrange(0, j) =~= fs);
    }
}

proof fn lemma_last_delimited_stays_none(fs: Seq<FieldModel>, num: u64, j: int)
    requires
        0 <= j <= fs.len(),
        last_delimited(fs.subrange(0, j), num) is None,
    ensures
        last_delimited(fs, num) is None,
    decreases fs.len() - j,
{
    if j < fs.len() {
        assert(fs.subrange(0, j + 1).subrange(0, j) =~= fs.subrange(0, j));
        lemma_last_delimited_stays_none(fs, num, j + 1);
    } else {
        assert(fs.subrange(0, j) =~= fs);
    }
}

proof fn lemma_last_varint_stays_none(fs: Seq<FieldModel>, num: u64, j: int)
    requires
        0 <= j <= fs.len(),
        last_varint(fs.subrange(0, j), num) is None,
    ensures
        last_varint(fs, num) is None,
    decreases fs.len() - j,
{
    if j < fs.len() {
        assert(fs.subrange(0, j + 1).subrange(0, j) =~= fs.subrange(0, j));
        lemma_last_varint_stays_none(fs, num, j + 1);
    } else {
        assert(fs.subrange(0, j) =~= fs);
    }
}

/// Relies on std::str::from_utf8: it accepts exactly the well-formed UTF-8
/// byte strings, and gives the text they spell.
#[verifier::external_body]
pub(crate) fn text_from_utf8(b: &[u8]) -> (r: Option<String>)
    ensures
        match r {
            Some(s) => valid_utf8(b@) && s@ == decode_utf8(b@),
            None => !valid_utf8(b@),
        },
{
    match std::str::from_utf8(b) {
        Ok(s) => Some(s.to_string()),
        Err(_) => None,
    }
}

fn read_whole_varint(b: &[u8]) -> (r: Option<u64>)
    ensures
        r == whole_varint(b@),
{
    assert(b@.subrange(0, b@.len() as int) =~= b@);
    match read_varint(b, 0) {
        Some((v, next)) => if next == b.len() {
            Some(v)
        } else {
            None
        },
        None => None,
    }
}

/// The element blobs of a container message.
pub fn read_items(b: &[u8]) -> (r: Option<Vec<Vec<u8>>>)
    ensures
        match parse_items(b@) {
            Some(items) => r matches Some(v) && blobs(v@) == items,
            None => r is None,
        },
{
    let fields = match read_fields(b) {
        Some(f) => f,
        None => return None,
    };
    let ghost fms = fields_in(b@, fields@);
    let mut items: Vec<Vec<u8>> = Vec::new();
    let mut i: usize = 0;
    assert(fms.subrange(0, 0) =~= Seq::<FieldModel>::empty());
    assert(blobs(items@) =~= Seq::<Seq<u8>>::empty());
    while i < fields.len()
        invariant
            i <= fields@.len(),
            fms == fields_in(b@, fields@),
            forall|j: int| 0 <= j < fields@.len() ==> field_fits(b@, #[trigger] fields@[j]),
            items_in(fms.subrange(0, i as int)) == Some(blobs(items@)),
            parse_fields(b@) == Some(fms),
        decreases fields@.len() - i,
    {
        let ghost pre = blobs(items@);
        assert(fms.subrange(0, i + 1).subrange(0, i as int) =~= fms.subrange(0, i as int));
        assert(fms[i as int] == field_in(b@, fields@[i as int]));
        let f = &fields[i];
        if f.number == 1 {
            match f.value {
                WireValue::Delimited(a, e) => {
                    let item = copy_range(b, a, e);
                    items.push(item);
                    assert(blobs(items@) =~= pre.push(item@));
                },
                _ => {
                    proof {
                        let p = fms.subrange(0, i + 1);
                        assert(p[p.len() - 1] == fms[i as int]);
                        assert(items_in(p) is None);
                        lemma_items_in_stays_none(fms, i + 1);
                    }
                    return None;
                },
            }
        }
        i = i + 1;
    }
    assert(fms.subrange(0, fields@.len() as int) =~= fms);
    Some(items)
}

pub(crate) fn last_delimited_in(b: &[u8], fields: &Vec<Field>, num: u64) -> (r: Option<Vec<u8>>)
    requires
        forall|j: int| 0 <= j < fields@.len() ==> field_fits(b@, #[trigger] fields@[j]),
    ensures
        match last_delimited(fields_in(b@, fields@), num) {
            Some(c) => r matches Some(v) && v@ == c,
            None => r is None,
        },
{
    let ghost fms = fields_in(b@, fields@);
    let mut found: Vec<u8> = Vec::new();
    let mut i: usize = 0;
    while i < fields.len()
        invariant
            i <= fields@.len(),
            fms == fields_in(b@, fields@),
            forall|j: int| 0 <= j < fields@.len() ==> field_fits(b@, #[trigger] fields@[j]),
            last_delimited(fms.subrange(0, i as int), num) == Some(found@),
        decreases fields@.len() - i,
    {
        assert(fms.subrange(0, i + 1).subrange(0, i as int) =~= fms.subrange(0, i as int));
        assert(fms[i as int] == field_in(b@, fields@[i as int]));
        let f = &fields[i];
        if f.number == num {
            match f.value {
                WireValue::Delimited(a, e) => {
                    found = copy_range(b, a, e);
                },
                _ => {
                    proof {
                        lemma_last_delimited_stays_none(fms, num, i + 1);
                    }
                    return None;
                },
            }
        }
        i = i + 1;
    }
    assert(fms.subrange(0, fields@.len() as int) =~= fms);
    Some(found)
}

pub(crate) fn last_varint_in(b: &[u8], fields: &Vec<Field>, num: u64) -> (r: Option<u64>)
    ensures
        r == last_varint(fields_in(b@, fields@), num),
{
    let ghost fms = fields_in(b@, fields@);
    let mut found: u64 = 0;
    let mut i: usize = 0;
    while i < fields.len()
        invariant
            i <= fields@.len(),
            fms == fields_in(b@, fields@),
            last_varint(fms.subrange(0, i as int), num) == Some(found),
        decreases fields@.len() - i,
    {
        assert(fms.subrange(0, i + 1).subrange(0, i as int) =~= fms.subrange(0, i as int));
        assert(fms[i as int] == field_in(b@, fields@[i as int]));
        let f = &fields[i];
        if f.number == num {
            match f.value {
                WireValue::Varint(v) => {
                    found = v;
                },
                _ => {
                    proof {
                        lemma_last_varint_stays_none(fms, num, i + 1);
                    }
                    return None;
                },
            }
        }
        i = i + 1;
    }
    assert(fms.subrange(0, fields@.len() as int) =~= fms);
    Some(found)
}

fn read_entry(b: &[u8]) -> (r: Option<(Vec<u8>, Vec<u8>)>)
    ensures
        match parse_entry(b@) {
            Some((kb, vb)) => r matches Some((k, v)) && k@ == kb && v@ == vb,
            None => r is None,
        },
{
    let fields = match read_fields(b) {
        Some(f) => f,
        None => return None,
    };
    let k = match last_delimited_in(b, &fields, 1) {
        Some(k) => k,
        None => return None,
    };
    let v = match last_delimited_in(b, &fields, 2) {
        Some(v) => v,
        None => return None,
    };
    Some((k, v))
}

fn read_stream_id(b: &[u8]) -> (r: Option<u64>)
    ensures
        r == parse_stream_id(b@),
{
    match read_fields(b) {
        Some(fields) => last_varint_in(b, &fields, 1),
        None => None,
    }
}


/// Whether two values are equal.
pub fn values_equal(a: &Value, b: &Value) -> (r: bool)
    ensures
        r == (a@ == b@),
    decreases a, 1nat,
{
    match (a, b) {
        (Value::Unit, Value::Unit) => true,
        (Value::Bool(x), Value::Bool(y)) => *x == *y,
        (Value::U32(x), Value::U32(y)) => *x == *y,
        (Value::U64(x), Value::U64(y)) => *x == *y,
        (Value::I32(x), Value::I32(y)) => *x == *y,
        (Value::I64(x), Value::I64(y)) => *x == *y,
        (Value::Float(x), Value::Float(y)) => *x == *y,
        (Value::Double(x), Value::Double(y)) => *x == *y,
        (Value::Str(x), Value::Str(y)) => *x == *y,
        (Value::List(xs), Value::List(ys)) => seqs_equal(xs, ys),
        (Value::SetOf(xs), Value::SetOf(ys)) => seqs_equal(xs, ys),
        (Value::Tuple(xs), Value::Tuple(ys)) => seqs_equal(xs, ys),
        (Value::Dict(xs), Value::Dict(ys)) => entries_equal(xs, ys),
        (Value::Stream(x), Value::Stream(y)) => *x == *y,
        _ => false,
    }
}

fn seqs_equal(xs: &Vec<Value>, ys: &Vec<Value>) -> (r: bool)
    ensures
        r == (models_of(xs@) == models_of(ys@)),
    decreases xs, 0nat,
{
    proof {
        lemma_models_of(xs@);
        lemma_models_of(ys@);
    }
    if xs.len() != ys.len() {
        return false;
    }
    let mut i: usize = 0;
    while i < xs.len()
        invariant
            i <= xs@.len() == ys@.len(),
            models_of(xs@).len() == xs@.len(),
            models_of(ys@).len() == ys@.len(),
            forall|j: int| 0 <= j < xs@.len() ==> #[trigger] models_of(xs@)[j] == model_of(xs@[j]),
            forall|j: int| 0 <= j < ys@.len() ==> #[trigger] models_of(ys@)[j] == model_of(ys@[j]),
            forall|j: int| 0 <= j < i ==> models_of(xs@)[j] == models_of(ys@)[j],
        decreases xs@.len() - i,
    {
        assert(decreases_to!(xs => xs@[i as int]));
        if !values_equal(&xs[i], &ys[i]) {
            assert(models_of(xs@)[i as int] != models_of(ys@)[i as int]);
            return false;
        }
        i = i + 1;
    }
    assert(models_of(xs@) =~= models_of(ys@));
    true
}

fn entries_equal(xs: &Vec<(Value, Value)>, ys: &Vec<(Value, Value)>) -> (r: bool)
    ensures
        r == (entry_models_of(xs@) == entry_models_of(ys@)),
    decreases xs, 0nat,
{
    proof {
        lemma_entry_models_of(xs@);
        lemma_entry_models_of(ys@);
    }
    if xs.len() != ys.len() {
        return false;
    }
    let mut i: usize = 0;
    while i < xs.len()
        invariant
            i <= xs@.len() == ys@.len(),
            entry_models_of(xs@).len() == xs@.len(),
            entry_models_of(ys@).len() == ys@.len(),
            forall|j: int|
                0 <= j < xs@.len() ==> #[trigger] entry_models_of(xs@)[j] == (
                model_of(xs@[j].0),
                model_of(xs@[j].1),
            ),
            forall|j: int|
                0 <= j < ys@.len() ==> #[trigger] entry_models_of(ys@)[j] == (
                model_of(ys@[j].0),
                model_of(ys@[j].1),
            ),
            forall|j: int| 0 <= j < i ==> entry_models_of(xs@)[j] == entry_models_of(ys@)[j],
        decreases xs@.len() - i,
    {
        assert(decreases_to!(xs => xs@[i as int]));
        let x = &xs[i];
        let y = &ys[i];
        if !values_equal(&x.0, &y.0) || !values_equal(&x.1, &y.1) {
            assert(entry_models_of(xs@)[i as int] != entry_models_of(ys@)[i as int]);
            return false;
        }
        i = i + 1;
    }
    assert(entry_models_of(xs@) =~= entry_models_of(ys@));
    true
}


/// No two entries share a key.
pub open spec fn keys_distinct(d: Seq<(ValueModel, ValueModel)>) -> bool {
    forall|i: int, j: int| 0 <= i < j < d.len() ==> (#[trigger] d[i]).0 != (#[trigger] d[j]).0
}

proof fn lemma_dict_insert_distinct(d: Seq<(ValueModel, ValueModel)>, k: ValueModel, v: ValueModel)
    requires
        keys_distinct(d),
    ensures
        keys_distinct(dict_insert(d, k, v)),
{
    let r = dict_insert(d, k, v);
    if exists|i: int| 0 <= i < d.len() && (#[trigger] d[i]).0 == k {
        let i = choose|i: int| 0 <= i < d.len() && (#[trigger] d[i]).0 == k;
        assert forall|a: int, b: int| 0 <= a < b < r.len() implies (#[trigger] r[a]).0 != (
        #[trigger] r[b]).0 by {
            assert(r[a].0 == d[a].0);
            assert(r[b].0 == d[b].0);
        }
    } else {
        assert forall|a: int, b: int| 0 <= a < b < r.len() implies (#[trigger] r[a]).0 != (
        #[trigger] r[b]).0 by {
            if b == d.len() {
                assert(r[a] == d[a]);
            } else {
                assert(r[a] == d[a] && r[b] == d[b]);
            }
        }
    }
}

/// Adds `x` to the set `s` unless it holds it already.
fn set_put(s: &mut Vec<Value>, x: Value)
    ensures
        models_of(final(s)@) == set_insert(models_of(old(s)@), x@),
{
    proof {
        lemma_models_of(s@);
    }
    let mut j: usize = 0;
    while j < s.len()
        invariant
            j <= s@.len(),
            s@ == old(s)@,
            models_of(s@).len() == s@.len(),
            forall|i: int| 0 <= i < s@.len() ==> #[trigger] models_of(s@)[i] == model_of(s@[i]),
            forall|i: int| 0 <= i < j ==> models_of(s@)[i] != x@,
        decreases s@.len() - j,
    {
        if values_equal(&s[j], &x) {
            assert(models_of(s@)[j as int] == x@);
            assert(models_of(s@).contains(x@));
            return;
        }
        j = j + 1;
    }
    assert(!models_of(s@).contains(x@));
    let ghost pre = s@;
    s.push(x);
    assert(s@.subrange(0, pre.len() as int) =~= pre);
}

/// Sets the value of key `k` to `v` in the dictionary `d`.
fn dict_put(d: &mut Vec<(Value, Value)>, k: Value, v: Value)
    requires
        keys_distinct(entry_models_of(old(d)@)),
    ensures
        entry_models_of(final(d)@) == dict_insert(entry_models_of(old(d)@), k@, v@),
        keys_distinct(entry_models_of(final(d)@)),
{
    proof {
        lemma_entry_models_of(d@);
        lemma_dict_insert_distinct(entry_models_of(d@), k@, v@);
    }
    let ghost m = entry_models_of(d@);
    let mut j: usize = 0;
    while j < d.len()
        invariant
            j <= d@.len(),
            m == entry_models_of(d@),
            d@ == old(d)@,
            keys_distinct(m),
            m.len() == d@.len(),
            forall|i: int|
                0 <= i < d@.len() ==> #[trigger] m[i] == (model_of(d@[i].0), model_of(d@[i].1)),
            forall|i: int| 0 <= i < j ==> m[i].0 != k@,
        decreases d@.len() - j,
    {
        if values_equal(&d[j].0, &k) {
            let ghost jj = j as int;
            assert(m[jj].0 == k@);
            let ghost c = choose|i: int| 0 <= i < m.len() && (#[trigger] m[i]).0 == k@;
            assert(c == jj) by {
                if c < jj {
                    assert(m[c].0 != m[jj].0);
                } else if c > jj {
                    assert(m[jj].0 != m[c].0);
                }
            }
            let ghost pre = d@;
            d[j] = (k, v);
            proof {
                lemma_entry_models_of(d@);
                assert(entry_models_of(d@) =~= m.update(jj, (k@, v@)));
            }
            return;
        }
        j = j + 1;
    }
    let ghost pre = d@;
    d.push((k, v));
    assert(d@.subrange(0, pre.len() as int) =~= pre);
}


proof fn lemma_decode_all_stays_none(e: Kind, items: Seq<Seq<u8>>, j: int)
    requires
        0 <= j <= items.len(),
        decode_all(e, items.subrange(0, j)) is None,
    ensures
        decode_all(e, items) is None,
    decreases items.len() - j,
{
    if j < items.len() {
        assert(items.subrange(0, j + 1).subrange(0, j) =~= items.subrange(0, j));
        lemma_decode_all_stays_none(e, items, j + 1);
    } else {
        assert(items.subrange(0, j) =~= items);
    }
}

proof fn lemma_decode_all_len(e: Kind, items: Seq<Seq<u8>>)
    ensures
        decode_all(e, items) matches Some(xs) ==> xs.len() == items.len(),
    decreases items.len(),
{
    if items.len() > 0 {
        lemma_decode_all_len(e, items.subrange(0, items.len() - 1));
    }
}

proof fn lemma_parse_entries_stays_none(items: Seq<Seq<u8>>, j: int)
    requires
        0 <= j <= items.len(),
        parse_entries(items.subrange(0, j)) is None,
    ensures
        parse_entries(items) is None,
    decreases items.len() - j,
{
    if j < items.len() {
        assert(items.subrange(0, j + 1).subrange(0, j) =~= items.subrange(0, j));
        lemma_parse_entries_stays_none(items, j + 1);
    } else {
        assert(items.subrange(0, j) =~= items);
    }
}


proof fn lemma_models_of_push(s: Seq<Value>, x: Value)
    ensures
        models_of(s.push(x)) == models_of(s).push(model_of(x)),
{
    assert(s.push(x).subrange(0, s.len() as int) =~= s);
}

fn read_entries(items: &Vec<Vec<u8>>) -> (r: Option<(Vec<Vec<u8>>, Vec<Vec<u8>>)>)
    ensures
        match parse_entries(blobs(items@)) {
            Some((ks, vs)) => r matches Some((a, b)) && blobs(a@) == ks && blobs(b@) == vs
                && a@.len() == b@.len(),
            None => r is None,
        },
{
    let ghost bs = blobs(items@);
    let mut keys: Vec<Vec<u8>> = Vec::new();
    let mut vals: Vec<Vec<u8>> = Vec::new();
    let mut i: usize = 0;
    assert(bs.subrange(0, 0) =~= Seq::<Seq<u8>>::empty());
    assert(blobs(keys@) =~= Seq::<Seq<u8>>::empty());
    while i < items.len()
        invariant
            i <= items@.len(),
            bs == blobs(items@),
            parse_entries(bs.subrange(0, i as int)) == Some((blobs(keys@), blobs(vals@))),
            keys@.len() == i,
            vals@.len() == i,
        decreases items@.len() - i,
    {
        assert(bs.subrange(0, i + 1).subrange(0, i as int) =~= bs.subrange(0, i as int));
        assert(bs[i as int] == items@[i as int]@);
        match read_entry(items[i].as_slice()) {
            Some((k, v)) => {
                let ghost (pk, pv) = (blobs(keys@), blobs(vals@));
                let ghost (kv, vv) = (k@, v@);
                keys.push(k);
                vals.push(v);
                assert(blobs(keys@) =~= pk.push(kv));
                assert(blobs(vals@) =~= pv.push(vv));
            },
            None => {
                proof {
                    lemma_parse_entries_stays_none(bs, i + 1);
                }
                return None;
            },
        }
        i = i + 1;
    }
    assert(bs.subrange(0, items@.len() as int) =~= bs);
    Some((keys, vals))
}

/// Decodes every blob as a value of kind `e`.
fn decode_list(e: &Kind, items: &Vec<Vec<u8>>) -> (r: Option<Vec<Value>>)
    ensures
        match decode_all(*e, blobs(items@)) {
            Some(xs) => r matches Some(v) && models_of(v@) == xs,
            None => r is None,
        },
    decreases e, 2nat,
{
    let ghost bs = blobs(items@);
    let mut out: Vec<Value> = Vec::new();
    let mut i: usize = 0;
    assert(bs.subrange(0, 0) =~= Seq::<Seq<u8>>::empty());
    while i < items.len()
        invariant
            i <= items@.len(),
            bs == blobs(items@),
            decode_all(*e, bs.subrange(0, i as int)) == Some(models_of(out@)),
        decreases items@.len() - i,
    {
        assert(bs.subrange(0, i + 1).subrange(0, i as int) =~= bs.subrange(0, i as int));
        assert(bs[i as int] == items@[i as int]@);
        match decode_value(e, items[i].as_slice()) {
            Ok(x) => {
                proof {
                    lemma_models_of_push(out@, x);
                }
                out.push(x);
            },
            Err(_) => {
                proof {
                    lemma_decode_all_stays_none(*e, bs, i + 1);
                }
                return None;
            },
        }
        i = i + 1;
    }
    assert(bs.subrange(0, items@.len() as int) =~= bs);
    Some(out)
}

/// Decodes blob `i` as a value of kind `k`.
fn decode_item(k: &Kind, items: &Vec<Vec<u8>>, i: usize) -> (r: Option<Value>)
    requires
        i < items@.len(),
    ensures
        match decode_model(*k, items@[i as int]@) {
            Some(m) => r matches Some(v) && v@ == m,
            None => r is None,
        },
    decreases k, 2nat,
{
    match decode_value(k, items[i].as_slice()) {
        Ok(v) => Some(v),
        Err(_) => None,
    }
}

proof fn lemma_models_of_literal(x0: Value, x1: Value, x2: Value, x3: Value)
    ensures
        models_of(seq![x0, x1]) == seq![model_of(x0), model_of(x1)],
        models_of(seq![x0, x1, x2]) == seq![model_of(x0), model_of(x1), model_of(x2)],
        models_of(seq![x0, x1, x2, x3]) == seq![
            model_of(x0),
            model_of(x1),
            model_of(x2),
            model_of(x3),
        ],
{
    lemma_models_of(seq![x0, x1]);
    lemma_models_of(seq![x0, x1, x2]);
    lemma_models_of(seq![x0, x1, x2, x3]);
    assert(models_of(seq![x0, x1]) =~= seq![model_of(x0), model_of(x1)]);
    assert(models_of(seq![x0, x1, x2]) =~= seq![model_of(x0), model_of(x1), model_of(x2)]);
    assert(models_of(seq![x0, x1, x2, x3]) =~= seq![
        model_of(x0),
        model_of(x1),
        model_of(x2),
        model_of(x3),
    ]);
}


/// Builds a dictionary from keys and values in order; a later value for a
/// key replaces an earlier one.
fn build_dict(keys: Vec<Value>, vals: Vec<Value>) -> (r: Vec<(Value, Value)>)
    requires
        keys@.len() == vals@.len(),
    ensures
        entry_models_of(r@) == dict_of(zip(models_of(keys@), models_of(vals@))),
{
    let ghost z = zip(models_of(keys@), models_of(vals@));
    let ghost ko = keys@;
    let ghost vo = vals@;
    proof {
        lemma_models_of(keys@);
        lemma_models_of(vals@);
    }
    let mut keys = keys;
    let mut vals = vals;
    let mut d: Vec<(Value, Value)> = Vec::new();
    let n = keys.len();
    let mut i: usize = 0;
    assert(z.subrange(0, 0) =~= Seq::<(ValueModel, ValueModel)>::empty());
    assert(entry_models_of(d@) =~= Seq::<(ValueModel, ValueModel)>::empty());
    while i < n
        invariant
            n == ko.len() == vo.len() == z.len(),
            i <= n,
            keys@ == ko.subrange(i as int, n as int),
            vals@ == vo.subrange(i as int, n as int),
            forall|j: int| 0 <= j < n ==> #[trigger] z[j] == (model_of(ko[j]), model_of(vo[j])),
            entry_models_of(d@) == dict_of(z.subrange(0, i as int)),
            keys_distinct(entry_models_of(d@)),
        decreases n - i,
    {
        assert(z.subrange(0, i + 1).subrange(0, i as int) =~= z.subrange(0, i as int));
        let k = keys.remove(0);
        let v = vals.remove(0);
        assert(keys@ =~= ko.subrange(i + 1, n as int));
        assert(vals@ =~= vo.subrange(i + 1, n as int));
        dict_put(&mut d, k, v);
        i = i + 1;
    }
    assert(z.subrange(0, n as int) =~= z);
    d
}

/// Decodes the bytes `b` as a value of kind `k`.
pub fn decode_value(k: &Kind, b: &[u8]) -> (r: Result<Value, CodecError>)
    ensures
        match decode_model(*k, b@) {
            Some(m) => r matches Ok(v) && v@ == m,
            None => r is Err,
        },
    decreases k, 1nat,
{
    match k {
        Kind::Unit => if b.len() == 0 {
            Ok(Value::Unit)
        } else {
            Err(CodecError::Malformed)
        },
        Kind::Bool => match read_whole_varint(b) {
            Some(x) => Ok(Value::Bool(x != 0)),
            None => Err(CodecError::Malformed),
        },
        Kind::U32 => match read_whole_varint(b) {
            Some(x) => if x <= u32::MAX as u64 {
                Ok(Value::U32(x as u32))
            } else {
                Err(CodecError::Malformed)
            },
            None => Err(CodecError::Malformed),
        },
        Kind::U64 => match read_whole_varint(b) {
            Some(x) => Ok(Value::U64(x)),
            None => Err(CodecError::Malformed),
        },
        Kind::I32 => match read_whole_varint(b) {
            Some(x) => if x <= u32::MAX as u64 {
                Ok(Value::I32(decode_zigzag32(x as u32)))
            } else {
                Err(CodecError::Malformed)
            },
            None => Err(CodecError::Malformed),
        },
        Kind::I64 => match read_whole_varint(b) {
            Some(x) => Ok(Value::I64(decode_zigzag64(x))),
            None => Err(CodecError::Malformed),
        },
        Kind::Float => if b.len() == 4 {
            proof {
                lemma_le_value_bound(b@);
                lemma_pow256_facts();
            }
            Ok(Value::Float(read_le(b) as u32))
        } else {
            Err(CodecError::Malformed)
        },
        Kind::Double => if b.len() == 8 {
            Ok(Value::Double(read_le(b)))
        } else {
            Err(CodecError::Malformed)
        },
        Kind::Str => {
            assert(b@.subrange(0, b@.len() as int) =~= b@);
            let (n, m) = match read_varint(b, 0) {
                Some(p) => p,
                None => return Err(CodecError::Malformed),
            };
            if n != (b.len() - m) as u64 {
                return Err(CodecError::Malformed);
            }
            let text = copy_range(b, m, b.len());
            match text_from_utf8(text.as_slice()) {
                Some(s) => Ok(Value::Str(s)),
                None => Err(CodecError::Malformed),
            }
        },
        Kind::List(e) => {
            let items = match read_items(b) {
                Some(items) => items,
                None => return Err(CodecError::Malformed),
            };
            match decode_list(e, &items) {
                Some(xs) => Ok(Value::List(xs)),
                None => Err(CodecError::Malformed),
            }
        },
        Kind::SetOf(e) => {
            let items = match read_items(b) {
                Some(items) => items,
                None => return Err(CodecError::Malformed),
            };
            match decode_list(e, &items) {
                Some(xs) => Ok(Value::SetOf(distinct(xs))),
                None => Err(CodecError::Malformed),
            }
        },
        Kind::Dict(kk, vk) => {
            let items = match read_items(b) {
                Some(items) => items,
                None => return Err(CodecError::Malformed),
            };
            let (kbs, vbs) = match read_entries(&items) {
                Some(p) => p,
                None => return Err(CodecError::Malformed),
            };
            let keys = decode_list(kk, &kbs);
            let vals = decode_list(vk, &vbs);
            match (keys, vals) {
                (Some(keys), Some(vals)) => {
                    proof {
                        lemma_decode_all_len(**kk, blobs(kbs@));
                        lemma_decode_all_len(**vk, blobs(vbs@));
                        lemma_models_of(keys@);
                        lemma_models_of(vals@);
                    }
                    Ok(Value::Dict(build_dict(keys, vals)))
                },
                _ => Err(CodecError::Malformed),
            }
        },
        Kind::Tuple2(k0, k1) => {
            let items = match read_items(b) {
                Some(items) => items,
                None => return Err(CodecError::Malformed),
            };
            if items.len() != 2 {
                return Err(CodecError::Malformed);
            }
            assert(blobs(items@)[0] == items@[0]@ && blobs(items@)[1] == items@[1]@);
            match (decode_item(k0, &items, 0), decode_item(k1, &items, 1)) {
                (Some(x0), Some(x1)) => {
                    proof {
                        lemma_models_of_literal(x0, x1, x1, x1);
                    }
                    Ok(Value::Tuple(vec![x0, x1]))
                },
                _ => Err(CodecError::Malformed),
            }
        },
        Kind::Tuple3(k0, k1, k2) => {
            let items = match read_items(b) {
                Some(items) => items,
                None => return Err(CodecError::Malformed),
            };
            if items.len() != 3 {
                return Err(CodecError::Malformed);
            }
            assert(blobs(items@)[0] == items@[0]@ && blobs(items@)[1] == items@[1]@
                && blobs(items@)[2] == items@[2]@);
            match (
                decode_item(k0, &items, 0),
                decode_item(k1, &items, 1),
                decode_item(k2, &items, 2),
            ) {
                (Some(x0), Some(x1), Some(x2)) => {
                    proof {
                        lemma_models_of_literal(x0, x1, x2, x2);
                    }
                    Ok(Value::Tuple(vec![x0, x1, x2]))
                },
                _ => Err(CodecError::Malformed),
            }
        },
        Kind::Tuple4(k0, k1, k2, k3) => {
            let items = match read_items(b) {
                Some(items) => items,
                None => return Err(CodecError::Malformed),
            };
            if items.len() != 4 {
                return Err(CodecError::Malformed);
            }
            assert(blobs(items@)[0] == items@[0]@ && blobs(items@)[1] == items@[1]@
                && blobs(items@)[2] == items@[2]@ && blobs(items@)[3] == items@[3]@);
            match (
                decode_item(k0, &items, 0),
                decode_item(k1, &items, 1),
                decode_item(k2, &items, 2),
                decode_item(k3, &items, 3),
            ) {
                (Some(x0), Some(x1), Some(x2), Some(x3)) => {
                    proof {
                        lemma_models_of_literal(x0, x1, x2, x3);
                    }
                    Ok(Value::Tuple(vec![x0, x1, x2, x3]))
                },
                _ => Err(CodecError::Malformed),
            }
        },
        Kind::Stream(_) => match read_stream_id(b) {
            Some(id) => Ok(Value::Stream(id)),
            None => Err(CodecError::Malformed),
        },
    }
}

/// The elements of `xs`, each once, in the order they first occur.
fn distinct(xs: Vec<Value>) -> (r: Vec<Value>)
    ensures
        models_of(r@) == distinct_of(models_of(xs@)),
{
    let ghost xo = xs@;
    proof {
        lemma_models_of(xs@);
    }
    let mut xs = xs;
    let n = xs.len();
    let mut out: Vec<Value> = Vec::new();
    let mut i: usize = 0;
    let ghost m = models_of(xo);
    assert(m.subrange(0, 0) =~= Seq::<ValueModel>::empty());
    assert(models_of(out@) =~= Seq::<ValueModel>::empty());
    while i < n
        invariant
            n == xo.len() == m.len(),
            i <= n,
            m == models_of(xo),
            xs@ == xo.subrange(i as int, n as int),
            forall|j: int| 0 <= j < n ==> #[trigger] m[j] == model_of(xo[j]),
            models_of(out@) == distinct_of(m.subrange(0, i as int)),
        decreases n - i,
    {
        assert(m.subrange(0, i + 1).subrange(0, i as int) =~= m.subrange(0, i as int));
        let x = xs.remove(0);
        assert(xs@ =~= xo.subrange(i + 1, n as int));
        set_put(&mut out, x);
        i = i + 1;
    }
    assert(m.subrange(0, n as int) =~= m);
    out
}


/// `v` is a value of kind `k`: its shape follows `k`, a set holds no element
/// twice and a dictionary no key twice.
pub open spec fn has_kind(v: ValueModel, k: Kind) -> bool
    decreases v, 0nat,
{
    match (v, k) {
        (ValueModel::Unit, Kind::Unit) => true,
        (ValueModel::Bool(_), Kind::Bool) => true,
        (ValueModel::U32(_), Kind::U32) => true,
        (ValueModel::U64(_), Kind::U64) => true,
        (ValueModel::I32(_), Kind::I32) => true,
        (ValueModel::I64(_), Kind::I64) => true,
        (ValueModel::Float(_), Kind::Float) => true,
        (ValueModel::Double(_), Kind::Double) => true,
        (ValueModel::Str(_), Kind::Str) => true,
        (ValueModel::List(xs), Kind::List(e)) => all_have_kind(xs, *e),
        (ValueModel::SetOf(xs), Kind::SetOf(e)) => all_have_kind(xs, *e) && xs.no_duplicates(),
        (ValueModel::Dict(es), Kind::Dict(kk, vk)) => entries_have_kinds(es, *kk, *vk)
            && keys_distinct(es),
        (ValueModel::Tuple(xs), Kind::Tuple2(k0, k1)) => xs.len() == 2 && has_kind(xs[0], *k0)
            && has_kind(xs[1], *k1),
        (ValueModel::Tuple(xs), Kind::Tuple3(k0, k1, k2)) => xs.len() == 3 && has_kind(xs[0], *k0)
            && has_kind(xs[1], *k1) && has_kind(xs[2], *k2),
        (ValueModel::Tuple(xs), Kind::Tuple4(k0, k1, k2, k3)) => xs.len() == 4 && has_kind(
            xs[0],
            *k0,
        ) && has_kind(xs[1], *k1) && has_kind(xs[2], *k2) && has_kind(xs[3], *k3),
        (ValueModel::Stream(_), Kind::Stream(_)) => true,
        _ => false,
    }
}

pub open spec fn all_have_kind(xs: Seq<ValueModel>, e: Kind) -> bool
    decreases xs, xs.len(),
{
    if xs.len() == 0 {
        true
    } else {
        all_have_kind(xs.subrange(0, xs.len() - 1), e) && has_kind(xs[xs.len() - 1], e)
    }
}

pub open spec fn entries_have_kinds(es: Seq<(ValueModel, ValueModel)>, kk: Kind, vk: Kind) -> bool
    decreases es, es.len(),
{
    if es.len() == 0 {
        true
    } else {
        let e = es[es.len() - 1];
        entries_have_kinds(es.subrange(0, es.len() - 1), kk, vk) && has_kind(e.0, kk) && has_kind(
            e.1,
            vk,
        )
    }
}


pub open spec fn keys_of(es: Seq<(ValueModel, ValueModel)>) -> Seq<ValueModel> {
    es.map_values(|e: (ValueModel, ValueModel)| e.0)
}

pub open spec fn values_of(es: Seq<(ValueModel, ValueModel)>) -> Seq<ValueModel> {
    es.map_values(|e: (ValueModel, ValueModel)| e.1)
}

proof fn lemma_encode_models_index(xs: Seq<ValueModel>)
    ensures
        encode_models(xs).len() == xs.len(),
        forall|i: int| 0 <= i < xs.len() ==> #[trigger] encode_models(xs)[i] == encode_model(xs[i]),
    decreases xs.len(),
{
    if xs.len() > 0 {
        lemma_encode_models_index(xs.subrange(0, xs.len() - 1));
    }
}

proof fn lemma_encode_entries_index(es: Seq<(ValueModel, ValueModel)>)
    ensures
        encode_entries(es).len() == es.len(),
        forall|i: int|
            0 <= i < es.len() ==> #[trigger] encode_entries(es)[i] == entry_message(
                encode_model(es[i].0),
                encode_model(es[i].1),
            ),
    decreases es.len(),
{
    if es.len() > 0 {
        lemma_encode_entries_index(es.subrange(0, es.len() - 1));
    }
}

proof fn lemma_items_message_len(items: Seq<Seq<u8>>)
    ensures
        forall|i: int| 0 <= i < items.len() ==> (#[trigger] items[i]).len() <= items_message(items).len(),
    decreases items.len(),
{
    if items.len() > 0 {
        let rest = items.subrange(1, items.len() as int);
        lemma_items_message_len(rest);
        assert forall|i: int| 0 <= i < items.len() implies (#[trigger] items[i]).len()
            <= items_message(items).len() by {
            if i > 0 {
                assert(items[i] == rest[i - 1]);
            }
        }
    }
}

pub(crate) proof fn lemma_parse_items_message(items: Seq<Seq<u8>>)
    requires
        forall|i: int| 0 <= i < items.len() ==> (#[trigger] items[i]).len() <= u64::MAX,
    ensures
        parse_fields(items_message(items)) == Some(
            items.map_values(|b: Seq<u8>| FieldModel::Delimited(1, b)),
        ),
        parse_items(items_message(items)) == Some(items),
    decreases items.len(),
{
    let fs = items.map_values(|b: Seq<u8>| FieldModel::Delimited(1, b));
    if items.len() == 0 {
        assert(fs =~= Seq::<FieldModel>::empty());
    } else {
        let rest = items.subrange(1, items.len() as int);
        lemma_parse_items_message(rest);
        lemma_parse_delimited_field(1, items[0], items_message(rest));
        assert(fs =~= seq![FieldModel::Delimited(1, items[0])] + rest.map_values(
            |b: Seq<u8>| FieldModel::Delimited(1, b),
        ));
    }
    lemma_items_in_delimited(items);
}

proof fn lemma_items_in_delimited(items: Seq<Seq<u8>>)
    ensures
        items_in(items.map_values(|b: Seq<u8>| FieldModel::Delimited(1, b))) == Some(items),
    decreases items.len(),
{
    let fs = items.map_values(|b: Seq<u8>| FieldModel::Delimited(1, b));
    if items.len() > 0 {
        let init = items.subrange(0, items.len() - 1);
        lemma_items_in_delimited(init);
        assert(fs.subrange(0, fs.len() - 1) =~= init.map_values(
            |b: Seq<u8>| FieldModel::Delimited(1, b),
        ));
        assert(init.push(items[items.len() - 1]) =~= items);
    }
}

proof fn lemma_parse_entry_message(kb: Seq<u8>, vb: Seq<u8>)
    requires
        kb.len() <= u64::MAX,
        vb.len() <= u64::MAX,
    ensures
        parse_entry(entry_message(kb, vb)) == Some((kb, vb)),
{
    let empty = Seq::<u8>::empty();
    lemma_parse_delimited_field(2, vb, empty);
    assert(delimited_field(2, vb) + empty =~= delimited_field(2, vb));
    assert(parse_fields(empty) == Some(Seq::<FieldModel>::empty()));
    lemma_parse_delimited_field(1, kb, delimited_field(2, vb));
    let fs = seq![FieldModel::Delimited(1, kb)] + (seq![FieldModel::Delimited(2, vb)] + Seq::<
        FieldModel,
    >::empty());
    assert(parse_fields(entry_message(kb, vb)) == Some(fs));
    assert(fs.subrange(0, 1) =~= seq![FieldModel::Delimited(1, kb)]);
    assert(fs.subrange(0, 1).subrange(0, 0) =~= Seq::<FieldModel>::empty());
    assert(fs.subrange(0, fs.len() - 1) =~= seq![FieldModel::Delimited(1, kb)]);
    let one = seq![FieldModel::Delimited(1, kb)];
    assert(one.subrange(0, 0) =~= Seq::<FieldModel>::empty());
    assert(last_delimited(Seq::<FieldModel>::empty(), 1) == Some(empty));
    assert(last_delimited(Seq::<FieldModel>::empty(), 2) == Some(empty));
    assert(one[0] == FieldModel::Delimited(1, kb));
    assert(one.len() == 1);
    assert(last_delimited(one, 1) == Some(kb));
    assert(last_delimited(one, 2) == Some(empty));
    assert(fs[1] == FieldModel::Delimited(2, vb));
    assert(last_delimited(fs, 1) == Some(kb));
    assert(last_delimited(fs, 2) == Some(vb));
}


proof fn lemma_parse_entries_encoded(es: Seq<(ValueModel, ValueModel)>)
    requires
        forall|i: int|
            0 <= i < es.len() ==> encode_model((#[trigger] es[i]).0).len() <= u64::MAX
                && encode_model(es[i].1).len() <= u64::MAX,
    ensures
        parse_entries(encode_entries(es)) == Some(
            (encode_models(keys_of(es)), encode_models(values_of(es))),
        ),
    decreases es.len(),
{
    if es.len() == 0 {
        assert(keys_of(es) =~= Seq::<ValueModel>::empty());
        assert(values_of(es) =~= Seq::<ValueModel>::empty());
    } else {
        let init = es.subrange(0, es.len() - 1);
        let e = es[es.len() - 1];
        assert forall|i: int| 0 <= i < init.len() implies encode_model((#[trigger] init[i]).0).len()
            <= u64::MAX && encode_model(init[i].1).len() <= u64::MAX by {
            assert(init[i] == es[i]);
        }
        lemma_parse_entries_encoded(init);
        let items = encode_entries(es);
        assert(items.subrange(0, items.len() - 1) =~= encode_entries(init));
        lemma_parse_entry_message(encode_model(e.0), encode_model(e.1));
        assert(keys_of(es) =~= keys_of(init).push(e.0));
        assert(values_of(es) =~= values_of(init).push(e.1));
        lemma_encode_models_push(keys_of(init), e.0);
        lemma_encode_models_push(values_of(init), e.1);
    }
}

proof fn lemma_distinct_of_unique(xs: Seq<ValueModel>)
    requires
        xs.no_duplicates(),
    ensures
        distinct_of(xs) == xs,
    decreases xs.len(),
{
    if xs.len() > 0 {
        let init = xs.subrange(0, xs.len() - 1);
        lemma_distinct_of_unique(init);
        assert(!init.contains(xs[xs.len() - 1]));
        assert(init.push(xs[xs.len() - 1]) =~= xs);
    }
}

proof fn lemma_dict_of_distinct(es: Seq<(ValueModel, ValueModel)>)
    requires
        keys_distinct(es),
    ensures
        dict_of(es) == es,
    decreases es.len(),
{
    if es.len() > 0 {
        let init = es.subrange(0, es.len() - 1);
        let e = es[es.len() - 1];
        assert(keys_distinct(init)) by {
            assert forall|i: int, j: int| 0 <= i < j < init.len() implies (#[trigger] init[i]).0
                != (#[trigger] init[j]).0 by {
                assert(init[i] == es[i] && init[j] == es[j]);
            }
        }
        lemma_dict_of_distinct(init);
        assert(!(exists|i: int| 0 <= i < init.len() && (#[trigger] init[i]).0 == e.0)) by {
            assert forall|i: int| 0 <= i < init.len() implies (#[trigger] init[i]).0 != e.0 by {
                assert(init[i] == es[i]);
            }
        }
        assert(init.push(e) =~= es);
    }
}

proof fn lemma_round_trip_all(xs: Seq<ValueModel>, e: Kind)
    requires
        all_have_kind(xs, e),
        forall|i: int| 0 <= i < xs.len() ==> encode_model(#[trigger] xs[i]).len() <= u64::MAX,
    ensures
        decode_all(e, encode_models(xs)) == Some(xs),
    decreases xs, 0nat,
{
    if xs.len() > 0 {
        let init = xs.subrange(0, xs.len() - 1);
        let x = xs[xs.len() - 1];
        assert forall|i: int| 0 <= i < init.len() implies encode_model(#[trigger] init[i]).len()
            <= u64::MAX by {
            assert(init[i] == xs[i]);
        }
        lemma_round_trip_all(init, e);
        lemma_round_trip(x, e);
        let items = encode_models(xs);
        assert(items.subrange(0, items.len() - 1) =~= encode_models(init));
        assert(init.push(x) =~= xs);
    }
}


proof fn lemma_round_trip_entries(es: Seq<(ValueModel, ValueModel)>, kk: Kind, vk: Kind)
    requires
        entries_have_kinds(es, kk, vk),
        forall|i: int|
            0 <= i < es.len() ==> encode_model((#[trigger] es[i]).0).len() <= u64::MAX
                && encode_model(es[i].1).len() <= u64::MAX,
    ensures
        decode_all(kk, encode_models(keys_of(es))) == Some(keys_of(es)),
        decode_all(vk, encode_models(values_of(es))) == Some(values_of(es)),
    decreases es, 0nat,
{
    if es.len() == 0 {
        assert(keys_of(es) =~= Seq::<ValueModel>::empty());
        assert(values_of(es) =~= Seq::<ValueModel>::empty());
    } else {
        let init = es.subrange(0, es.len() - 1);
        let e = es[es.len() - 1];
        assert forall|i: int| 0 <= i < init.len() implies encode_model((#[trigger] init[i]).0).len()
            <= u64::MAX && encode_model(init[i].1).len() <= u64::MAX by {
            assert(init[i] == es[i]);
        }
        lemma_round_trip_entries(init, kk, vk);
        assert(decreases_to!(es => es[es.len() - 1]));
        lemma_round_trip(e.0, kk);
        lemma_round_trip(e.1, vk);
        let ks = keys_of(es);
        let vs = values_of(es);
        assert(ks =~= keys_of(init).push(e.0));
        assert(vs =~= values_of(init).push(e.1));
        lemma_encode_models_push(keys_of(init), e.0);
        lemma_encode_models_push(values_of(init), e.1);
        lemma_encode_models_index(keys_of(init));
        lemma_encode_models_index(values_of(init));
        assert(encode_models(ks).subrange(0, ks.len() - 1) =~= encode_models(keys_of(init)));
        assert(encode_models(vs).subrange(0, vs.len() - 1) =~= encode_models(values_of(init)));
    }
}

/// Decoding what a value encodes to gives the value back, for every value
/// of the kind asked for whose encoding fits a 64-bit length.
pub proof fn lemma_round_trip(v: ValueModel, k: Kind)
    requires
        has_kind(v, k),
        encode_model(v).len() <= u64::MAX,
    ensures
        decode_model(k, encode_model(v)) == Some(v),
    decreases v, 1nat,
{
    let b = encode_model(v);
    let empty = Seq::<u8>::empty();
    match v {
        ValueModel::Bool(x) => {
            lemma_parse_varint(if x { 1 } else { 0 }, empty);
            assert(b + empty =~= b);
        },
        ValueModel::U32(x) => {
            lemma_parse_varint(x as u64, empty);
            assert(b + empty =~= b);
        },
        ValueModel::U64(x) => {
            lemma_parse_varint(x, empty);
            assert(b + empty =~= b);
        },
        ValueModel::I32(x) => {
            lemma_parse_varint(zigzag32(x) as u64, empty);
            assert(b + empty =~= b);
            lemma_zigzag32(x);
        },
        ValueModel::I64(x) => {
            lemma_parse_varint(zigzag64(x), empty);
            assert(b + empty =~= b);
            lemma_zigzag64(x);
        },
        ValueModel::Float(x) => {
            lemma_pow256_facts();
            lemma_le_round_trip(x as nat, 4);
        },
        ValueModel::Double(x) => {
            lemma_pow256_facts();
            lemma_le_round_trip(x as nat, 8);
        },
        ValueModel::Str(s) => {
            let t = encode_utf8(s);
            lemma_parse_varint(t.len() as u64, t);
            assert(b.subrange(varint(t.len() as u64).len() as int, b.len() as int) =~= t);
            encode_utf8_valid_utf8(s);
            encode_utf8_decode_utf8(s);
        },
        ValueModel::Stream(id) => {
            lemma_parse_varint_field(1, id, empty);
            assert(b + empty =~= b);
            let fs = seq![FieldModel::Varint(1, id)];
            assert(parse_fields(b) == Some(fs + Seq::<FieldModel>::empty()));
            assert(fs + Seq::<FieldModel>::empty() =~= fs);
            assert(fs.subrange(0, 0) =~= Seq::<FieldModel>::empty());
            assert(last_varint(Seq::<FieldModel>::empty(), 1) == Some(0u64));
            assert(last_varint(fs, 1) == Some(id));
        },
        ValueModel::List(xs) => {
            lemma_container(xs);
            if let Kind::List(e) = k {
                lemma_round_trip_all(xs, *e);
            }
        },
        ValueModel::SetOf(xs) => {
            lemma_container(xs);
            if let Kind::SetOf(e) = k {
                lemma_round_trip_all(xs, *e);
                lemma_distinct_of_unique(xs);
            }
        },
        ValueModel::Tuple(xs) => {
            lemma_round_trip_tuple(xs, k);
        },
        ValueModel::Dict(es) => {
            lemma_round_trip_dict(es, k);
        },
        ValueModel::Unit => {},
    }
}

#[verifier::rlimit(40)]
proof fn lemma_round_trip_tuple(xs: Seq<ValueModel>, k: Kind)
    requires
        has_kind(ValueModel::Tuple(xs), k),
        encode_model(ValueModel::Tuple(xs)).len() <= u64::MAX,
    ensures
        decode_model(k, encode_model(ValueModel::Tuple(xs))) == Some(ValueModel::Tuple(xs)),
    decreases xs, 0nat,
{
    let b = encode_model(ValueModel::Tuple(xs));
    let items = encode_models(xs);
    assert(b == items_message(items));
    lemma_container(xs);
    lemma_encode_models_index(xs);
    assert(parse_items(b) == Some(items));
    match k {
        Kind::Tuple2(k0, k1) => {
            lemma_round_trip(xs[0], *k0);
            lemma_round_trip(xs[1], *k1);
            assert(decode_model(*k0, items[0]) == Some(xs[0]));
            assert(decode_model(*k1, items[1]) == Some(xs[1]));
            assert(seq![xs[0], xs[1]] =~= xs);
        },
        Kind::Tuple3(k0, k1, k2) => {
            lemma_round_trip(xs[0], *k0);
            lemma_round_trip(xs[1], *k1);
            lemma_round_trip(xs[2], *k2);
            assert(decode_model(*k0, items[0]) == Some(xs[0]));
            assert(decode_model(*k1, items[1]) == Some(xs[1]));
            assert(decode_model(*k2, items[2]) == Some(xs[2]));
            assert(seq![xs[0], xs[1], xs[2]] =~= xs);
        },
        Kind::Tuple4(k0, k1, k2, k3) => {
            lemma_round_trip(xs[0], *k0);
            lemma_round_trip(xs[1], *k1);
            lemma_round_trip(xs[2], *k2);
            lemma_round_trip(xs[3], *k3);
            assert(decode_model(*k0, items[0]) == Some(xs[0]));
            assert(decode_model(*k1, items[1]) == Some(xs[1]));
            assert(decode_model(*k2, items[2]) == Some(xs[2]));
            assert(decode_model(*k3, items[3]) == Some(xs[3]));
            assert(seq![xs[0], xs[1], xs[2], xs[3]] =~= xs);
        },
        _ => {},
    }
}


proof fn lemma_round_trip_dict(es: Seq<(ValueModel, ValueModel)>, k: Kind)
    requires
        has_kind(ValueModel::Dict(es), k),
        encode_model(ValueModel::Dict(es)).len() <= u64::MAX,
    ensures
        decode_model(k, encode_model(ValueModel::Dict(es))) == Some(ValueModel::Dict(es)),
    decreases es, 1nat,
{
    let b = encode_model(ValueModel::Dict(es));
    let items = encode_entries(es);
    lemma_encode_entries_index(es);
    lemma_items_message_len(items);
    assert forall|i: int| 0 <= i < es.len() implies encode_model((#[trigger] es[i]).0).len()
        <= u64::MAX && encode_model(es[i].1).len() <= u64::MAX by {
        assert(items[i] == entry_message(encode_model(es[i].0), encode_model(es[i].1)));
        assert(items[i].len() <= b.len());
    }
    assert forall|i: int| 0 <= i < items.len() implies (#[trigger] items[i]).len()
        <= u64::MAX by {
        assert(items[i].len() <= b.len());
    }
    lemma_parse_items_message(items);
    lemma_parse_entries_encoded(es);
    if let Kind::Dict(kk, vk) = k {
        lemma_round_trip_entries(es, *kk, *vk);
        assert(zip(keys_of(es), values_of(es)) =~= es);
        lemma_dict_of_distinct(es);
    }
}

/// The element blobs of a container read back, each within a 64-bit length.
proof fn lemma_container(xs: Seq<ValueModel>)
    requires
        items_message(encode_models(xs)).len() <= u64::MAX,
    ensures
        parse_items(items_message(encode_models(xs))) == Some(encode_models(xs)),
        forall|i: int| 0 <= i < xs.len() ==> encode_model(#[trigger] xs[i]).len() <= u64::MAX,
{
    let items = encode_models(xs);
    lemma_encode_models_index(xs);
    lemma_items_message_len(items);
    assert forall|i: int| 0 <= i < xs.len() implies encode_model(#[trigger] xs[i]).len()
        <= u64::MAX by {
        assert(items[i] == encode_model(xs[i]));
    }
    lemma_parse_items_message(items);
}

} // verus!
