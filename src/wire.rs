//! Protocol buffer wire primitives: varints, zigzag integers and the framing
//! of tagged fields.
use vstd::prelude::*;

verus! {

/// The varint encoding of `x`: seven bits per byte, least significant group
/// first, the high bit set on every byte but the last.
pub open spec fn varint(x: u64) -> Seq<u8>
    decreases x,
{
    if x < 128 {
        seq![x as u8]
    } else {
        seq![(x % 128 + 128) as u8] + varint(x / 128)
    }
}

/// Reads a varint of at most `budget` bytes from the front of `s`, giving its
/// value and the number of bytes it took. Values past `u64` are refused.
pub open spec fn parse_varint_within(s: Seq<u8>, budget: nat) -> Option<(u64, nat)>
    decreases budget,
{
    if budget == 0 || s.len() == 0 {
        None
    } else if s[0] < 128 {
        Some((s[0] as u64, 1))
    } else {
        match parse_varint_within(s.drop_first(), (budget - 1) as nat) {
            None => None,
            Some((v, n)) => {
                let total = (s[0] - 128) + 128 * v;
                if total <= u64::MAX {
                    Some((total as u64, n + 1))
                } else {
                    None
                }
            },
        }
    }
}

/// A varint is at most ten bytes long.
pub open spec fn parse_varint(s: Seq<u8>) -> Option<(u64, nat)> {
    parse_varint_within(s, 10)
}

pub open spec fn pow128(k: nat) -> nat
    decreases k,
{
    if k == 0 {
        1
    } else {
        128 * pow128((k - 1) as nat)
    }
}

proof fn lemma_varint_len_bound(x: u64, k: nat)
    requires
        k >= 1,
        x < pow128(k),
    ensures
        varint(x).len() <= k,
    decreases x,
{
    if x >= 128 {
        let p = pow128((k - 1) as nat);
        assert(k >= 2) by {
            if k == 1 {
                assert(pow128(1) == 128 * pow128(0));
            }
        }
        assert(x / 128 < p) by (nonlinear_arith)
            requires
                x < 128 * p,
        ;
        lemma_varint_len_bound(x / 128, (k - 1) as nat);
    }
}

/// Every `u64` encodes in at most ten bytes.
pub proof fn lemma_varint_len(x: u64)
    ensures
        1 <= varint(x).len() <= 10,
{
    reveal_with_fuel(pow128, 11);
    assert(pow128(10) == 1180591620717411303424nat);
    lemma_varint_len_bound(x, 10);
}

proof fn lemma_parse_varint_within(x: u64, rest: Seq<u8>, budget: nat)
    requires
        varint(x).len() <= budget,
    ensures
        parse_varint_within(varint(x) + rest, budget) == Some((x, varint(x).len())),
    decreases x,
{
    let s = varint(x) + rest;
    if x >= 128 {
        lemma_parse_varint_within(x / 128, rest, (budget - 1) as nat);
        assert(s.drop_first() =~= varint(x / 128) + rest);
        assert(x == x % 128 + 128 * (x / 128));
    }
}

/// Reading back an encoded varint gives its value, whatever follows it.
pub proof fn lemma_parse_varint(x: u64, rest: Seq<u8>)
    ensures
        parse_varint(varint(x) + rest) == Some((x, varint(x).len())),
{
    lemma_varint_len(x);
    lemma_parse_varint_within(x, rest, 10);
}

/// Appends the varint encoding of `x` to `out`.
pub fn write_varint(out: &mut Vec<u8>, x: u64)
    ensures
        final(out)@ == old(out)@ + varint(x),
{
    let mut cur: u64 = x;
    while cur >= 128
        invariant
            old(out)@ + varint(x) == out@ + varint(cur),
        decreases cur,
    {
        out.push((cur % 128 + 128) as u8);
        assert(out@ + varint(cur / 128) =~= old(out)@ + varint(x));
        cur = cur / 128;
    }
    out.push(cur as u8);
    assert(out@ =~= old(out)@ + varint(x));
}


fn read_varint_within(s: &[u8], pos: usize, budget: usize) -> (r: Option<(u64, usize)>)
    requires
        pos <= s@.len(),
    ensures
        match parse_varint_within(s@.subrange(pos as int, s@.len() as int), budget as nat) {
            None => r is None,
            Some((v, n)) => r matches Some((rv, next)) && rv == v && next == pos + n,
        },
        match r {
            Some((v, next)) => pos < next <= s@.len(),
            None => true,
        },
    decreases budget,
{
    let ghost t = s@.subrange(pos as int, s@.len() as int);
    proof {
        lemma_parse_varint_within_positive(t, budget as nat);
    }
    if pos == s.len() || budget == 0 {
        return None;
    }
    let b = s[pos];
    if b < 128 {
        return Some((b as u64, pos + 1));
    }
    assert(t.drop_first() =~= s@.subrange(pos + 1, s@.len() as int));
    match read_varint_within(s, pos + 1, budget - 1) {
        None => None,
        Some((v, next)) => {
            let low = (b - 128) as u64;
            if v <= (u64::MAX - low) / 128 {
                assert(low + 128 * v <= u64::MAX) by (nonlinear_arith)
                    requires
                        v <= (u64::MAX - low) / 128,
                        low <= 127,
                ;
                Some((low + 128 * v, next))
            } else {
                assert(low + 128 * v > u64::MAX) by (nonlinear_arith)
                    requires
                        v > (u64::MAX - low) / 128,
                        low <= 127,
                ;
                None
            }
        },
    }
}

/// Reads the varint that starts at `pos`, giving its value and the position
/// just past it.
pub fn read_varint(s: &[u8], pos: usize) -> (r: Option<(u64, usize)>)
    requires
        pos <= s@.len(),
    ensures
        match parse_varint(s@.subrange(pos as int, s@.len() as int)) {
            None => r is None,
            Some((v, n)) => r matches Some((rv, next)) && rv == v && next == pos + n,
        },
        match r {
            Some((v, next)) => pos < next <= s@.len(),
            None => true,
        },
{
    proof {
        lemma_parse_varint_within_positive(s@.subrange(pos as int, s@.len() as int), 10);
    }
    read_varint_within(s, pos, 10)
}

/// The zigzag mapping of a signed 64-bit integer: 0, -1, 1, -2, ... become
/// 0, 1, 2, 3, ...
pub open spec fn zigzag64(v: i64) -> u64 {
    if v >= 0 {
        (2 * v) as u64
    } else {
        (-2 * v - 1) as u64
    }
}

pub open spec fn unzigzag64(u: u64) -> i64 {
    if u % 2 == 0 {
        (u / 2) as i64
    } else {
        (-((u / 2) as int) - 1) as i64
    }
}

pub open spec fn zigzag32(v: i32) -> u32 {
    if v >= 0 {
        (2 * v) as u32
    } else {
        (-2 * v - 1) as u32
    }
}

pub open spec fn unzigzag32(u: u32) -> i32 {
    if u % 2 == 0 {
        (u / 2) as i32
    } else {
        (-((u / 2) as int) - 1) as i32
    }
}

/// Zigzag decoding undoes zigzag encoding.
pub proof fn lemma_zigzag64(v: i64)
    ensures
        unzigzag64(zigzag64(v)) == v,
{
}

/// Zigzag decoding undoes zigzag encoding.
pub proof fn lemma_zigzag32(v: i32)
    ensures
        unzigzag32(zigzag32(v)) == v,
{
}

pub fn encode_zigzag64(v: i64) -> (r: u64)
    ensures
        r == zigzag64(v),
        unzigzag64(r) == v,
{
    if v >= 0 {
        (v as u64) * 2
    } else {
        ((-(v + 1)) as u64) * 2 + 1
    }
}

pub fn decode_zigzag64(u: u64) -> (r: i64)
    ensures
        r == unzigzag64(u),
{
    if u % 2 == 0 {
        (u / 2) as i64
    } else {
        -((u / 2) as i64) - 1
    }
}

pub fn encode_zigzag32(v: i32) -> (r: u32)
    ensures
        r == zigzag32(v),
        unzigzag32(r) == v,
{
    if v >= 0 {
        (v as u32) * 2
    } else {
        ((-(v + 1)) as u32) * 2 + 1
    }
}

pub fn decode_zigzag32(u: u32) -> (r: i32)
    ensures
        r == unzigzag32(u),
{
    if u % 2 == 0 {
        (u / 2) as i32
    } else {
        -((u / 2) as i32) - 1
    }
}


/// A tagged field of a message, as it stands on the wire.
pub ghost enum FieldModel {
    Varint(u64, u64),
    Delimited(u64, Seq<u8>),
    Fixed(u64),
}

/// Reads one field from the front of `s`: its key (field number and wire
/// type), then a varint, a length-delimited byte string, or eight or four
/// fixed bytes. Field number zero and other wire types are refused.
pub open spec fn parse_field(s: Seq<u8>) -> Option<(FieldModel, nat)> {
    match parse_varint(s) {
        None => None,
        Some((key, n)) => {
            let num = key / 8;
            let wt = key % 8;
            let t = s.subrange(n as int, s.len() as int);
            if num == 0 {
                None
            } else if wt == 0 {
                match parse_varint(t) {
                    None => None,
                    Some((v, m)) => Some((FieldModel::Varint(num, v), (n + m) as nat)),
                }
            } else if wt == 2 {
                match parse_varint(t) {
                    None => None,
                    Some((l, m)) => if m + l <= t.len() {
                        Some(
                            (
                                FieldModel::Delimited(num, t.subrange(m as int, m + l)),
                                (n + m + l) as nat,
                            ),
                        )
                    } else {
                        None
                    },
                }
            } else if wt == 1 && t.len() >= 8 {
                Some((FieldModel::Fixed(num), (n + 8) as nat))
            } else if wt == 5 && t.len() >= 4 {
                Some((FieldModel::Fixed(num), (n + 4) as nat))
            } else {
                None
            }
        },
    }
}

/// The fields of a whole message, in the order they stand.
pub open spec fn parse_fields(s: Seq<u8>) -> Option<Seq<FieldModel>>
    decreases s.len(),
{
    if s.len() == 0 {
        Some(Seq::empty())
    } else {
        match parse_field(s) {
            None => None,
            Some((f, n)) => if 0 < n <= s.len() {
                match parse_fields(s.subrange(n as int, s.len() as int)) {
                    None => None,
                    Some(rest) => Some(seq![f] + rest),
                }
            } else {
                None
            },
        }
    }
}

/// The payload of a field, by position in the message it was read from.
pub enum WireValue {
    Varint(u64),
    Delimited(usize, usize),
    Fixed,
}

pub struct Field {
    pub number: u64,
    pub value: WireValue,
}

pub open spec fn field_in(s: Seq<u8>, f: Field) -> FieldModel {
    match f.value {
        WireValue::Varint(v) => FieldModel::Varint(f.number, v),
        WireValue::Delimited(a, b) => FieldModel::Delimited(f.number, s.subrange(a as int, b as int)),
        WireValue::Fixed => FieldModel::Fixed(f.number),
    }
}

pub open spec fn field_fits(s: Seq<u8>, f: Field) -> bool {
    match f.value {
        WireValue::Delimited(a, b) => a <= b <= s.len(),
        _ => true,
    }
}

fn read_field(s: &[u8], pos: usize) -> (r: Option<(Field, usize)>)
    requires
        pos <= s@.len(),
    ensures
        match parse_field(s@.subrange(pos as int, s@.len() as int)) {
            None => r is None,
            Some((fm, n)) => r matches Some((f, next)) && field_in(s@, f) == fm && field_fits(
                s@,
                f,
            ) && next == pos + n,
        },
{
    let ghost t0 = s@.subrange(pos as int, s@.len() as int);
    let (key, p) = match read_varint(s, pos) {
        None => return None,
        Some(kp) => kp,
    };
    let ghost n = (p - pos) as nat;
    assert(t0.subrange(n as int, t0.len() as int) =~= s@.subrange(p as int, s@.len() as int));
    let num = key / 8;
    let wt = key % 8;
    if num == 0 {
        None
    } else if wt == 0 {
        match read_varint(s, p) {
            None => None,
            Some((v, q)) => Some((Field { number: num, value: WireValue::Varint(v) }, q)),
        }
    } else if wt == 2 {
        match read_varint(s, p) {
            None => None,
            Some((l, q)) => {
                if l <= (s.len() - q) as u64 {
                    let end = q + l as usize;
                    let ghost t = s@.subrange(p as int, s@.len() as int);
                    let ghost m = q - p;
                    assert(t.subrange(m as int, m + l) =~= s@.subrange(q as int, end as int));
                    Some((Field { number: num, value: WireValue::Delimited(q, end) }, end))
                } else {
                    None
                }
            },
        }
    } else if wt == 1 && s.len() - p >= 8 {
        Some((Field { number: num, value: WireValue::Fixed }, p + 8))
    } else if wt == 5 && s.len() - p >= 4 {
        Some((Field { number: num, value: WireValue::Fixed }, p + 4))
    } else {
        None
    }
}

pub open spec fn fields_in(s: Seq<u8>, fs: Seq<Field>) -> Seq<FieldModel> {
    fs.map_values(|f: Field| field_in(s, f))
}

/// Splits a whole message into its fields; `None` where the bytes are no
/// sequence of well-formed fields.
pub fn read_fields(s: &[u8]) -> (r: Option<Vec<Field>>)
    ensures
        match parse_fields(s@) {
            None => r is None,
            Some(fms) => r matches Some(fs) && fields_in(s@, fs@) == fms && forall|i: int|
                0 <= i < fs@.len() ==> field_fits(s@, #[trigger] fs@[i]),
        },
{
    let mut fields: Vec<Field> = Vec::new();
    let mut pos: usize = 0;
    assert(s@.subrange(0, s@.len() as int) =~= s@);
    while pos < s.len()
        invariant
            pos <= s@.len(),
            forall|i: int| 0 <= i < fields@.len() ==> field_fits(s@, #[trigger] fields@[i]),
            parse_fields(s@) == match parse_fields(s@.subrange(pos as int, s@.len() as int)) {
                None => None,
                Some(rest) => Some(fields_in(s@, fields@) + rest),
            },
        decreases s@.len() - pos,
    {
        let ghost t = s@.subrange(pos as int, s@.len() as int);
        match read_field(s, pos) {
            None => return None,
            Some((f, next)) => {
                proof {
                    lemma_parse_varint_positive(t);
                    assert(t.subrange(next - pos, t.len() as int) =~= s@.subrange(
                        next as int,
                        s@.len() as int,
                    ));
                }
                let ghost old_fields = fields@;
                fields.push(f);
                proof {
                    assert(fields_in(s@, fields@) =~= fields_in(s@, old_fields) + seq![field_in(s@, f)]);
                    match parse_fields(s@.subrange(next as int, s@.len() as int)) {
                        None => {},
                        Some(rest) => {
                            assert(fields_in(s@, fields@) + rest =~= fields_in(s@, old_fields) + (
                            seq![field_in(s@, f)] + rest));
                        },
                    }
                }
                pos = next;
            },
        }
    }
    assert(fields_in(s@, fields@) + Seq::<FieldModel>::empty() =~= fields_in(s@, fields@));
    Some(fields)
}

proof fn lemma_parse_varint_within_positive(s: Seq<u8>, budget: nat)
    ensures
        match parse_varint_within(s, budget) {
            Some((v, n)) => 1 <= n <= s.len(),
            None => true,
        },
    decreases budget,
{
    if budget > 0 && s.len() > 0 && s[0] >= 128 {
        lemma_parse_varint_within_positive(s.drop_first(), (budget - 1) as nat);
    }
}

proof fn lemma_parse_varint_positive(s: Seq<u8>)
    ensures
        match parse_varint(s) {
            Some((v, n)) => 1 <= n <= s.len(),
            None => true,
        },
        match parse_field(s) {
            Some((f, n)) => 1 <= n <= s.len(),
            None => true,
        },
{
    lemma_parse_varint_within_positive(s, 10);
    if let Some((key, n)) = parse_varint(s) {
        let t = s.subrange(n as int, s.len() as int);
        lemma_parse_varint_within_positive(t, 10);
    }
}


/// Appends `b` to `out`.
pub fn append_bytes(out: &mut Vec<u8>, b: &[u8])
    ensures
        final(out)@ == old(out)@ + b@,
{
    let mut i: usize = 0;
    while i < b.len()
        invariant
            i <= b@.len(),
            out@ == old(out)@ + b@.subrange(0, i as int),
        decreases b@.len() - i,
    {
        out.push(b[i]);
        assert(b@.subrange(0, i + 1) =~= b@.subrange(0, i as int) + seq![b@[i as int]]);
        i = i + 1;
    }
    assert(b@.subrange(0, i as int) =~= b@);
}

/// A copy of the bytes of `s` from `a` up to `b`.
pub fn copy_range(s: &[u8], a: usize, b: usize) -> (r: Vec<u8>)
    requires
        a <= b <= s@.len(),
    ensures
        r@ == s@.subrange(a as int, b as int),
{
    let mut r: Vec<u8> = Vec::new();
    let mut i: usize = a;
    while i < b
        invariant
            a <= i <= b <= s@.len(),
            r@ == s@.subrange(a as int, i as int),
        decreases b - i,
    {
        r.push(s[i]);
        assert(s@.subrange(a as int, i + 1) =~= s@.subrange(a as int, i as int) + seq![s@[i as int]]);
        i = i + 1;
    }
    r
}

/// The largest field number this library writes.
pub const MAX_FIELD_NUMBER: u64 = 536870911;

/// A field that carries a varint.
pub open spec fn varint_field(num: u64, v: u64) -> Seq<u8> {
    varint((num * 8) as u64) + varint(v)
}

/// A field that carries a length-delimited byte string.
pub open spec fn delimited_field(num: u64, b: Seq<u8>) -> Seq<u8> {
    varint((num * 8 + 2) as u64) + varint(b.len() as u64) + b
}

/// Appends a varint field to `out`.
pub fn write_varint_field(out: &mut Vec<u8>, num: u64, v: u64)
    requires
        1 <= num <= MAX_FIELD_NUMBER,
    ensures
        final(out)@ == old(out)@ + varint_field(num, v),
{
    write_varint(out, num * 8);
    write_varint(out, v);
    assert(out@ =~= old(out)@ + varint_field(num, v));
}

/// Appends a length-delimited field to `out`.
pub fn write_delimited_field(out: &mut Vec<u8>, num: u64, b: &[u8])
    requires
        1 <= num <= MAX_FIELD_NUMBER,
    ensures
        final(out)@ == old(out)@ + delimited_field(num, b@),
{
    write_varint(out, num * 8 + 2);
    write_varint(out, b.len() as u64);
    append_bytes(out, b);
    assert(out@ =~= old(out)@ + delimited_field(num, b@));
}

/// A delimited field reads back as itself, whatever follows it.
pub proof fn lemma_parse_delimited_field(num: u64, b: Seq<u8>, rest: Seq<u8>)
    requires
        1 <= num <= MAX_FIELD_NUMBER,
        b.len() <= u64::MAX,
    ensures
        parse_fields(delimited_field(num, b) + rest) == match parse_fields(rest) {
            None => None,
            Some(fs) => Some(seq![FieldModel::Delimited(num, b)] + fs),
        },
{
    let key = (num * 8 + 2) as u64;
    let s = delimited_field(num, b) + rest;
    let t = varint(b.len() as u64) + b + rest;
    lemma_parse_varint(key, t);
    assert(s =~= varint(key) + t);
    let n = varint(key).len();
    assert(s.subrange(n as int, s.len() as int) =~= t);
    lemma_parse_varint(b.len() as u64, b + rest);
    assert(t =~= varint(b.len() as u64) + (b + rest));
    let m = varint(b.len() as u64).len();
    assert(t.subrange(m as int, (m + b.len()) as int) =~= b);
    assert(key / 8 == num && key % 8 == 2);
    assert(s.subrange(delimited_field(num, b).len() as int, s.len() as int) =~= rest);
}

/// A varint field reads back as itself, whatever follows it.
pub proof fn lemma_parse_varint_field(num: u64, v: u64, rest: Seq<u8>)
    requires
        1 <= num <= MAX_FIELD_NUMBER,
    ensures
        parse_fields(varint_field(num, v) + rest) == match parse_fields(rest) {
            None => None,
            Some(fs) => Some(seq![FieldModel::Varint(num, v)] + fs),
        },
{
    let key = (num * 8) as u64;
    let s = varint_field(num, v) + rest;
    let t = varint(v) + rest;
    lemma_parse_varint(key, t);
    assert(s =~= varint(key) + t);
    let n = varint(key).len();
    assert(s.subrange(n as int, s.len() as int) =~= t);
    lemma_parse_varint(v, rest);
    assert(key / 8 == num && key % 8 == 0);
    assert(s.subrange(varint_field(num, v).len() as int, s.len() as int) =~= rest);
}


/// The `n` low bytes of `x`, least significant first.
pub open spec fn le_bytes(x: nat, n: nat) -> Seq<u8>
    decreases n,
{
    if n == 0 {
        Seq::empty()
    } else {
        seq![(x % 256) as u8] + le_bytes(x / 256, (n - 1) as nat)
    }
}

/// The number that little-endian bytes spell.
pub open spec fn le_value(s: Seq<u8>) -> nat
    decreases s.len(),
{
    if s.len() == 0 {
        0
    } else {
        (s[0] + 256 * le_value(s.subrange(1, s.len() as int))) as nat
    }
}

pub open spec fn pow256(n: nat) -> nat
    decreases n,
{
    if n == 0 {
        1
    } else {
        256 * pow256((n - 1) as nat)
    }
}

/// Reading back `n` little-endian bytes gives the number, where it fits.
pub proof fn lemma_le_round_trip(x: nat, n: nat)
    requires
        x < pow256(n),
    ensures
        le_bytes(x, n).len() == n,
        le_value(le_bytes(x, n)) == x,
    decreases n,
{
    if n > 0 {
        let p = pow256((n - 1) as nat);
        assert(x / 256 < p) by (nonlinear_arith)
            requires
                x < 256 * p,
        ;
        lemma_le_round_trip(x / 256, (n - 1) as nat);
        let s = le_bytes(x, n);
        assert(s.subrange(1, s.len() as int) =~= le_bytes(x / 256, (n - 1) as nat));
    }
}

pub proof fn lemma_le_value_bound(s: Seq<u8>)
    ensures
        le_value(s) < pow256(s.len()),
    decreases s.len(),
{
    if s.len() > 0 {
        let t = s.subrange(1, s.len() as int);
        lemma_le_value_bound(t);
        let v = le_value(t);
        let p = pow256(t.len());
        assert(s[0] + 256 * v < 256 * p) by (nonlinear_arith)
            requires
                v < p,
                s[0] < 256,
        ;
    }
}

pub proof fn lemma_pow256_facts()
    ensures
        pow256(4) == 0x1_0000_0000,
        pow256(8) == 0x1_0000_0000_0000_0000,
{
    reveal_with_fuel(pow256, 9);
}

/// Appends the `n` low bytes of `x`, least significant first.
pub fn write_le(out: &mut Vec<u8>, x: u64, n: usize)
    requires
        n <= 8,
    ensures
        final(out)@ == old(out)@ + le_bytes(x as nat, n as nat),
{
    let mut cur: u64 = x;
    let mut k: usize = n;
    assert(old(out)@ + le_bytes(x as nat, n as nat) =~= out@ + le_bytes(cur as nat, k as nat));
    while k > 0
        invariant
            old(out)@ + le_bytes(x as nat, n as nat) == out@ + le_bytes(cur as nat, k as nat),
        decreases k,
    {
        let ghost pre = out@;
        out.push((cur % 256) as u8);
        assert(pre + le_bytes(cur as nat, k as nat) =~= out@ + le_bytes(
            (cur / 256) as nat,
            (k - 1) as nat,
        ));
        cur = cur / 256;
        k = k - 1;
    }
    assert(out@ =~= old(out)@ + le_bytes(x as nat, n as nat));
}

/// The number that the whole of `b` spells, little-endian; `b` is at most
/// eight bytes long.
pub fn read_le(b: &[u8]) -> (r: u64)
    requires
        b@.len() <= 8,
    ensures
        r == le_value(b@),
{
    proof {
        lemma_le_value_bound(b@);
        lemma_pow256_facts();
        reveal_with_fuel(pow256, 9);
    }
    let n = b.len();
    let mut acc: u64 = 0;
    let mut i: usize = n;
    assert(b@.subrange(n as int, n as int) =~= Seq::<u8>::empty());
    while i > 0
        invariant
            n == b@.len() <= 8,
            i <= n,
            acc == le_value(b@.subrange(i as int, n as int)),
            le_value(b@.subrange(i as int, n as int)) < pow256((n - i) as nat),
        decreases i,
    {
        let ghost t = b@.subrange(i - 1, n as int);
        assert(t.subrange(1, t.len() as int) =~= b@.subrange(i as int, n as int));
        proof {
            lemma_le_value_bound(t);
            assert(pow256((n - i + 1) as nat) <= pow256(8)) by {
                lemma_pow256_mono((n - i + 1) as nat, 8);
            }
            assert(t[0] == b@[i - 1]);
            assert(le_value(t) == b@[i - 1] + 256 * acc);
            assert(t.len() == n - i + 1);
            lemma_pow256_facts();
            assert(le_value(t) < 0x1_0000_0000_0000_0000);
        }
        acc = (b[i - 1] as u64) + 256 * acc;
        i = i - 1;
    }
    assert(b@.subrange(0, n as int) =~= b@);
    acc
}

proof fn lemma_pow256_mono(a: nat, b: nat)
    requires
        a <= b,
    ensures
        pow256(a) <= pow256(b),
    decreases b,
{
    if a < b {
        lemma_pow256_mono(a, (b - 1) as nat);
    }
}


/// A message as it goes on the wire: its length as a varint, then its bytes.
pub fn frame_message(msg: &[u8]) -> (r: Vec<u8>)
    ensures
        r@ == varint(msg@.len() as u64) + msg@,
{
    let mut out: Vec<u8> = Vec::new();
    write_varint(&mut out, msg.len() as u64);
    append_bytes(&mut out, msg);
    assert(out@ =~= varint(msg@.len() as u64) + msg@);
    out
}

} // verus!
