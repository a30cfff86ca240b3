//! The binary wire format of a [`Status`] record, and its framing in a byte
//! stream.
//!
//! A record is one CBOR data item: a map of at most five entries whose keys
//! are text strings naming the fields. `sourceId` holds the 16 bytes of the
//! identifier as a byte string, `timestamp` an unsigned integer of seconds
//! since the UNIX epoch, `position` a map of the two floats `x` and `y`, and
//! `bearing` and `speed` one float each. Floats may come in half, single or
//! double precision. Unknown or repeated keys, a missing `sourceId` or
//! `timestamp`, and indefinite-length items are rejected.
//!
//! Every item is self-delimiting, so the decoder tells bytes that cannot
//! start a record apart from a record that has not fully arrived yet.

use vstd::prelude::*;
use crate::data::{Coord, Real, SourceId, Status};

verus! {

/// What a parser makes of the bytes at a position (specification).
pub enum Parsed<T> {
    /// A value, and the position just after it.
    Done(T, int),
    /// The bytes end before the item does.
    Incomplete,
    /// The bytes cannot begin such an item, whatever follows them.
    Invalid,
}

/// What a reader made of the bytes at a position.
#[derive(Debug)]
pub enum Step<T> {
    /// A value, and the position just after it.
    Done(T, usize),
    /// The bytes end before the item does.
    Incomplete,
    /// The bytes cannot begin such an item, whatever follows them.
    Invalid,
}

/// The reader's outcome `r` is the parser's outcome `g`.
pub open spec fn agrees<T>(r: Step<T>, g: Parsed<T>) -> bool {
    match r {
        Step::Done(v, n) => g == Parsed::Done(v, n as int),
        Step::Incomplete => g is Incomplete,
        Step::Invalid => g is Invalid,
    }
}

/// The head of a CBOR item: its major type, its additional information and
/// the argument that these give.
#[derive(Clone, Copy, Debug, PartialEq, Eq, Structural)]
pub struct Head {
    pub major: u8,
    pub info: u8,
    pub arg: u64,
}

/// The unsigned big-endian number held in `n` bytes from position `p`.
pub open spec fn be(s: Seq<u8>, p: int, n: nat) -> nat
    decreases n,
{
    if n == 0 {
        0
    } else {
        be(s, p, (n - 1) as nat) * 256 + s[p + n - 1] as nat
    }
}

pub open spec fn pow256(n: nat) -> nat
    decreases n,
{
    if n == 0 {
        1
    } else {
        256 * pow256((n - 1) as nat)
    }
}

/// The number of argument bytes that follow an initial byte whose additional
/// information is `info` (for 24 to 27).
pub open spec fn arg_width(info: int) -> nat {
    if info == 24 {
        1
    } else if info == 25 {
        2
    } else if info == 26 {
        4
    } else {
        8
    }
}

pub open spec fn parse_head(s: Seq<u8>, p: int) -> Parsed<Head> {
    if p < 0 || p >= s.len() {
        Parsed::Incomplete
    } else {
        let major = s[p] / 32;
        let info = s[p] % 32;
        if info < 24 {
            Parsed::Done(Head { major: major as u8, info: info as u8, arg: info as u64 }, p + 1)
        } else if info < 28 {
            let n = arg_width(info as int);
            if p + 1 + n <= s.len() {
                Parsed::Done(
                    Head { major: major as u8, info: info as u8, arg: be(s, p + 1, n) as u64 },
                    p + 1 + n,
                )
            } else {
                Parsed::Incomplete
            }
        } else {
            Parsed::Invalid
        }
    }
}

/// The definite-length text string at `p`, as its bytes.
pub open spec fn parse_text(s: Seq<u8>, p: int) -> Parsed<Seq<u8>> {
    match parse_head(s, p) {
        Parsed::Done(h, q) => {
            if h.major != 3 {
                Parsed::Invalid
            } else if q + h.arg <= s.len() {
                Parsed::Done(s.subrange(q, q + h.arg), q + h.arg)
            } else {
                Parsed::Incomplete
            }
        },
        Parsed::Incomplete => Parsed::Incomplete,
        Parsed::Invalid => Parsed::Invalid,
    }
}

/// The fields of a record, by their keys.
#[derive(Clone, Copy, Debug, PartialEq, Eq, Structural)]
pub enum Field {
    SourceId,
    Timestamp,
    Position,
    Bearing,
    Speed,
}

/// The UTF-8 bytes of the key of each field.
pub open spec fn field_name(f: Field) -> Seq<u8> {
    match f {
        // "sourceId"
        Field::SourceId => seq![115u8, 111, 117, 114, 99, 101, 73, 100],
        // "timestamp"
        Field::Timestamp => seq![116u8, 105, 109, 101, 115, 116, 97, 109, 112],
        // "position"
        Field::Position => seq![112u8, 111, 115, 105, 116, 105, 111, 110],
        // "bearing"
        Field::Bearing => seq![98u8, 101, 97, 114, 105, 110, 103],
        // "speed"
        Field::Speed => seq![115u8, 112, 101, 101, 100],
    }
}

pub open spec fn field_named(t: Seq<u8>) -> Option<Field> {
    if t == field_name(Field::SourceId) {
        Some(Field::SourceId)
    } else if t == field_name(Field::Timestamp) {
        Some(Field::Timestamp)
    } else if t == field_name(Field::Position) {
        Some(Field::Position)
    } else if t == field_name(Field::Bearing) {
        Some(Field::Bearing)
    } else if t == field_name(Field::Speed) {
        Some(Field::Speed)
    } else {
        None
    }
}

/// The key at `p`, which must name a field.
pub open spec fn parse_key(s: Seq<u8>, p: int) -> Parsed<Field> {
    match parse_text(s, p) {
        Parsed::Done(t, q) => match field_named(t) {
            Some(f) => Parsed::Done(f, q),
            None => Parsed::Invalid,
        },
        Parsed::Incomplete => Parsed::Incomplete,
        Parsed::Invalid => Parsed::Invalid,
    }
}

/// The key of a coordinate at `p`: `true` for `x`, `false` for `y`.
pub open spec fn parse_axis(s: Seq<u8>, p: int) -> Parsed<bool> {
    match parse_text(s, p) {
        Parsed::Done(t, q) => {
            if t == seq![120u8] {
                Parsed::Done(true, q)
            } else if t == seq![121u8] {
                Parsed::Done(false, q)
            } else {
                Parsed::Invalid
            }
        },
        Parsed::Incomplete => Parsed::Incomplete,
        Parsed::Invalid => Parsed::Invalid,
    }
}

/// The mantissa `m` shifted left until it reaches `unit`, and the number of
/// shifts taken.
pub open spec fn normalize(m: int, unit: int) -> (int, int)
    decreases (if m < unit { unit - m } else { 0 }),
{
    if m <= 0 || m >= unit {
        (m, 0)
    } else {
        let (v, k) = normalize(2 * m, unit);
        (v, k + 1)
    }
}

/// A NaN mantissa of `m` with its quiet bit `quiet` set.
pub open spec fn quieted(m: int, quiet: int) -> int {
    if m >= quiet {
        m
    } else {
        m + quiet
    }
}

pub open spec fn sign_bit() -> int {
    0x8000_0000_0000_0000
}

/// The weight of the lowest exponent bit of a binary64 pattern.
pub open spec fn exp_unit() -> int {
    0x10_0000_0000_0000
}

/// The binary64 bit pattern of the value whose binary16 bit pattern is `h`.
/// NaN payloads are kept and made quiet.
#[verifier::opaque]
pub open spec fn half_to_double(h: int) -> int {
    let s = (h / 0x8000) * sign_bit();
    let e = (h / 0x400) % 0x20;
    let m = h % 0x400;
    if e == 0 {
        if m == 0 {
            s
        } else {
            let (v, k) = normalize(m, 0x400);
            s + (1009 - k) * exp_unit() + (v - 0x400) * 0x400_0000_0000
        }
    } else if e == 0x1f {
        if m == 0 {
            s + 0x7ff * exp_unit()
        } else {
            s + 0x7ff * exp_unit() + quieted(m, 0x200) * 0x400_0000_0000
        }
    } else {
        s + (e + 1008) * exp_unit() + m * 0x400_0000_0000
    }
}

/// The binary64 bit pattern of the value whose binary32 bit pattern is `f`.
/// NaN payloads are kept and made quiet.
#[verifier::opaque]
pub open spec fn single_to_double(f: int) -> int {
    let s = (f / 0x8000_0000) * sign_bit();
    let e = (f / 0x80_0000) % 0x100;
    let m = f % 0x80_0000;
    if e == 0 {
        if m == 0 {
            s
        } else {
            let (v, k) = normalize(m, 0x80_0000);
            s + (897 - k) * exp_unit() + (v - 0x80_0000) * 0x2000_0000
        }
    } else if e == 0xff {
        if m == 0 {
            s + 0x7ff * exp_unit()
        } else {
            s + 0x7ff * exp_unit() + quieted(m, 0x40_0000) * 0x2000_0000
        }
    } else {
        s + (e + 896) * exp_unit() + m * 0x2000_0000
    }
}

/// The binary64 bit pattern of a float item whose head is `h`.
pub open spec fn float_bits(h: Head) -> u64 {
    if h.info == 25 {
        half_to_double(h.arg as int) as u64
    } else if h.info == 26 {
        single_to_double(h.arg as int) as u64
    } else {
        h.arg
    }
}

/// The float at `p`, in half, single or double precision.
pub open spec fn parse_real(s: Seq<u8>, p: int) -> Parsed<Real> {
    match parse_head(s, p) {
        Parsed::Done(h, q) => {
            if h.major == 7 && 25 <= h.info <= 27 {
                Parsed::Done(Real { bits: float_bits(h) }, q)
            } else {
                Parsed::Invalid
            }
        },
        Parsed::Incomplete => Parsed::Incomplete,
        Parsed::Invalid => Parsed::Invalid,
    }
}

/// One entry of a coordinate map: which axis, and its value.
pub open spec fn parse_axis_entry(s: Seq<u8>, p: int) -> Parsed<(bool, Real)> {
    match parse_axis(s, p) {
        Parsed::Done(a, q) => match parse_real(s, q) {
            Parsed::Done(v, r) => Parsed::Done((a, v), r),
            Parsed::Incomplete => Parsed::Incomplete,
            Parsed::Invalid => Parsed::Invalid,
        },
        Parsed::Incomplete => Parsed::Incomplete,
        Parsed::Invalid => Parsed::Invalid,
    }
}

/// The map at `p` of the two entries `x` and `y`, in either order.
pub open spec fn parse_coord(s: Seq<u8>, p: int) -> Parsed<Coord> {
    match parse_head(s, p) {
        Parsed::Done(h, q) => {
            if h.major != 5 || h.arg != 2 {
                Parsed::Invalid
            } else {
                match parse_axis_entry(s, q) {
                    Parsed::Done(e1, q1) => match parse_axis_entry(s, q1) {
                        Parsed::Done(e2, q2) => {
                            if e1.0 == e2.0 {
                                Parsed::Invalid
                            } else if e1.0 {
                                Parsed::Done(Coord { x: e1.1, y: e2.1 }, q2)
                            } else {
                                Parsed::Done(Coord { x: e2.1, y: e1.1 }, q2)
                            }
                        },
                        Parsed::Incomplete => Parsed::Incomplete,
                        Parsed::Invalid => Parsed::Invalid,
                    },
                    Parsed::Incomplete => Parsed::Incomplete,
                    Parsed::Invalid => Parsed::Invalid,
                }
            }
        },
        Parsed::Incomplete => Parsed::Incomplete,
        Parsed::Invalid => Parsed::Invalid,
    }
}

/// The 16-byte identifier at `p`.
pub open spec fn parse_source_id(s: Seq<u8>, p: int) -> Parsed<SourceId> {
    match parse_head(s, p) {
        Parsed::Done(h, q) => {
            if h.major != 2 || h.arg != 16 {
                Parsed::Invalid
            } else if q + 16 <= s.len() {
                Parsed::Done(SourceId(be(s, q, 16) as u128), q + 16)
            } else {
                Parsed::Incomplete
            }
        },
        Parsed::Incomplete => Parsed::Incomplete,
        Parsed::Invalid => Parsed::Invalid,
    }
}

/// The earliest second since the epoch that a timestamp may name:
/// the start of year -9999.
pub const MIN_TIMESTAMP: i64 = -377_705_116_800;

/// The latest second since the epoch that a timestamp may name:
/// the last second of year 9999.
pub const MAX_TIMESTAMP: i64 = 253_402_300_799;

/// The unsigned timestamp at `p`, which must name a representable moment.
pub open spec fn parse_timestamp(s: Seq<u8>, p: int) -> Parsed<i64> {
    match parse_head(s, p) {
        Parsed::Done(h, q) => {
            if h.major != 0 || h.arg > MAX_TIMESTAMP {
                Parsed::Invalid
            } else {
                Parsed::Done(h.arg as i64, q)
            }
        },
        Parsed::Incomplete => Parsed::Incomplete,
        Parsed::Invalid => Parsed::Invalid,
    }
}

/// The fields of a record read so far.
#[derive(Clone, Copy, Debug, PartialEq, Eq, Structural)]
pub struct Fields {
    pub source_id: Option<SourceId>,
    pub timestamp: Option<i64>,
    pub position: Option<Coord>,
    pub bearing: Option<Real>,
    pub speed: Option<Real>,
}

pub open spec fn no_fields() -> Fields {
    Fields { source_id: None, timestamp: None, position: None, bearing: None, speed: None }
}

pub open spec fn has_field(acc: Fields, f: Field) -> bool {
    match f {
        Field::SourceId => acc.source_id is Some,
        Field::Timestamp => acc.timestamp is Some,
        Field::Position => acc.position is Some,
        Field::Bearing => acc.bearing is Some,
        Field::Speed => acc.speed is Some,
    }
}

/// The value of field `f` at `p`, added to `acc`.
pub open spec fn parse_value(s: Seq<u8>, p: int, f: Field, acc: Fields) -> Parsed<Fields> {
    match f {
        Field::SourceId => match parse_source_id(s, p) {
            Parsed::Done(v, q) => Parsed::Done(Fields { source_id: Some(v), ..acc }, q),
            Parsed::Incomplete => Parsed::Incomplete,
            Parsed::Invalid => Parsed::Invalid,
        },
        Field::Timestamp => match parse_timestamp(s, p) {
            Parsed::Done(v, q) => Parsed::Done(Fields { timestamp: Some(v), ..acc }, q),
            Parsed::Incomplete => Parsed::Incomplete,
            Parsed::Invalid => Parsed::Invalid,
        },
        Field::Position => match parse_coord(s, p) {
            Parsed::Done(v, q) => Parsed::Done(Fields { position: Some(v), ..acc }, q),
            Parsed::Incomplete => Parsed::Incomplete,
            Parsed::Invalid => Parsed::Invalid,
        },
        Field::Bearing => match parse_real(s, p) {
            Parsed::Done(v, q) => Parsed::Done(Fields { bearing: Some(v), ..acc }, q),
            Parsed::Incomplete => Parsed::Incomplete,
            Parsed::Invalid => Parsed::Invalid,
        },
        Field::Speed => match parse_real(s, p) {
            Parsed::Done(v, q) => Parsed::Done(Fields { speed: Some(v), ..acc }, q),
            Parsed::Incomplete => Parsed::Incomplete,
            Parsed::Invalid => Parsed::Invalid,
        },
    }
}

/// One entry of a record at `p`: a key not seen before and its value.
#[verifier::opaque]
pub open spec fn parse_entry(s: Seq<u8>, p: int, acc: Fields) -> Parsed<Fields> {
    match parse_key(s, p) {
        Parsed::Done(f, q) => {
            if has_field(acc, f) {
                Parsed::Invalid
            } else {
                parse_value(s, q, f, acc)
            }
        },
        Parsed::Incomplete => Parsed::Incomplete,
        Parsed::Invalid => Parsed::Invalid,
    }
}

/// `n` entries of a record from `p`.
pub open spec fn parse_entries(s: Seq<u8>, p: int, n: nat, acc: Fields) -> Parsed<Fields>
    decreases n,
{
    if n == 0 {
        Parsed::Done(acc, p)
    } else {
        match parse_entry(s, p, acc) {
            Parsed::Done(a, q) => parse_entries(s, q, (n - 1) as nat, a),
            Parsed::Incomplete => Parsed::Incomplete,
            Parsed::Invalid => Parsed::Invalid,
        }
    }
}

/// The record at the start of `s`, and its length in bytes.
pub open spec fn parse_status(s: Seq<u8>) -> Parsed<Status> {
    match parse_head(s, 0) {
        Parsed::Done(h, q) => {
            if h.major != 5 || h.arg > 5 {
                Parsed::Invalid
            } else {
                match parse_entries(s, q, h.arg as nat, no_fields()) {
                    Parsed::Done(a, r) => {
                        if a.source_id is Some && a.timestamp is Some {
                            Parsed::Done(
                                Status {
                                    source_id: a.source_id.unwrap(),
                                    timestamp: a.timestamp.unwrap(),
                                    position: a.position,
                                    bearing: a.bearing,
                                    speed: a.speed,
                                },
                                r,
                            )
                        } else {
                            Parsed::Invalid
                        }
                    },
                    Parsed::Incomplete => Parsed::Incomplete,
                    Parsed::Invalid => Parsed::Invalid,
                }
            }
        },
        Parsed::Incomplete => Parsed::Incomplete,
        Parsed::Invalid => Parsed::Invalid,
    }
}

pub open spec fn two_to(k: nat) -> nat
    decreases k,
{
    if k == 0 {
        1
    } else {
        2 * two_to((k - 1) as nat)
    }
}

proof fn lemma_pow256_mono(a: nat, b: nat)
    requires
        a <= b,
    ensures
        pow256(a) <= pow256(b),
    decreases b,
{
    if a < b {
        lemma_pow256_mono(a, (b - 1) as nat);
    }
}

pub proof fn lemma_two_to_mono(a: nat, b: nat)
    requires
        a <= b,
    ensures
        two_to(a) <= two_to(b),
    decreases b,
{
    if a < b {
        lemma_two_to_mono(a, (b - 1) as nat);
    }
}

/// Reads the unsigned big-endian number in `n` bytes from `p`.
fn read_be(buf: &[u8], p: usize, n: usize) -> (r: u128)
    requires
        p + n <= buf@.len(),
        n <= 16,
    ensures
        r as nat == be(buf@, p as int, n as nat),
        (r as nat) < pow256(n as nat),
{
    proof {
        reveal_with_fuel(pow256, 16);
    }
    assert(pow256(15) == 1329227995784915872903807060280344576);
    let len = buf.len();
    let mut v: u128 = 0;
    let mut i: usize = 0;
    while i < n
        invariant
            i <= n,
            n <= 16,
            p + n <= buf@.len(),
            len == buf@.len(),
            pow256(15) == 1329227995784915872903807060280344576,
            v as nat == be(buf@, p as int, i as nat),
            (v as nat) < pow256(i as nat),
        decreases n - i,
    {
        proof {
            lemma_pow256_mono(i as nat, 15);
        }
        v = v * 256 + buf[p + i] as u128;
        i = i + 1;
    }
    v
}

/// Reads the head of the item at `p`.
pub fn read_head(buf: &[u8], p: usize) -> (r: Step<Head>)
    ensures
        agrees(r, parse_head(buf@, p as int)),
        r matches Step::Done(_, q) ==> q <= buf@.len(),
        r matches Step::Done(h, _) ==> h.info < 28 && (h.info >= 24 ==> (h.arg as nat) < pow256(
            arg_width(h.info as int),
        )),
{
    if p >= buf.len() {
        return Step::Incomplete;
    }
    let b = buf[p];
    let major = b / 32;
    let info = b % 32;
    if info < 24 {
        Step::Done(Head { major, info, arg: info as u64 }, p + 1)
    } else if info < 28 {
        let n: usize = if info == 24 {
            1
        } else if info == 25 {
            2
        } else if info == 26 {
            4
        } else {
            8
        };
        if n <= buf.len() - p - 1 {
            let v = read_be(buf, p + 1, n);
            proof {
                reveal_with_fuel(pow256, 9);
                lemma_pow256_mono(n as nat, 8);
            }
            Step::Done(Head { major, info, arg: v as u64 }, p + 1 + n)
        } else {
            Step::Incomplete
        }
    } else {
        Step::Invalid
    }
}

/// Reads the definite-length text string at `p`, giving where its bytes
/// start and how many there are.
fn read_text(buf: &[u8], p: usize) -> (r: Step<(usize, usize)>)
    ensures
        r matches Step::Done((a, l), q) ==> {
            &&& parse_text(buf@, p as int) == Parsed::Done(
                buf@.subrange(a as int, a + l),
                q as int,
            )
            &&& a + l == q
            &&& q <= buf@.len()
        },
        r is Incomplete ==> parse_text(buf@, p as int) is Incomplete,
        r is Invalid ==> parse_text(buf@, p as int) is Invalid,
{
    match read_head(buf, p) {
        Step::Done(h, q) => {
            if h.major != 3 {
                Step::Invalid
            } else if h.arg as u128 <= (buf.len() - q) as u128 {
                let l = h.arg as usize;
                Step::Done((q, l), q + l)
            } else {
                Step::Incomplete
            }
        },
        Step::Incomplete => Step::Incomplete,
        Step::Invalid => Step::Invalid,
    }
}

/// Whether the `l` bytes from `a` are exactly `name`.
pub(crate) fn span_is(buf: &[u8], a: usize, l: usize, name: &Vec<u8>) -> (r: bool)
    requires
        a + l <= buf@.len(),
    ensures
        r == (buf@.subrange(a as int, a + l) == name@),
{
    if l != name.len() {
        return false;
    }
    let len = buf.len();
    let mut i: usize = 0;
    while i < l
        invariant
            len == buf@.len(),
            i <= l,
            l == name@.len(),
            a + l <= buf@.len(),
            forall|j: int| 0 <= j < i ==> buf@[a + j] == name@[j],
        decreases l - i,
    {
        if buf[a + i] != name[i] {
            assert(buf@.subrange(a as int, a + l)[i as int] != name@[i as int]);
            return false;
        }
        i = i + 1;
    }
    assert(buf@.subrange(a as int, a + l) =~= name@);
    true
}

pub(crate) fn field_name_bytes(f: Field) -> (r: Vec<u8>)
    ensures
        r@ == field_name(f),
{
    let r = match f {
        Field::SourceId => vec![115u8, 111, 117, 114, 99, 101, 73, 100],
        Field::Timestamp => vec![116u8, 105, 109, 101, 115, 116, 97, 109, 112],
        Field::Position => vec![112u8, 111, 115, 105, 116, 105, 111, 110],
        Field::Bearing => vec![98u8, 101, 97, 114, 105, 110, 103],
        Field::Speed => vec![115u8, 112, 101, 101, 100],
    };
    assert(r@ =~= field_name(f));
    r
}

/// Reads the key at `p`, which must name a field.
fn read_key(buf: &[u8], p: usize) -> (r: Step<Field>)
    ensures
        agrees(r, parse_key(buf@, p as int)),
        r matches Step::Done(_, q) ==> q <= buf@.len(),
{
    match read_text(buf, p) {
        Step::Done((a, l), q) => {
            if span_is(buf, a, l, &field_name_bytes(Field::SourceId)) {
                Step::Done(Field::SourceId, q)
            } else if span_is(buf, a, l, &field_name_bytes(Field::Timestamp)) {
                Step::Done(Field::Timestamp, q)
            } else if span_is(buf, a, l, &field_name_bytes(Field::Position)) {
                Step::Done(Field::Position, q)
            } else if span_is(buf, a, l, &field_name_bytes(Field::Bearing)) {
                Step::Done(Field::Bearing, q)
            } else if span_is(buf, a, l, &field_name_bytes(Field::Speed)) {
                Step::Done(Field::Speed, q)
            } else {
                Step::Invalid
            }
        },
        Step::Incomplete => Step::Incomplete,
        Step::Invalid => Step::Invalid,
    }
}

/// Reads the key of a coordinate at `p`: `true` for `x`, `false` for `y`.
fn read_axis(buf: &[u8], p: usize) -> (r: Step<bool>)
    ensures
        agrees(r, parse_axis(buf@, p as int)),
        r matches Step::Done(_, q) ==> q <= buf@.len(),
{
    match read_text(buf, p) {
        Step::Done((a, l), q) => {
            let x = vec![120u8];
            let y = vec![121u8];
            assert(x@ =~= seq![120u8]);
            assert(y@ =~= seq![121u8]);
            if span_is(buf, a, l, &x) {
                Step::Done(true, q)
            } else if span_is(buf, a, l, &y) {
                Step::Done(false, q)
            } else {
                Step::Invalid
            }
        },
        Step::Incomplete => Step::Incomplete,
        Step::Invalid => Step::Invalid,
    }
}

/// Shifts the mantissa `m` left until it reaches `unit`, counting the shifts.
fn normalize_mantissa(m: u64, unit: u64, Ghost(b): Ghost<nat>) -> (r: (u64, u64))
    requires
        0 < m < unit,
        unit == two_to(b),
        b <= 23,
    ensures
        (r.0 as int, r.1 as int) == normalize(m as int, unit as int),
        unit <= r.0 < 2 * unit,
        r.1 <= b,
{
    proof {
        reveal_with_fuel(two_to, 24);
        lemma_two_to_mono(b, 23);
    }
    let mut v = m;
    let mut k: u64 = 0;
    while v < unit
        invariant
            0 < v < 2 * unit,
            unit == two_to(b),
            unit <= 0x80_0000,
            b <= 23,
            two_to(k as nat) <= v,
            v < unit ==> k < b,
            k <= b,
            normalize(m as int, unit as int) == (
                normalize(v as int, unit as int).0,
                normalize(v as int, unit as int).1 + k,
            ),
        decreases b - k,
    {
        proof {
            if k + 1 >= b {
                lemma_two_to_mono(b, (k + 1) as nat);
            }
        }
        v = 2 * v;
        k = k + 1;
    }
    (v, k)
}

/// The binary64 bit pattern of the value whose binary16 bit pattern is `h`.
pub(crate) fn widen_half(h: u64) -> (r: u64)
    requires
        h < 0x1_0000,
    ensures
        r as int == half_to_double(h as int),
{
    reveal(half_to_double);
    let s = (h / 0x8000) * 0x8000_0000_0000_0000;
    let e = (h / 0x400) % 0x20;
    let m = h % 0x400;
    if e == 0 {
        if m == 0 {
            s
        } else {
            proof {
                reveal_with_fuel(two_to, 11);
            }
            let (v, k) = normalize_mantissa(m, 0x400, Ghost(10));
            s + (1009 - k) * 0x10_0000_0000_0000 + (v - 0x400) * 0x400_0000_0000
        }
    } else if e == 0x1f {
        let q = if m >= 0x200 {
            m
        } else {
            m + 0x200
        };
        if m == 0 {
            s + 0x7ff * 0x10_0000_0000_0000
        } else {
            s + 0x7ff * 0x10_0000_0000_0000 + q * 0x400_0000_0000
        }
    } else {
        s + (e + 1008) * 0x10_0000_0000_0000 + m * 0x400_0000_0000
    }
}

/// The binary64 bit pattern of the value whose binary32 bit pattern is `f`.
pub(crate) fn widen_single(f: u64) -> (r: u64)
    requires
        f < 0x1_0000_0000,
    ensures
        r as int == single_to_double(f as int),
{
    reveal(single_to_double);
    let s = (f / 0x8000_0000) * 0x8000_0000_0000_0000;
    let e = (f / 0x80_0000) % 0x100;
    let m = f % 0x80_0000;
    if e == 0 {
        if m == 0 {
            s
        } else {
            proof {
                reveal_with_fuel(two_to, 24);
            }
            let (v, k) = normalize_mantissa(m, 0x80_0000, Ghost(23));
            s + (897 - k) * 0x10_0000_0000_0000 + (v - 0x80_0000) * 0x2000_0000
        }
    } else if e == 0xff {
        let q = if m >= 0x40_0000 {
            m
        } else {
            m + 0x40_0000
        };
        if m == 0 {
            s + 0x7ff * 0x10_0000_0000_0000
        } else {
            s + 0x7ff * 0x10_0000_0000_0000 + q * 0x2000_0000
        }
    } else {
        s + (e + 896) * 0x10_0000_0000_0000 + m * 0x2000_0000
    }
}

/// Relies on `time::OffsetDateTime::from_unix_timestamp`: it accepts exactly
/// the seconds from the start of year -9999 to the end of year 9999.
#[verifier::external_body]
fn timestamp_representable(secs: i64) -> (r: bool)
    ensures
        r == (MIN_TIMESTAMP <= secs <= MAX_TIMESTAMP),
{
    time::OffsetDateTime::from_unix_timestamp(secs).is_ok()
}

/// Reads the float at `p`.
fn read_real(buf: &[u8], p: usize) -> (r: Step<Real>)
    ensures
        agrees(r, parse_real(buf@, p as int)),
        r matches Step::Done(_, q) ==> q <= buf@.len(),
{
    match read_head(buf, p) {
        Step::Done(h, q) => {
            if h.major == 7 && 25 <= h.info && h.info <= 27 {
                proof {
                    reveal_with_fuel(pow256, 9);
                }
                let bits = if h.info == 25 {
                    widen_half(h.arg)
                } else if h.info == 26 {
                    widen_single(h.arg)
                } else {
                    h.arg
                };
                Step::Done(Real { bits }, q)
            } else {
                Step::Invalid
            }
        },
        Step::Incomplete => Step::Incomplete,
        Step::Invalid => Step::Invalid,
    }
}

fn read_axis_entry(buf: &[u8], p: usize) -> (r: Step<(bool, Real)>)
    ensures
        agrees(r, parse_axis_entry(buf@, p as int)),
        r matches Step::Done(_, q) ==> q <= buf@.len(),
{
    match read_axis(buf, p) {
        Step::Done(a, q) => match read_real(buf, q) {
            Step::Done(v, r) => Step::Done((a, v), r),
            Step::Incomplete => Step::Incomplete,
            Step::Invalid => Step::Invalid,
        },
        Step::Incomplete => Step::Incomplete,
        Step::Invalid => Step::Invalid,
    }
}

/// Reads the coordinate map at `p`.
fn read_coord(buf: &[u8], p: usize) -> (r: Step<Coord>)
    ensures
        agrees(r, parse_coord(buf@, p as int)),
        r matches Step::Done(_, q) ==> q <= buf@.len(),
{
    match read_head(buf, p) {
        Step::Done(h, q) => {
            if h.major != 5 || h.arg != 2 {
                return Step::Invalid;
            }
            match read_axis_entry(buf, q) {
                Step::Done(e1, q1) => match read_axis_entry(buf, q1) {
                    Step::Done(e2, q2) => {
                        if e1.0 == e2.0 {
                            Step::Invalid
                        } else if e1.0 {
                            Step::Done(Coord { x: e1.1, y: e2.1 }, q2)
                        } else {
                            Step::Done(Coord { x: e2.1, y: e1.1 }, q2)
                        }
                    },
                    Step::Incomplete => Step::Incomplete,
                    Step::Invalid => Step::Invalid,
                },
                Step::Incomplete => Step::Incomplete,
                Step::Invalid => Step::Invalid,
            }
        },
        Step::Incomplete => Step::Incomplete,
        Step::Invalid => Step::Invalid,
    }
}

/// Reads the 16-byte identifier at `p`.
fn read_source_id(buf: &[u8], p: usize) -> (r: Step<SourceId>)
    ensures
        agrees(r, parse_source_id(buf@, p as int)),
        r matches Step::Done(_, q) ==> q <= buf@.len(),
{
    match read_head(buf, p) {
        Step::Done(h, q) => {
            if h.major != 2 || h.arg != 16 {
                Step::Invalid
            } else if 16 <= buf.len() - q {
                let v = read_be(buf, q, 16);
                Step::Done(SourceId(v), q + 16)
            } else {
                Step::Incomplete
            }
        },
        Step::Incomplete => Step::Incomplete,
        Step::Invalid => Step::Invalid,
    }
}

/// Reads the timestamp at `p`.
fn read_timestamp(buf: &[u8], p: usize) -> (r: Step<i64>)
    ensures
        agrees(r, parse_timestamp(buf@, p as int)),
        r matches Step::Done(_, q) ==> q <= buf@.len(),
{
    match read_head(buf, p) {
        Step::Done(h, q) => {
            if h.major != 0 || h.arg > i64::MAX as u64 {
                Step::Invalid
            } else if !timestamp_representable(h.arg as i64) {
                Step::Invalid
            } else {
                Step::Done(h.arg as i64, q)
            }
        },
        Step::Incomplete => Step::Incomplete,
        Step::Invalid => Step::Invalid,
    }
}

fn has_field_exec(acc: &Fields, f: Field) -> (r: bool)
    ensures
        r == has_field(*acc, f),
{
    match f {
        Field::SourceId => acc.source_id.is_some(),
        Field::Timestamp => acc.timestamp.is_some(),
        Field::Position => acc.position.is_some(),
        Field::Bearing => acc.bearing.is_some(),
        Field::Speed => acc.speed.is_some(),
    }
}

/// Reads the value of field `f` at `p` into `acc`.
fn read_value(buf: &[u8], p: usize, f: Field, acc: Fields) -> (r: Step<Fields>)
    ensures
        agrees(r, parse_value(buf@, p as int, f, acc)),
        r matches Step::Done(_, q) ==> q <= buf@.len(),
{
    match f {
        Field::SourceId => match read_source_id(buf, p) {
            Step::Done(v, q) => Step::Done(Fields { source_id: Some(v), ..acc }, q),
            Step::Incomplete => Step::Incomplete,
            Step::Invalid => Step::Invalid,
        },
        Field::Timestamp => match read_timestamp(buf, p) {
            Step::Done(v, q) => Step::Done(Fields { timestamp: Some(v), ..acc }, q),
            Step::Incomplete => Step::Incomplete,
            Step::Invalid => Step::Invalid,
        },
        Field::Position => match read_coord(buf, p) {
            Step::Done(v, q) => Step::Done(Fields { position: Some(v), ..acc }, q),
            Step::Incomplete => Step::Incomplete,
            Step::Invalid => Step::Invalid,
        },
        Field::Bearing => match read_real(buf, p) {
            Step::Done(v, q) => Step::Done(Fields { bearing: Some(v), ..acc }, q),
            Step::Incomplete => Step::Incomplete,
            Step::Invalid => Step::Invalid,
        },
        Field::Speed => match read_real(buf, p) {
            Step::Done(v, q) => Step::Done(Fields { speed: Some(v), ..acc }, q),
            Step::Incomplete => Step::Incomplete,
            Step::Invalid => Step::Invalid,
        },
    }
}

/// Reads one entry of a record at `p` into `acc`.
fn read_entry(buf: &[u8], p: usize, acc: Fields) -> (r: Step<Fields>)
    ensures
        agrees(r, parse_entry(buf@, p as int, acc)),
        r matches Step::Done(_, q) ==> q <= buf@.len(),
{
    reveal(parse_entry);
    match read_key(buf, p) {
        Step::Done(f, q) => {
            if has_field_exec(&acc, f) {
                Step::Invalid
            } else {
                read_value(buf, q, f, acc)
            }
        },
        Step::Incomplete => Step::Incomplete,
        Step::Invalid => Step::Invalid,
    }
}

/// Decodes the record at the start of `buf`, giving it with the number of
/// bytes that it takes.
pub fn decode_status(buf: &[u8]) -> (r: Step<Status>)
    ensures
        agrees(r, parse_status(buf@)),
        r matches Step::Done(_, n) ==> n <= buf@.len(),
{
    match read_head(buf, 0) {
        Step::Done(h, q) => {
            if h.major != 5 || h.arg > 5 {
                return Step::Invalid;
            }
            let count = h.arg;
            let mut acc = Fields {
                source_id: None,
                timestamp: None,
                position: None,
                bearing: None,
                speed: None,
            };
            let mut pos = q;
            let mut i: u64 = 0;
            while i < count
                invariant
                    i <= count,
                    count == h.arg,
                    h.major == 5,
                    h.arg <= 5,
                    pos <= buf@.len(),
                    parse_head(buf@, 0) == Parsed::Done(h, q as int),
                    parse_entries(buf@, q as int, count as nat, no_fields()) == parse_entries(
                        buf@,
                        pos as int,
                        (count - i) as nat,
                        acc,
                    ),
                decreases count - i,
            {
                match read_entry(buf, pos, acc) {
                    Step::Done(a, next) => {
                        acc = a;
                        pos = next;
                    },
                    Step::Incomplete => {
                        assert(parse_entries(buf@, pos as int, (count - i) as nat, acc) is Incomplete);
                        return Step::Incomplete;
                    },
                    Step::Invalid => {
                        assert(parse_entries(buf@, pos as int, (count - i) as nat, acc) is Invalid);
                        return Step::Invalid;
                    },
                }
                i = i + 1;
            }
            match (acc.source_id, acc.timestamp) {
                (Some(source_id), Some(timestamp)) => Step::Done(
                    Status {
                        source_id,
                        timestamp,
                        position: acc.position,
                        bearing: acc.bearing,
                        speed: acc.speed,
                    },
                    pos,
                ),
                _ => Step::Invalid,
            }
        },
        Step::Incomplete => Step::Incomplete,
        Step::Invalid => Step::Invalid,
    }
}

/// Why bytes did not give a record.
#[derive(Clone, Copy, Debug, PartialEq, Eq, Structural)]
pub enum DecodeError {
    /// The bytes cannot begin a record.
    Malformed,
    /// The bytes end inside a record.
    Truncated,
    /// Bytes follow the record where nothing may.
    TrailingBytes,
}

/// Decodes a datagram, which must hold exactly one record.
pub fn decode_datagram(bytes: &[u8]) -> (r: Result<Status, DecodeError>)
    ensures
        match parse_status(bytes@) {
            Parsed::Done(st, n) => r == if n == bytes@.len() {
                Ok::<Status, DecodeError>(st)
            } else {
                Err(DecodeError::TrailingBytes)
            },
            Parsed::Incomplete => r == Err::<Status, DecodeError>(DecodeError::Truncated),
            Parsed::Invalid => r == Err::<Status, DecodeError>(DecodeError::Malformed),
        },
{
    match decode_status(bytes) {
        Step::Done(st, n) => {
            if n == bytes.len() {
                Ok(st)
            } else {
                Err(DecodeError::TrailingBytes)
            }
        },
        Step::Incomplete => Err(DecodeError::Truncated),
        Step::Invalid => Err(DecodeError::Malformed),
    }
}

/// Splits records off the front of a growing buffer of stream bytes.
#[derive(Clone, Copy, Debug, Default)]
pub struct CborDecoder;

impl CborDecoder {
    pub fn new() -> (r: Self) {
        CborDecoder
    }

    /// Takes the first record off the front of `src` where it has fully
    /// arrived. Where the bytes end inside a record, `src` is left for more
    /// bytes to be appended; where they cannot begin a record, it is an error.
    pub fn decode(&mut self, src: &mut Vec<u8>) -> (r: Result<Option<Status>, DecodeError>)
        ensures
            match parse_status(old(src)@) {
                Parsed::Done(st, n) => {
                    &&& r == Ok::<Option<Status>, DecodeError>(Some(st))
                    &&& final(src)@ == old(src)@.subrange(n, old(src)@.len() as int)
                },
                Parsed::Incomplete => {
                    &&& r == Ok::<Option<Status>, DecodeError>(None)
                    &&& final(src)@ == old(src)@
                },
                Parsed::Invalid => {
                    &&& r == Err::<Option<Status>, DecodeError>(DecodeError::Malformed)
                    &&& final(src)@ == old(src)@
                },
            },
    {
        match decode_status(src.as_slice()) {
            Step::Done(st, n) => {
                let rest = src.split_off(n);
                *src = rest;
                Ok(Some(st))
            },
            Step::Incomplete => Ok(None),
            Step::Invalid => Err(DecodeError::Malformed),
        }
    }
}

} // verus!
