//! Encoding of a record in the wire format: floats in the shortest precision
//! that holds them exactly, integers in their shortest heads. Decoding the
//! encoding gives the record back.

use vstd::prelude::*;
use vstd::arithmetic::div_mod::{
    lemma_div_denominator, lemma_div_is_ordered_by_denominator, lemma_mod_breakdown,
    lemma_multiply_divide_lt, lemma_small_mod,
};
use crate::data::{Coord, Real, SourceId, Status};
use crate::wire::{
    arg_width, be, exp_unit, field_name, field_name_bytes, half_to_double, has_field,
    lemma_two_to_mono,
    no_fields, parse_axis, parse_coord, parse_entries, parse_entry, parse_head, parse_key,
    parse_real, parse_status, parse_text, parse_value, pow256, sign_bit, single_to_double, two_to,
    widen_half, widen_single, Field, Fields, Head, Parsed, MAX_TIMESTAMP,
};

verus! {

/// The `n` bytes of `v` in big-endian order.
pub open spec fn be_bytes(v: nat, n: nat) -> Seq<u8>
    decreases n,
{
    if n == 0 {
        seq![]
    } else {
        be_bytes(v / 256, (n - 1) as nat).push((v % 256) as u8)
    }
}

/// The head of an item of major type `major` with argument `v`, in the
/// shortest form.
pub open spec fn head_bytes(major: u8, v: u64) -> Seq<u8> {
    if v < 24 {
        seq![(major * 32 + v) as u8]
    } else if v <= 0xff {
        seq![(major * 32 + 24) as u8] + be_bytes(v as nat, 1)
    } else if v <= 0xffff {
        seq![(major * 32 + 25) as u8] + be_bytes(v as nat, 2)
    } else if v <= 0xffff_ffff {
        seq![(major * 32 + 26) as u8] + be_bytes(v as nat, 4)
    } else {
        seq![(major * 32 + 27) as u8] + be_bytes(v as nat, 8)
    }
}

pub open spec fn text_bytes(t: Seq<u8>) -> Seq<u8> {
    head_bytes(3, t.len() as u64) + t
}

/// `x` divided by two to the `k`, rounding down.
pub open spec fn shifted(x: int, k: nat) -> int {
    x / two_to(k) as int
}

/// The binary16 pattern to try for the binary64 pattern `d`: the one that
/// widens back to `d` where there is such a pattern.
#[verifier::opaque]
pub open spec fn half_candidate(d: int) -> int {
    let s = (d / sign_bit()) * 0x8000;
    let e = (d / exp_unit()) % 0x800;
    let m = d % exp_unit();
    if e == 0x7ff {
        s + 0x7c00 + m / 0x400_0000_0000
    } else if 1009 <= e <= 1038 {
        s + (e - 1008) * 0x400 + m / 0x400_0000_0000
    } else if 999 <= e < 1009 {
        s + shifted(exp_unit() + m, (1051 - e) as nat)
    } else {
        s
    }
}

/// The binary32 pattern to try for the binary64 pattern `d`: the one that
/// widens back to `d` where there is such a pattern.
#[verifier::opaque]
pub open spec fn single_candidate(d: int) -> int {
    let s = (d / sign_bit()) * 0x8000_0000;
    let e = (d / exp_unit()) % 0x800;
    let m = d % exp_unit();
    if e == 0x7ff {
        s + 0x7f80_0000 + m / 0x2000_0000
    } else if 897 <= e <= 1150 {
        s + (e - 896) * 0x80_0000 + m / 0x2000_0000
    } else if 874 <= e < 897 {
        s + shifted(exp_unit() + m, (926 - e) as nat)
    } else {
        s
    }
}

/// A float in the shortest of half, single and double precision that holds
/// it exactly.
pub open spec fn real_bytes(r: Real) -> Seq<u8> {
    let d = r.bits as int;
    let h = half_candidate(d);
    let f = single_candidate(d);
    if half_to_double(h) == d {
        seq![0xf9u8] + be_bytes(h as nat, 2)
    } else if single_to_double(f) == d {
        seq![0xfau8] + be_bytes(f as nat, 4)
    } else {
        seq![0xfbu8] + be_bytes(d as nat, 8)
    }
}

/// A timestamp: an unsigned integer, or a negative one before the epoch.
pub open spec fn timestamp_bytes(t: i64) -> Seq<u8> {
    if t >= 0 {
        head_bytes(0, t as u64)
    } else {
        head_bytes(1, (-1 - t) as u64)
    }
}

pub open spec fn coord_bytes(c: Coord) -> Seq<u8> {
    head_bytes(5, 2) + text_bytes(seq![120u8]) + real_bytes(c.x) + text_bytes(seq![121u8])
        + real_bytes(c.y)
}

pub open spec fn entry_count(st: Status) -> u64 {
    (2 + (if st.position is Some { 1int } else { 0 }) + (if st.bearing is Some { 1int } else { 0 }) + (
    if st.speed is Some { 1int } else { 0 })) as u64
}

/// The bytes of a record: its fields in the order `sourceId`, `timestamp`,
/// `position`, `bearing`, `speed`, absent ones left out.
pub open spec fn encoding(st: Status) -> Seq<u8> {
    head_bytes(5, entry_count(st)) + text_bytes(field_name(Field::SourceId)) + head_bytes(2, 16)
        + be_bytes(st.source_id.0 as nat, 16) + text_bytes(field_name(Field::Timestamp))
        + timestamp_bytes(st.timestamp) + match st.position {
        Some(c) => text_bytes(field_name(Field::Position)) + coord_bytes(c),
        None => seq![],
    } + match st.bearing {
        Some(b) => text_bytes(field_name(Field::Bearing)) + real_bytes(b),
        None => seq![],
    } + match st.speed {
        Some(v) => text_bytes(field_name(Field::Speed)) + real_bytes(v),
        None => seq![],
    }
}

/// Appends the `n` bytes of `v` in big-endian order.
fn push_be(out: &mut Vec<u8>, v: u128, n: usize)
    requires
        n <= 16,
    ensures
        final(out)@ == old(out)@ + be_bytes(v as nat, n as nat),
    decreases n,
{
    if n > 0 {
        push_be(out, v / 256, n - 1);
        out.push((v % 256) as u8);
        assert(out@ =~= old(out)@ + be_bytes(v as nat, n as nat));
    } else {
        assert(out@ =~= old(out)@ + be_bytes(v as nat, n as nat));
    }
}

/// Appends the head of an item of major type `major` with argument `v`.
fn push_head(out: &mut Vec<u8>, major: u8, v: u64)
    requires
        major < 8,
    ensures
        final(out)@ == old(out)@ + head_bytes(major, v),
{
    let ghost start = out@;
    if v < 24 {
        out.push(major * 32 + v as u8);
    } else if v <= 0xff {
        out.push(major * 32 + 24);
        push_be(out, v as u128, 1);
    } else if v <= 0xffff {
        out.push(major * 32 + 25);
        push_be(out, v as u128, 2);
    } else if v <= 0xffff_ffff {
        out.push(major * 32 + 26);
        push_be(out, v as u128, 4);
    } else {
        out.push(major * 32 + 27);
        push_be(out, v as u128, 8);
    }
    assert(out@ =~= start + head_bytes(major, v));
}

/// Appends a text string of the bytes `t`.
fn push_text(out: &mut Vec<u8>, t: &Vec<u8>)
    ensures
        final(out)@ == old(out)@ + text_bytes(t@),
{
    let ghost start = out@;
    push_head(out, 3, t.len() as u64);
    out.extend_from_slice(t.as_slice());
    assert(out@ =~= start + text_bytes(t@));
}

/// `x` divided by two to the `k`.
fn shift_down(x: u64, k: u64) -> (r: u64)
    ensures
        r as int == shifted(x as int, k as nat),
        two_to(k as nat) >= 1,
{
    let mut r = x;
    let mut i: u64 = 0;
    while i < k
        invariant
            i <= k,
            two_to(i as nat) >= 1,
            r as int == (x as int) / (two_to(i as nat) as int),
        decreases k - i,
    {
        proof {
            lemma_div_denominator(x as int, two_to(i as nat) as int, 2);
            assert(two_to((i + 1) as nat) == two_to(i as nat) * 2);
        }
        r = r / 2;
        i = i + 1;
    }
    r
}

proof fn lemma_two_to_values()
    ensures
        two_to(30) == 0x4000_0000,
        two_to(43) == 0x800_0000_0000,
{
    reveal_with_fuel(two_to, 44);
}

fn half_candidate_exec(d: u64) -> (r: u64)
    ensures
        r as int == half_candidate(d as int),
        r < 0x1_0000,
{
    reveal(half_candidate);
    let s = (d / 0x8000_0000_0000_0000) * 0x8000;
    let e = (d / 0x10_0000_0000_0000) % 0x800;
    let m = d % 0x10_0000_0000_0000;
    if e == 0x7ff {
        s + 0x7c00 + m / 0x400_0000_0000
    } else if 1009 <= e && e <= 1038 {
        s + (e - 1008) * 0x400 + m / 0x400_0000_0000
    } else if 999 <= e && e < 1009 {
        let x = 0x10_0000_0000_0000 + m;
        let v = shift_down(x, 1051 - e);
        proof {
            lemma_two_to_values();
            lemma_two_to_mono(43, (1051 - e) as nat);
            lemma_div_is_ordered_by_denominator(x as int, 0x800_0000_0000, two_to((1051 - e) as nat) as int);
            lemma_multiply_divide_lt(x as int, 0x800_0000_0000, 1024);
        }
        s + v
    } else {
        s
    }
}

fn single_candidate_exec(d: u64) -> (r: u64)
    ensures
        r as int == single_candidate(d as int),
        r < 0x1_0000_0000,
{
    reveal(single_candidate);
    let s = (d / 0x8000_0000_0000_0000) * 0x8000_0000;
    let e = (d / 0x10_0000_0000_0000) % 0x800;
    let m = d % 0x10_0000_0000_0000;
    if e == 0x7ff {
        s + 0x7f80_0000 + m / 0x2000_0000
    } else if 897 <= e && e <= 1150 {
        s + (e - 896) * 0x80_0000 + m / 0x2000_0000
    } else if 874 <= e && e < 897 {
        let x = 0x10_0000_0000_0000 + m;
        let v = shift_down(x, 926 - e);
        proof {
            lemma_two_to_values();
            lemma_two_to_mono(30, (926 - e) as nat);
            lemma_div_is_ordered_by_denominator(x as int, 0x4000_0000, two_to((926 - e) as nat) as int);
            lemma_multiply_divide_lt(x as int, 0x4000_0000, 0x80_0000);
        }
        s + v
    } else {
        s
    }
}

/// Appends a float in the shortest precision that holds it exactly.
fn push_real(out: &mut Vec<u8>, r: Real)
    ensures
        final(out)@ == old(out)@ + real_bytes(r),
{
    let ghost start = out@;
    let d = r.bits;
    let h = half_candidate_exec(d);
    if widen_half(h) == d {
        out.push(0xf9);
        push_be(out, h as u128, 2);
    } else {
        let f = single_candidate_exec(d);
        if widen_single(f) == d {
            out.push(0xfa);
            push_be(out, f as u128, 4);
        } else {
            out.push(0xfb);
            push_be(out, d as u128, 8);
        }
    }
    assert(out@ =~= start + real_bytes(r));
}

fn push_coord(out: &mut Vec<u8>, c: Coord)
    ensures
        final(out)@ == old(out)@ + coord_bytes(c),
{
    let ghost start = out@;
    let x = vec![120u8];
    let y = vec![121u8];
    assert(x@ =~= seq![120u8]);
    assert(y@ =~= seq![121u8]);
    push_head(out, 5, 2);
    push_text(out, &x);
    push_real(out, c.x);
    push_text(out, &y);
    push_real(out, c.y);
    assert(out@ =~= start + coord_bytes(c));
}

/// Encodes a record in the wire format.
pub fn encode_status(st: &Status) -> (r: Vec<u8>)
    ensures
        r@ == encoding(*st),
{
    let mut count: u64 = 2;
    if st.position.is_some() {
        count = count + 1;
    }
    if st.bearing.is_some() {
        count = count + 1;
    }
    if st.speed.is_some() {
        count = count + 1;
    }
    let mut out: Vec<u8> = Vec::new();
    push_head(&mut out, 5, count);
    push_text(&mut out, &field_name_bytes(Field::SourceId));
    push_head(&mut out, 2, 16);
    push_be(&mut out, st.source_id.0, 16);
    push_text(&mut out, &field_name_bytes(Field::Timestamp));
    if st.timestamp >= 0 {
        push_head(&mut out, 0, st.timestamp as u64);
    } else {
        push_head(&mut out, 1, (-1 - st.timestamp) as u64);
    }
    let ghost keys = out@;
    match st.position {
        Some(c) => {
            push_text(&mut out, &field_name_bytes(Field::Position));
            push_coord(&mut out, c);
        },
        None => {},
    }
    let ghost with_position = out@;
    match st.bearing {
        Some(b) => {
            push_text(&mut out, &field_name_bytes(Field::Bearing));
            push_real(&mut out, b);
        },
        None => {},
    }
    let ghost with_bearing = out@;
    match st.speed {
        Some(v) => {
            push_text(&mut out, &field_name_bytes(Field::Speed));
            push_real(&mut out, v);
        },
        None => {},
    }
    proof {
        let p = match st.position {
            Some(c) => text_bytes(field_name(Field::Position)) + coord_bytes(c),
            None => seq![],
        };
        let b = match st.bearing {
            Some(b) => text_bytes(field_name(Field::Bearing)) + real_bytes(b),
            None => seq![],
        };
        let v = match st.speed {
            Some(v) => text_bytes(field_name(Field::Speed)) + real_bytes(v),
            None => seq![],
        };
        assert(with_position =~= keys + p);
        assert(with_bearing =~= keys + p + b);
        assert(out@ =~= keys + p + b + v);
        assert(count == entry_count(*st));
    }
    out
}

/// The bytes `x` stand in `s` from position `p`.
pub open spec fn occurs(s: Seq<u8>, p: int, x: Seq<u8>) -> bool {
    0 <= p && p + x.len() <= s.len() && forall|i: int| 0 <= i < x.len() ==> s[p + i] == x[i]
}

proof fn lemma_occurs_first(s: Seq<u8>, p: int, x: Seq<u8>)
    requires
        occurs(s, p, x),
        x.len() > 0,
    ensures
        s[p] == x[0],
{
    assert(s[p + 0] == x[0]);
}

proof fn lemma_occurs_split(s: Seq<u8>, p: int, a: Seq<u8>, b: Seq<u8>)
    requires
        occurs(s, p, a + b),
    ensures
        occurs(s, p, a),
        occurs(s, p + a.len(), b),
{
    assert forall|i: int| 0 <= i < a.len() implies s[p + i] == a[i] by {
        assert((a + b)[i] == a[i]);
    }
    assert forall|i: int| 0 <= i < b.len() implies s[p + a.len() + i] == b[i] by {
        assert((a + b)[a.len() + i] == b[i]);
        assert(s[p + (a.len() + i)] == (a + b)[a.len() + i]);
    }
}

proof fn lemma_pow256_pos(n: nat)
    ensures
        pow256(n) >= 1,
    decreases n,
{
    if n > 0 {
        lemma_pow256_pos((n - 1) as nat);
    }
}

proof fn lemma_be_bytes_len(v: nat, n: nat)
    ensures
        be_bytes(v, n).len() == n,
    decreases n,
{
    if n > 0 {
        lemma_be_bytes_len(v / 256, (n - 1) as nat);
    }
}

proof fn lemma_be_of_bytes(s: Seq<u8>, p: int, v: nat, n: nat)
    requires
        occurs(s, p, be_bytes(v, n)),
    ensures
        be(s, p, n) == v % pow256(n),
    decreases n,
{
    lemma_be_bytes_len(v, n);
    if n > 0 {
        let front = be_bytes(v / 256, (n - 1) as nat);
        lemma_be_bytes_len(v / 256, (n - 1) as nat);
        assert(occurs(s, p, front)) by {
            assert forall|i: int| 0 <= i < front.len() implies s[p + i] == front[i] by {
                assert(be_bytes(v, n)[i] == front[i]);
            }
        }
        assert(s[p + n - 1] == be_bytes(v, n)[n - 1]);
        lemma_be_of_bytes(s, p, v / 256, (n - 1) as nat);
        lemma_pow256_pos((n - 1) as nat);
        lemma_mod_breakdown(v as int, 256, pow256((n - 1) as nat) as int);
    }
}

/// The additional information of the shortest head with argument `v`.
pub open spec fn head_info(v: u64) -> u8 {
    if v < 24 {
        v as u8
    } else if v <= 0xff {
        24
    } else if v <= 0xffff {
        25
    } else if v <= 0xffff_ffff {
        26
    } else {
        27
    }
}

proof fn lemma_head_bytes(s: Seq<u8>, p: int, major: u8, v: u64)
    requires
        major < 8,
        occurs(s, p, head_bytes(major, v)),
    ensures
        parse_head(s, p) == Parsed::Done(
            Head { major, info: head_info(v), arg: v },
            p + head_bytes(major, v).len(),
        ),
{
    reveal_with_fuel(pow256, 9);
    let h = head_bytes(major, v);
    let info = head_info(v);
    assert(s[p] == h[0]);
    assert(h[0] == major * 32 + info);
    assert((major * 32 + info) / 32 == major && (major * 32 + info) % 32 == info) by {
        assert(info < 32);
    }
    if v >= 24 {
        let n: nat = if v <= 0xff {
            1
        } else if v <= 0xffff {
            2
        } else if v <= 0xffff_ffff {
            4
        } else {
            8
        };
        let first = seq![(major * 32 + head_info(v)) as u8];
        assert(h =~= first + be_bytes(v as nat, n));
        lemma_occurs_split(s, p, first, be_bytes(v as nat, n));
        lemma_be_of_bytes(s, p + 1, v as nat, n);
        lemma_be_bytes_len(v as nat, n);
        assert(arg_width(info as int) == n);
        assert(v < pow256(n));
        lemma_small_mod(v as nat, pow256(n));
        assert(be(s, p + 1, n) == v);
        assert(p + 1 + n <= s.len());
        assert(h.len() == 1 + n);
    } else {
        assert(h.len() == 1);
    }
}

proof fn lemma_text_bytes(s: Seq<u8>, p: int, t: Seq<u8>)
    requires
        occurs(s, p, text_bytes(t)),
        t.len() <= u64::MAX,
    ensures
        parse_text(s, p) == Parsed::Done(t, p + text_bytes(t).len()),
{
    let h = head_bytes(3, t.len() as u64);
    lemma_occurs_split(s, p, h, t);
    lemma_head_bytes(s, p, 3, t.len() as u64);
    let q = p + h.len();
    assert(s.subrange(q, q + t.len()) =~= t);
}

proof fn lemma_key_bytes(s: Seq<u8>, p: int, f: Field)
    requires
        occurs(s, p, text_bytes(field_name(f))),
    ensures
        parse_key(s, p) == Parsed::Done(f, p + text_bytes(field_name(f)).len()),
{
    lemma_text_bytes(s, p, field_name(f));
    let sid = field_name(Field::SourceId);
    let ts = field_name(Field::Timestamp);
    let pos = field_name(Field::Position);
    let brg = field_name(Field::Bearing);
    let spd = field_name(Field::Speed);
    assert(sid[0] == 115 && ts[0] == 116 && pos[0] == 112 && brg[0] == 98 && spd[0] == 115);
    assert(sid.len() == 8 && ts.len() == 9 && pos.len() == 8 && brg.len() == 7 && spd.len() == 5);
}

proof fn lemma_axis_bytes(s: Seq<u8>, p: int, x: bool)
    requires
        occurs(s, p, text_bytes(if x { seq![120u8] } else { seq![121u8] })),
    ensures
        parse_axis(s, p) == Parsed::Done(
            x,
            p + text_bytes(if x { seq![120u8] } else { seq![121u8] }).len(),
        ),
{
    lemma_text_bytes(s, p, if x { seq![120u8] } else { seq![121u8] });
    assert(seq![120u8][0] != seq![121u8][0]);
}

proof fn lemma_candidates_bounded(d: int)
    requires
        0 <= d < 0x1_0000_0000_0000_0000,
    ensures
        0 <= half_candidate(d) < 0x1_0000,
        0 <= single_candidate(d) < 0x1_0000_0000,
{
    reveal(half_candidate);
    reveal(single_candidate);
    lemma_two_to_values();
    let e = (d / exp_unit()) % 0x800;
    let x = exp_unit() + d % exp_unit();
    if 999 <= e < 1009 {
        lemma_two_to_mono(43, (1051 - e) as nat);
        lemma_div_is_ordered_by_denominator(x, 0x800_0000_0000, two_to((1051 - e) as nat) as int);
        lemma_multiply_divide_lt(x, 0x800_0000_0000, 1024);
    }
    if 874 <= e < 897 {
        lemma_two_to_mono(30, (926 - e) as nat);
        lemma_div_is_ordered_by_denominator(x, 0x4000_0000, two_to((926 - e) as nat) as int);
        lemma_multiply_divide_lt(x, 0x4000_0000, 0x80_0000);
    }
}

proof fn lemma_real_bytes(s: Seq<u8>, p: int, r: Real)
    requires
        occurs(s, p, real_bytes(r)),
    ensures
        parse_real(s, p) == Parsed::Done(r, p + real_bytes(r).len()),
{
    reveal_with_fuel(pow256, 9);
    let d = r.bits as int;
    let h = half_candidate(d);
    let f = single_candidate(d);
    lemma_candidates_bounded(d);
    if half_to_double(h) == d {
        lemma_occurs_split(s, p, seq![0xf9u8], be_bytes(h as nat, 2));
        lemma_be_of_bytes(s, p + 1, h as nat, 2);
        lemma_be_bytes_len(h as nat, 2);
        lemma_small_mod(h as nat, pow256(2));
        lemma_occurs_first(s, p, seq![0xf9u8]);
        assert(s[p] == 0xf9);
        assert(parse_head(s, p) == Parsed::Done(Head { major: 7, info: 25, arg: h as u64 }, p + 3));
    } else if single_to_double(f) == d {
        lemma_occurs_split(s, p, seq![0xfau8], be_bytes(f as nat, 4));
        lemma_be_of_bytes(s, p + 1, f as nat, 4);
        lemma_be_bytes_len(f as nat, 4);
        lemma_small_mod(f as nat, pow256(4));
        lemma_occurs_first(s, p, seq![0xfau8]);
        assert(s[p] == 0xfa);
        assert(parse_head(s, p) == Parsed::Done(Head { major: 7, info: 26, arg: f as u64 }, p + 5));
    } else {
        lemma_occurs_split(s, p, seq![0xfbu8], be_bytes(d as nat, 8));
        lemma_be_of_bytes(s, p + 1, d as nat, 8);
        lemma_be_bytes_len(d as nat, 8);
        lemma_small_mod(d as nat, pow256(8));
        lemma_occurs_first(s, p, seq![0xfbu8]);
        assert(s[p] == 0xfb);
        assert(parse_head(s, p) == Parsed::Done(Head { major: 7, info: 27, arg: d as u64 }, p + 9));
    }
}

proof fn lemma_coord_bytes(s: Seq<u8>, p: int, c: Coord)
    requires
        occurs(s, p, coord_bytes(c)),
    ensures
        parse_coord(s, p) == Parsed::Done(c, p + coord_bytes(c).len()),
{
    let h = head_bytes(5, 2);
    let tx = text_bytes(seq![120u8]);
    let rx = real_bytes(c.x);
    let ty = text_bytes(seq![121u8]);
    let ry = real_bytes(c.y);
    lemma_occurs_split(s, p, h + tx + rx + ty, ry);
    lemma_occurs_split(s, p, h + tx + rx, ty);
    lemma_occurs_split(s, p, h + tx, rx);
    lemma_occurs_split(s, p, h, tx);
    lemma_head_bytes(s, p, 5, 2);
    let p1 = p + h.len();
    lemma_axis_bytes(s, p1, true);
    let p2 = p1 + tx.len();
    lemma_real_bytes(s, p2, c.x);
    let p3 = p2 + rx.len();
    lemma_axis_bytes(s, p3, false);
    let p4 = p3 + ty.len();
    lemma_real_bytes(s, p4, c.y);
}

proof fn lemma_field_entry(s: Seq<u8>, p: int, f: Field, acc: Fields)
    requires
        occurs(s, p, text_bytes(field_name(f))),
        !has_field(acc, f),
    ensures
        parse_entry(s, p, acc) == parse_value(s, p + text_bytes(field_name(f)).len(), f, acc),
{
    reveal(parse_entry);
    lemma_key_bytes(s, p, f);
}

proof fn lemma_entries_step(s: Seq<u8>, p: int, n: nat, acc: Fields, next: Fields, q: int)
    requires
        n > 0,
        parse_entry(s, p, acc) == Parsed::Done(next, q),
    ensures
        parse_entries(s, p, n, acc) == parse_entries(s, q, (n - 1) as nat, next),
{
}

proof fn lemma_key_entries(s: Seq<u8>, p0: int, n: nat, id: SourceId, ts: i64)
    requires
        n >= 2,
        0 <= ts <= MAX_TIMESTAMP,
        occurs(s, p0, text_bytes(field_name(Field::SourceId))),
        occurs(s, p0 + text_bytes(field_name(Field::SourceId)).len(), head_bytes(2, 16)),
        occurs(
            s,
            p0 + text_bytes(field_name(Field::SourceId)).len() + head_bytes(2, 16).len(),
            be_bytes(id.0 as nat, 16),
        ),
        occurs(
            s,
            p0 + text_bytes(field_name(Field::SourceId)).len() + head_bytes(2, 16).len() + 16,
            text_bytes(field_name(Field::Timestamp)),
        ),
        occurs(
            s,
            p0 + text_bytes(field_name(Field::SourceId)).len() + head_bytes(2, 16).len() + 16
                + text_bytes(field_name(Field::Timestamp)).len(),
            head_bytes(0, ts as u64),
        ),
    ensures
        parse_entries(s, p0, n, no_fields()) == parse_entries(
            s,
            p0 + text_bytes(field_name(Field::SourceId)).len() + head_bytes(2, 16).len() + 16
                + text_bytes(field_name(Field::Timestamp)).len() + head_bytes(0, ts as u64).len(),
            (n - 2) as nat,
            Fields { source_id: Some(id), timestamp: Some(ts), ..no_fields() },
        ),
{
    let p1 = p0 + text_bytes(field_name(Field::SourceId)).len();
    let p2 = p1 + head_bytes(2, 16).len();
    let p3 = p2 + 16;
    let p4 = p3 + text_bytes(field_name(Field::Timestamp)).len();
    let p5 = p4 + head_bytes(0, ts as u64).len();
    let acc0 = no_fields();
    lemma_field_entry(s, p0, Field::SourceId, acc0);
    lemma_head_bytes(s, p1, 2, 16);
    lemma_be_bytes_len(id.0 as nat, 16);
    lemma_be_of_bytes(s, p2, id.0 as nat, 16);
    assert(pow256(16) == 0x1_0000_0000_0000_0000_0000_0000_0000_0000) by {
        reveal_with_fuel(pow256, 17);
    }
    lemma_small_mod(id.0 as nat, pow256(16));
    let acc1 = Fields { source_id: Some(id), ..acc0 };
    assert(parse_entry(s, p0, acc0) == Parsed::Done(acc1, p3));
    lemma_entries_step(s, p0, n, acc0, acc1, p3);
    lemma_field_entry(s, p3, Field::Timestamp, acc1);
    lemma_head_bytes(s, p4, 0, ts as u64);
    let acc2 = Fields { timestamp: Some(ts), ..acc1 };
    assert(parse_entry(s, p3, acc1) == Parsed::Done(acc2, p5));
    lemma_entries_step(s, p3, (n - 1) as nat, acc1, acc2, p5);
}

/// `acc` with the float field `f` set to `r`.
pub open spec fn with_real(acc: Fields, f: Field, r: Real) -> Fields {
    if f == Field::Bearing {
        Fields { bearing: Some(r), ..acc }
    } else {
        Fields { speed: Some(r), ..acc }
    }
}

proof fn lemma_real_entry(s: Seq<u8>, p: int, f: Field, r: Real, acc: Fields)
    requires
        f == Field::Bearing || f == Field::Speed,
        !has_field(acc, f),
        occurs(s, p, text_bytes(field_name(f))),
        occurs(s, p + text_bytes(field_name(f)).len(), real_bytes(r)),
    ensures
        parse_entry(s, p, acc) == Parsed::Done(
            with_real(acc, f, r),
            p + text_bytes(field_name(f)).len() + real_bytes(r).len(),
        ),
{
    lemma_field_entry(s, p, f, acc);
    lemma_real_bytes(s, p + text_bytes(field_name(f)).len(), r);
}

proof fn lemma_position_entry(s: Seq<u8>, p: int, c: Coord, acc: Fields)
    requires
        acc.position is None,
        occurs(s, p, text_bytes(field_name(Field::Position))),
        occurs(s, p + text_bytes(field_name(Field::Position)).len(), coord_bytes(c)),
    ensures
        parse_entry(s, p, acc) == Parsed::Done(
            Fields { position: Some(c), ..acc },
            p + text_bytes(field_name(Field::Position)).len() + coord_bytes(c).len(),
        ),
{
    lemma_field_entry(s, p, Field::Position, acc);
    lemma_coord_bytes(s, p + text_bytes(field_name(Field::Position)).len(), c);
}

/// Decoding the encoding of a record gives the record back and takes all of
/// its bytes, for every record whose timestamp is a representable moment
/// from the epoch on.
#[verifier::rlimit(50)]
pub proof fn lemma_round_trip(st: Status)
    requires
        0 <= st.timestamp <= MAX_TIMESTAMP,
    ensures
        parse_status(encoding(st)) == Parsed::Done(st, encoding(st).len() as int),
{
    let s = encoding(st);
    let count = entry_count(st);
    let hd = head_bytes(5, count);
    let k1 = text_bytes(field_name(Field::SourceId));
    let h2 = head_bytes(2, 16);
    let b16 = be_bytes(st.source_id.0 as nat, 16);
    let k2 = text_bytes(field_name(Field::Timestamp));
    let tsb = timestamp_bytes(st.timestamp);
    let kp = text_bytes(field_name(Field::Position));
    let kb = text_bytes(field_name(Field::Bearing));
    let kv = text_bytes(field_name(Field::Speed));
    let pb = match st.position {
        Some(c) => kp + coord_bytes(c),
        None => seq![],
    };
    let bb = match st.bearing {
        Some(b) => kb + real_bytes(b),
        None => seq![],
    };
    let vb = match st.speed {
        Some(v) => kv + real_bytes(v),
        None => seq![],
    };
    assert(s == hd + k1 + h2 + b16 + k2 + tsb + pb + bb + vb);
    assert(occurs(s, 0, s));
    lemma_occurs_split(s, 0, hd + k1 + h2 + b16 + k2 + tsb + pb + bb, vb);
    lemma_occurs_split(s, 0, hd + k1 + h2 + b16 + k2 + tsb + pb, bb);
    lemma_occurs_split(s, 0, hd + k1 + h2 + b16 + k2 + tsb, pb);
    lemma_occurs_split(s, 0, hd + k1 + h2 + b16 + k2, tsb);
    lemma_occurs_split(s, 0, hd + k1 + h2 + b16, k2);
    lemma_occurs_split(s, 0, hd + k1 + h2, b16);
    lemma_occurs_split(s, 0, hd + k1, h2);
    lemma_occurs_split(s, 0, hd, k1);
    lemma_be_bytes_len(st.source_id.0 as nat, 16);
    let p0 = hd.len() as int;
    let p5 = p0 + k1.len() + h2.len() + b16.len() + k2.len() + tsb.len();
    let p6 = p5 + pb.len();
    let p7 = p6 + bb.len();
    assert(p7 + vb.len() == s.len());

    lemma_head_bytes(s, 0, 5, count);
    lemma_key_entries(s, p0, count as nat, st.source_id, st.timestamp);
    let acc2 = Fields { source_id: Some(st.source_id), timestamp: Some(st.timestamp), ..no_fields() };
    let n2 = (count - 2) as nat;

    let (acc3, n3) = match st.position {
        Some(c) => {
            lemma_occurs_split(s, p5, kp, coord_bytes(c));
            lemma_position_entry(s, p5, c, acc2);
            let a = Fields { position: Some(c), ..acc2 };
            lemma_entries_step(s, p5, n2, acc2, a, p6);
            (a, (n2 - 1) as nat)
        },
        None => (acc2, n2),
    };
    assert(parse_entries(s, p5, n2, acc2) == parse_entries(s, p6, n3, acc3));

    let (acc4, n4) = match st.bearing {
        Some(b) => {
            lemma_occurs_split(s, p6, kb, real_bytes(b));
            lemma_real_entry(s, p6, Field::Bearing, b, acc3);
            let a = with_real(acc3, Field::Bearing, b);
            lemma_entries_step(s, p6, n3, acc3, a, p7);
            (a, (n3 - 1) as nat)
        },
        None => (acc3, n3),
    };
    assert(parse_entries(s, p6, n3, acc3) == parse_entries(s, p7, n4, acc4));

    let (acc5, n5) = match st.speed {
        Some(v) => {
            lemma_occurs_split(s, p7, kv, real_bytes(v));
            lemma_real_entry(s, p7, Field::Speed, v, acc4);
            let a = with_real(acc4, Field::Speed, v);
            lemma_entries_step(s, p7, n4, acc4, a, s.len() as int);
            (a, (n4 - 1) as nat)
        },
        None => (acc4, n4),
    };
    assert(parse_entries(s, p7, n4, acc4) == parse_entries(s, s.len() as int, n5, acc5));
    assert(n5 == 0);
    assert(acc5 == Fields {
        source_id: Some(st.source_id),
        timestamp: Some(st.timestamp),
        position: st.position,
        bearing: st.bearing,
        speed: st.speed,
    });
}

} // verus!
