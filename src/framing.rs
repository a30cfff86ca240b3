//! Framing of a byte stream into records: whatever decides a record lies in
//! the bytes read so far, so a stream read in pieces decodes exactly as the
//! same stream read at once.

use vstd::prelude::*;
use crate::data::Status;
use crate::wire::{
    arg_width, be, no_fields, parse_axis, parse_axis_entry, parse_coord,
    parse_entries, parse_entry, parse_head, parse_key, parse_real, parse_source_id, parse_status,
    parse_text, parse_value, Field, Fields, Parsed,
};

verus! {

/// `s` is the start of `t`.
pub open spec fn is_prefix(s: Seq<u8>, t: Seq<u8>) -> bool {
    s.len() <= t.len() && forall|i: int| 0 <= i < s.len() ==> s[i] == t[i]
}

proof fn lemma_be_prefix(s: Seq<u8>, t: Seq<u8>, p: int, n: nat)
    requires
        is_prefix(s, t),
        0 <= p,
        p + n <= s.len(),
    ensures
        be(s, p, n) == be(t, p, n),
    decreases n,
{
    if n > 0 {
        lemma_be_prefix(s, t, p, (n - 1) as nat);
        assert(s[p + n - 1] == t[p + n - 1]);
    }
}

proof fn lemma_head_prefix(s: Seq<u8>, t: Seq<u8>, p: int)
    requires
        is_prefix(s, t),
        0 <= p,
    ensures
        parse_head(s, p) matches Parsed::Done(_, q) ==> p < q <= s.len(),
        !(parse_head(s, p) is Incomplete) ==> parse_head(t, p) == parse_head(s, p),
{
    if p < s.len() {
        assert(s[p] == t[p]);
        let info = s[p] % 32;
        if 24 <= info < 28 {
            let n = arg_width(info as int);
            if p + 1 + n <= s.len() {
                lemma_be_prefix(s, t, p + 1, n);
            }
        }
    }
}

proof fn lemma_text_prefix(s: Seq<u8>, t: Seq<u8>, p: int)
    requires
        is_prefix(s, t),
        0 <= p,
    ensures
        parse_text(s, p) matches Parsed::Done(_, q) ==> p < q <= s.len(),
        !(parse_text(s, p) is Incomplete) ==> parse_text(t, p) == parse_text(s, p),
{
    lemma_head_prefix(s, t, p);
    if let Parsed::Done(h, q) = parse_head(s, p) {
        if h.major == 3 && q + h.arg <= s.len() {
            assert(s.subrange(q, q + h.arg) =~= t.subrange(q, q + h.arg));
        }
    }
}

proof fn lemma_key_prefix(s: Seq<u8>, t: Seq<u8>, p: int)
    requires
        is_prefix(s, t),
        0 <= p,
    ensures
        parse_key(s, p) matches Parsed::Done(_, q) ==> p < q <= s.len(),
        !(parse_key(s, p) is Incomplete) ==> parse_key(t, p) == parse_key(s, p),
{
    lemma_text_prefix(s, t, p);
}

proof fn lemma_real_prefix(s: Seq<u8>, t: Seq<u8>, p: int)
    requires
        is_prefix(s, t),
        0 <= p,
    ensures
        parse_real(s, p) matches Parsed::Done(_, q) ==> p < q <= s.len(),
        !(parse_real(s, p) is Incomplete) ==> parse_real(t, p) == parse_real(s, p),
{
    lemma_head_prefix(s, t, p);
}

proof fn lemma_axis_entry_prefix(s: Seq<u8>, t: Seq<u8>, p: int)
    requires
        is_prefix(s, t),
        0 <= p,
    ensures
        parse_axis_entry(s, p) matches Parsed::Done(_, q) ==> p < q <= s.len(),
        !(parse_axis_entry(s, p) is Incomplete) ==> parse_axis_entry(t, p) == parse_axis_entry(
            s,
            p,
        ),
{
    lemma_text_prefix(s, t, p);
    if let Parsed::Done(_, q) = parse_axis(s, p) {
        lemma_real_prefix(s, t, q);
    }
}

proof fn lemma_coord_prefix(s: Seq<u8>, t: Seq<u8>, p: int)
    requires
        is_prefix(s, t),
        0 <= p,
    ensures
        parse_coord(s, p) matches Parsed::Done(_, q) ==> p < q <= s.len(),
        !(parse_coord(s, p) is Incomplete) ==> parse_coord(t, p) == parse_coord(s, p),
{
    lemma_head_prefix(s, t, p);
    if let Parsed::Done(h, q) = parse_head(s, p) {
        lemma_axis_entry_prefix(s, t, q);
        if let Parsed::Done(_, q1) = parse_axis_entry(s, q) {
            lemma_axis_entry_prefix(s, t, q1);
        }
    }
}

proof fn lemma_source_id_prefix(s: Seq<u8>, t: Seq<u8>, p: int)
    requires
        is_prefix(s, t),
        0 <= p,
    ensures
        parse_source_id(s, p) matches Parsed::Done(_, q) ==> p < q <= s.len(),
        !(parse_source_id(s, p) is Incomplete) ==> parse_source_id(t, p) == parse_source_id(s, p),
{
    lemma_head_prefix(s, t, p);
    if let Parsed::Done(h, q) = parse_head(s, p) {
        if q + 16 <= s.len() {
            lemma_be_prefix(s, t, q, 16);
        }
    }
}

proof fn lemma_value_prefix(s: Seq<u8>, t: Seq<u8>, p: int, f: Field, acc: Fields)
    requires
        is_prefix(s, t),
        0 <= p,
    ensures
        parse_value(s, p, f, acc) matches Parsed::Done(_, q) ==> p < q <= s.len(),
        !(parse_value(s, p, f, acc) is Incomplete) ==> parse_value(t, p, f, acc) == parse_value(
            s,
            p,
            f,
            acc,
        ),
{
    lemma_head_prefix(s, t, p);
    lemma_real_prefix(s, t, p);
    lemma_coord_prefix(s, t, p);
    lemma_source_id_prefix(s, t, p);
}

proof fn lemma_entry_prefix(s: Seq<u8>, t: Seq<u8>, p: int, acc: Fields)
    requires
        is_prefix(s, t),
        0 <= p,
    ensures
        parse_entry(s, p, acc) matches Parsed::Done(_, q) ==> p < q <= s.len(),
        !(parse_entry(s, p, acc) is Incomplete) ==> parse_entry(t, p, acc) == parse_entry(
            s,
            p,
            acc,
        ),
{
    reveal(parse_entry);
    lemma_key_prefix(s, t, p);
    if let Parsed::Done(f, q) = parse_key(s, p) {
        lemma_value_prefix(s, t, q, f, acc);
    }
}

proof fn lemma_entries_prefix(s: Seq<u8>, t: Seq<u8>, p: int, n: nat, acc: Fields)
    requires
        is_prefix(s, t),
        0 <= p <= s.len(),
    ensures
        parse_entries(s, p, n, acc) matches Parsed::Done(_, q) ==> p <= q <= s.len(),
        !(parse_entries(s, p, n, acc) is Incomplete) ==> parse_entries(t, p, n, acc)
            == parse_entries(s, p, n, acc),
    decreases n,
{
    if n > 0 {
        lemma_entry_prefix(s, t, p, acc);
        if let Parsed::Done(a, q) = parse_entry(s, p, acc) {
            lemma_entries_prefix(s, t, q, (n - 1) as nat, a);
        }
    }
}

/// What decides a record is all in the bytes read so far: a record decoded
/// from the start of a stream takes at least one byte and no more than the
/// stream holds, and once the bytes read so far give a record or are found
/// malformed, no later bytes change that.
pub proof fn lemma_status_prefix(s: Seq<u8>, t: Seq<u8>)
    requires
        is_prefix(s, t),
    ensures
        parse_status(s) matches Parsed::Done(_, n) ==> 0 < n <= s.len(),
        !(parse_status(s) is Incomplete) ==> parse_status(t) == parse_status(s),
{
    lemma_head_prefix(s, t, 0);
    if let Parsed::Done(h, q) = parse_head(s, 0) {
        lemma_entries_prefix(s, t, q, h.arg as nat, no_fields());
    }
}

/// The outcome of decoding a buffer record by record: the records, the bytes
/// left over, and whether decoding stopped at malformed bytes.
pub struct Drained {
    pub records: Seq<Status>,
    pub rest: Seq<u8>,
    pub failed: bool,
}

/// Decodes records from the front of `buf` until the bytes end inside one
/// or cannot begin one.
pub open spec fn drain(buf: Seq<u8>) -> Drained
    decreases buf.len(),
{
    match parse_status(buf) {
        Parsed::Done(st, n) => {
            if 0 < n <= buf.len() {
                let d = drain(buf.subrange(n, buf.len() as int));
                Drained { records: seq![st] + d.records, rest: d.rest, failed: d.failed }
            } else {
                Drained { records: seq![], rest: buf, failed: true }
            }
        },
        Parsed::Incomplete => Drained { records: seq![], rest: buf, failed: false },
        Parsed::Invalid => Drained { records: seq![], rest: buf, failed: true },
    }
}

/// One read of `chunk` on a connection in state `d`: the chunk is appended
/// to the bytes left over and the buffer is decoded again. A connection that
/// met malformed bytes reads no more.
pub open spec fn feed(d: Drained, chunk: Seq<u8>) -> Drained {
    if d.failed {
        d
    } else {
        let e = drain(d.rest + chunk);
        Drained { records: d.records + e.records, rest: e.rest, failed: e.failed }
    }
}

/// The state of a connection after reading each of `chunks` in turn.
pub open spec fn feed_all(chunks: Seq<Seq<u8>>) -> Drained
    decreases chunks.len(),
{
    if chunks.len() == 0 {
        Drained { records: seq![], rest: seq![], failed: false }
    } else {
        feed(feed_all(chunks.drop_last()), chunks.last())
    }
}

/// The bytes of `chunks` one after another.
pub open spec fn concat(chunks: Seq<Seq<u8>>) -> Seq<u8>
    decreases chunks.len(),
{
    if chunks.len() == 0 {
        seq![]
    } else {
        concat(chunks.drop_last()) + chunks.last()
    }
}

proof fn lemma_drain_append(x: Seq<u8>, c: Seq<u8>)
    ensures
        ({
            let d = drain(x);
            let whole = drain(x + c);
            if d.failed {
                whole.records == d.records && whole.failed
            } else {
                let e = drain(d.rest + c);
                &&& whole.records == d.records + e.records
                &&& whole.rest == e.rest
                &&& whole.failed == e.failed
            }
        }),
    decreases x.len(),
{
    let xc = x + c;
    assert(is_prefix(x, xc));
    lemma_status_prefix(x, xc);
    match parse_status(x) {
        Parsed::Done(st, n) => {
            let tail = x.subrange(n, x.len() as int);
            assert(xc.subrange(n, xc.len() as int) =~= tail + c);
            lemma_drain_append(tail, c);
            let d = drain(tail);
            if !d.failed {
                let e = drain(d.rest + c);
                assert(seq![st] + d.records + e.records =~= seq![st] + (d.records + e.records));
            }
        },
        Parsed::Incomplete => {
            let whole = drain(xc);
            assert(seq![] + whole.records =~= whole.records);
        },
        Parsed::Invalid => {},
    }
}

/// Reading a stream in any number of pieces decodes the same records, stops
/// at malformed bytes alike, and, short of that, leaves the same bytes
/// waiting, as reading it all at once.
pub proof fn lemma_split_reads(chunks: Seq<Seq<u8>>)
    ensures
        feed_all(chunks).records == drain(concat(chunks)).records,
        feed_all(chunks).failed == drain(concat(chunks)).failed,
        !feed_all(chunks).failed ==> feed_all(chunks).rest == drain(concat(chunks)).rest,
    decreases chunks.len(),
{
    if chunks.len() == 0 {
        assert(parse_head(seq![], 0) is Incomplete);
    } else {
        let front = chunks.drop_last();
        let c = chunks.last();
        lemma_split_reads(front);
        let before = drain(concat(front));
        lemma_drain_append(concat(front), c);
        if !before.failed {
            let e = drain(before.rest + c);
            assert(feed_all(chunks).records =~= before.records + e.records);
        }
    }
}

} // verus!
