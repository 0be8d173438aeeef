//! Base-128 varints and field skipping in the protobuf wire format.

use vstd::arithmetic::power2::{
    lemma2_to64, lemma2_to64_rest, lemma_pow2_adds, lemma_pow2_pos, lemma_pow2_strictly_increases, pow2,
};
use vstd::bits::lemma_u64_shl_is_mul;
use vstd::prelude::*;

verus! {

/// A byte with its high bit set announces that the varint goes on.
pub open spec fn continues(b: u8) -> bool {
    b >= 0x80
}

/// The longest varint that a 64-bit value takes, in bytes.
pub open spec fn max_varint_len() -> int {
    10
}

/// Value of the little-endian base-128 digits in `bytes`: the low seven bits
/// of byte `i` weigh `2^(7 i)`.
pub open spec fn varint_value(bytes: Seq<u8>) -> nat
    decreases bytes.len(),
{
    if bytes.len() == 0 {
        0
    } else {
        varint_value(bytes.drop_last()) + (bytes.last() % 128) as nat * pow2(
            (7 * (bytes.len() - 1)) as nat,
        )
    }
}

/// The varint that starts at `start` takes the bytes `start .. end`: all but
/// the last one continue it, the last one ends it, and there are at most ten.
pub open spec fn varint_ends_at(data: Seq<u8>, start: int, end: int) -> bool {
    &&& 0 <= start < end <= data.len()
    &&& end - start <= max_varint_len()
    &&& forall|i: int| start <= i < end - 1 ==> continues(#[trigger] data[i])
    &&& !continues(data[end - 1])
}

/// What reading a varint at `start` gives: its value, truncated to 64 bits,
/// where one ends within ten bytes, and the position where reading stops.
/// Without a value, reading stops at `start` when nothing is left there,
/// after ten continuing bytes, or at the end of the data.
pub open spec fn varint_decode(data: Seq<u8>, start: int) -> (Option<u64>, int) {
    if exists|end: int| varint_ends_at(data, start, end) {
        let end = choose|end: int| varint_ends_at(data, start, end);
        (Some((varint_value(data.subrange(start, end)) % pow2(64)) as u64), end)
    } else if start >= data.len() {
        (None, start)
    } else if data.len() - start >= max_varint_len() {
        (None, start + max_varint_len())
    } else {
        (None, data.len() as int)
    }
}

/// A varint has one end at most.
pub proof fn lemma_varint_end_unique(data: Seq<u8>, start: int, e1: int, e2: int)
    requires
        varint_ends_at(data, start, e1),
        varint_ends_at(data, start, e2),
    ensures
        e1 == e2,
{
    if e1 < e2 {
        assert(continues(data[e1 - 1]));
    } else if e2 < e1 {
        assert(continues(data[e2 - 1]));
    }
}

proof fn lemma_step_value(bytes: Seq<u8>, b: u8)
    ensures
        varint_value(bytes.push(b)) == varint_value(bytes) + (b % 128) as nat * pow2(
            (7 * bytes.len()) as nat,
        ),
{
    assert(bytes.push(b).drop_last() =~= bytes);
}

/// Reads the varint at `*offset` and moves `*offset` past what was read.
pub fn decode_varint(data: &[u8], offset: &mut usize) -> (res: Option<u64>)
    ensures
        (res, *final(offset) as int) == varint_decode(data@, *old(offset) as int),
{
    let ghost start: int = *offset as int;
    let mut result: u64 = 0;
    let mut shift: u64 = 0;
    if *offset >= data.len() {
        return None;
    }
    proof {
        assert(data@.subrange(start, start) =~= Seq::<u8>::empty());
        lemma2_to64();
        lemma2_to64_rest();
    }
    loop
        invariant
            start == *old(offset),
            start < data.len(),
            start <= *offset <= data.len(),
            *offset - start <= 9,
            shift == 7 * (*offset - start),
            forall|i: int| start <= i < *offset ==> continues(#[trigger] data@[i]),
            result as nat == varint_value(data@.subrange(start, *offset as int)),
            result < pow2(shift as nat),
        decreases data.len() - *offset,
    {
        if *offset >= data.len() {
            proof {
                assert forall|end: int| !varint_ends_at(data@, start, end) by {
                    if varint_ends_at(data@, start, end) {
                        assert(continues(data@[end - 1]));
                    }
                }
                assert(start < data.len());
                assert(*offset == data.len());
                assert(data.len() - start < max_varint_len());
                assert(varint_decode(data@, start) == (None::<u64>, data.len() as int));
            }
            return None;
        }
        let pos = *offset;
        let byte = data[pos];
        let ghost prev = data@.subrange(start, pos as int);
        *offset = pos + 1;
        let digit: u64 = (byte & 0x7F) as u64;
        assert(digit == byte % 128) by (bit_vector)
            requires digit == (byte & 0x7F) as u64;
        proof {
            assert(data@.subrange(start, pos + 1) =~= prev.push(byte));
            lemma_step_value(prev, byte);
            lemma_pow2_pos(shift as nat);
            lemma2_to64();
            lemma2_to64_rest();
        }
        if shift < 63 {
            proof {
                assert(pow2(shift as nat) <= pow2(56)) by {
                    if shift < 56 {
                        vstd::arithmetic::power2::lemma_pow2_strictly_increases(shift as nat, 56);
                    }
                }
                assert(digit * pow2(shift as nat) <= 127 * pow2(56)) by (nonlinear_arith)
                    requires digit < 128, pow2(shift as nat) <= pow2(56);
                lemma_u64_shl_is_mul(digit, shift);
                lemma_u64_shl_is_mul(1, shift);
                let r = result;
                assert(r < (1u64 << shift) && shift <= 56 && digit < 128 ==> (r | (digit << shift))
                    == r + (digit << shift) && r + (digit << shift) < (1u64 << (shift + 7))) by (bit_vector);
                lemma_u64_shl_is_mul(1, (shift + 7) as u64);
                lemma_pow2_adds(shift as nat, 7);
            }
        } else {
            proof {
                let r = result;
                assert(r < 0x8000000000000000u64 && digit < 128 ==> (r | (digit << 63u64)) == r + (
                digit % 2) * 0x8000000000000000u64) by (bit_vector);
            }
        }
        result |= digit << shift;
        if byte & 0x80 == 0 {
            assert(byte & 0x80 == 0 ==> byte < 0x80) by (bit_vector);
            proof {
                let end = *offset as int;
                assert(varint_ends_at(data@, start, end));
                let e = choose|e: int| varint_ends_at(data@, start, e);
                lemma_varint_end_unique(data@, start, e, end);
                let v = varint_value(data@.subrange(start, end));
                if shift < 63 {
                    assert(v < pow2(64)) by {
                        lemma_pow2_adds(shift as nat, 7);
                    }
                    vstd::arithmetic::div_mod::lemma_small_mod(v, pow2(64));
                } else {
                    let q = (byte % 128) / 2;
                    assert(pow2(64) == 2 * pow2(63));
                    assert((byte % 128) as nat * pow2(63) == (byte % 2) as nat * pow2(63) + q * pow2(64)) by (nonlinear_arith)
                        requires pow2(64) == 2 * pow2(63), q == (byte % 128) / 2;
                    vstd::arithmetic::div_mod::lemma_mod_multiples_vanish(q as int, (result as nat) as int, pow2(64) as int);
                    vstd::arithmetic::div_mod::lemma_small_mod(result as nat, pow2(64));
                }
            }
            return Some(result);
        }
        assert(byte & 0x80 != 0 ==> byte >= 0x80) by (bit_vector);
        shift += 7;
        if shift >= 64 {
            proof {
                assert forall|end: int| !varint_ends_at(data@, start, end) by {
                    if varint_ends_at(data@, start, end) {
                        assert(continues(data@[end - 1]));
                    }
                }
            }
            return None;
        }
    }
}

/// Reading a varint never moves backwards, and moves forward from any
/// position inside the data.
pub proof fn lemma_decode_advances(data: Seq<u8>, start: int)
    requires
        0 <= start,
    ensures
        varint_decode(data, start).1 >= start,
        start < data.len() ==> varint_decode(data, start).1 > start,
        varint_decode(data, start).1 <= start + max_varint_len(),
        start <= data.len() ==> varint_decode(data, start).1 <= data.len(),
        varint_decode(data, start).0 is Some ==> varint_decode(data, start).1 > start,
{
    if exists|end: int| varint_ends_at(data, start, end) {
        let end = choose|end: int| varint_ends_at(data, start, end);
        assert(varint_ends_at(data, start, end));
    }
}

/// Wire type of a length-delimited field.
pub open spec fn wire_len() -> u64 {
    2
}

/// What skipping a field of wire type `wire_type`, whose payload starts at
/// `start`, does: whether it succeeds and where the offset ends up. A varint
/// payload is read; a 64-bit or 32-bit payload moves the offset by eight or
/// four bytes; a length-delimited payload moves it past the length and the
/// bytes that the length counts (the length taken as a `usize`); any other
/// wire type fails in place. Success means that the offset stays within the
/// data. `None` where the new offset does not fit in a `usize`.
pub open spec fn skip_outcome(wire_type: u64, data: Seq<u8>, start: int) -> Option<(bool, int)> {
    if wire_type == 0 {
        let (v, end) = varint_decode(data, start);
        Some((v is Some, end))
    } else if wire_type == 1 || wire_type == 5 {
        let end = if wire_type == 1 { start + 8 } else { start + 4 };
        if end > usize::MAX {
            None
        } else {
            Some((end <= data.len(), end))
        }
    } else if wire_type == wire_len() {
        let (v, after) = varint_decode(data, start);
        match v {
            None => Some((false, after)),
            Some(len) => {
                let end = after + (len as usize) as int;
                if end > usize::MAX {
                    None
                } else {
                    Some((end <= data.len(), end))
                }
            },
        }
    } else {
        Some((false, start))
    }
}

/// Skips the field payload at `*offset`, and returns `None` exactly where the
/// new offset would not fit in a `usize`.
pub(crate) fn skip_field_checked(wire_type: u64, data: &[u8], offset: &mut usize) -> (res: Option<
    bool,
>)
    ensures
        match skip_outcome(wire_type, data@, *old(offset) as int) {
            None => res is None,
            Some((ok, end)) => res == Some(ok) && *final(offset) as int == end,
        },
{
    match wire_type {
        0 => Some(decode_varint(data, offset).is_some()),
        1 => {
            if *offset > usize::MAX - 8 {
                return None;
            }
            *offset += 8;
            Some(*offset <= data.len())
        },
        2 => {
            if let Some(len) = decode_varint(data, offset) {
                let n = len as usize;
                if n > usize::MAX - *offset {
                    return None;
                }
                *offset += n;
                Some(*offset <= data.len())
            } else {
                Some(false)
            }
        },
        5 => {
            if *offset > usize::MAX - 4 {
                return None;
            }
            *offset += 4;
            Some(*offset <= data.len())
        },
        _ => Some(false),
    }
}

/// Skips the payload of a field of wire type `wire_type` that starts at
/// `*offset`; `false` when the wire type is unknown or the payload does not
/// lie within the data.
pub fn skip_field(wire_type: u64, data: &[u8], offset: &mut usize) -> (res: bool)
    requires
        skip_outcome(wire_type, data@, *old(offset) as int) is Some,
    ensures
        skip_outcome(wire_type, data@, *old(offset) as int) == Some((res, *final(offset) as int)),
{
    match skip_field_checked(wire_type, data, offset) {
        Some(ok) => ok,
        None => false,
    }
}

/// The protobuf encoding of `v`: its base-128 digits from the lowest, each
/// byte but the last with its high bit set.
pub open spec fn varint_encoding(v: nat) -> Seq<u8>
    decreases v,
{
    if v < 128 {
        seq![v as u8]
    } else {
        seq![(v % 128 + 128) as u8] + varint_encoding(v / 128)
    }
}

proof fn lemma_value_prepend(b: u8, s: Seq<u8>)
    ensures
        varint_value(seq![b] + s) == (b % 128) as nat + 128 * varint_value(s),
    decreases s.len(),
{
    if s.len() == 0 {
        assert(seq![b] + s =~= seq![b]);
        assert(seq![b].drop_last() =~= Seq::<u8>::empty());
        lemma2_to64();
        assert(varint_value(Seq::<u8>::empty()) == 0);
        assert(varint_value(seq![b]) == (b % 128) as nat * pow2(0));
    } else {
        let t = seq![b] + s;
        assert(t.drop_last() =~= seq![b] + s.drop_last());
        lemma_value_prepend(b, s.drop_last());
        let k = (7 * (s.len() - 1)) as nat;
        lemma_pow2_adds(7, k);
        lemma2_to64();
        assert(pow2((7 * s.len()) as nat) == 128 * pow2(k)) by (nonlinear_arith)
            requires
                pow2(7 + k) == pow2(7) * pow2(k),
                pow2(7) == 128,
                7 * s.len() == 7 + k,
        ;
        let d = (s.last() % 128) as nat;
        assert(t.last() == s.last());
        assert(t.len() - 1 == s.len());
        assert(varint_value(t) == varint_value(t.drop_last()) + d * pow2((7 * s.len()) as nat));
        assert(varint_value(s) == varint_value(s.drop_last()) + d * pow2(k));
        assert(d * (128 * pow2(k)) == 128 * (d * pow2(k))) by (nonlinear_arith);
        assert(128 * varint_value(s) == 128 * varint_value(s.drop_last()) + 128 * (d * pow2(k)))
            by (nonlinear_arith)
            requires
                varint_value(s) == varint_value(s.drop_last()) + d * pow2(k),
        ;
    }
}

proof fn lemma_encoding_value(v: nat)
    ensures
        varint_value(varint_encoding(v)) == v,
    decreases v,
{
    if v < 128 {
        assert(seq![v as u8].drop_last() =~= Seq::<u8>::empty());
        lemma2_to64();
        assert(varint_value(Seq::<u8>::empty()) == 0);
        assert(varint_value(seq![v as u8]) == ((v as u8) % 128) as nat * pow2(0));
    } else {
        lemma_encoding_value(v / 128);
        let b = (v % 128 + 128) as u8;
        lemma_value_prepend(b, varint_encoding(v / 128));
        assert(b % 128 == v % 128);
        assert(v == v % 128 + 128 * (v / 128));
    }
}

proof fn lemma_encoding_shape(v: nat)
    ensures
        varint_encoding(v).len() >= 1,
        forall|i: int|
            0 <= i < varint_encoding(v).len() - 1 ==> continues(#[trigger] varint_encoding(v)[i]),
        !continues(varint_encoding(v).last()),
    decreases v,
{
    if v >= 128 {
        lemma_encoding_shape(v / 128);
        let e = varint_encoding(v);
        let r = varint_encoding(v / 128);
        assert forall|i: int| 0 <= i < e.len() - 1 implies continues(#[trigger] e[i]) by {
            if i > 0 {
                assert(e[i] == r[i - 1]);
            }
        }
    }
}

proof fn lemma_encoding_len(v: nat, k: nat)
    requires
        k >= 1,
        v < pow2(7 * k),
    ensures
        varint_encoding(v).len() <= k,
    decreases v,
{
    if v >= 128 {
        lemma2_to64();
        if k == 1 {
            assert(false);
        }
        let j = (k - 1) as nat;
        lemma_pow2_adds(7, 7 * j);
        assert(7 * k == 7 + 7 * j);
        assert(v / 128 < pow2(7 * j)) by (nonlinear_arith)
            requires
                v < pow2(7) * pow2(7 * j),
                pow2(7) == 128,
        ;
        lemma_encoding_len(v / 128, j);
    }
}

/// Reading a varint gives back any 64-bit value from its protobuf encoding,
/// whatever follows it, and stops right after the encoding.
pub proof fn lemma_decode_encoding(v: u64, rest: Seq<u8>)
    ensures
        varint_decode(varint_encoding(v as nat) + rest, 0) == (
            Some(v),
            varint_encoding(v as nat).len() as int,
        ),
{
    let e = varint_encoding(v as nat);
    let d = e + rest;
    let n = e.len() as int;
    lemma_encoding_shape(v as nat);
    lemma2_to64();
    lemma2_to64_rest();
    lemma_pow2_strictly_increases(64, 70);
    lemma_encoding_len(v as nat, 10);
    assert forall|i: int| 0 <= i < n - 1 implies continues(#[trigger] d[i]) by {
        assert(d[i] == e[i]);
    }
    assert(d[n - 1] == e.last());
    assert(varint_ends_at(d, 0, n));
    let end = choose|end: int| varint_ends_at(d, 0, end);
    lemma_varint_end_unique(d, 0, end, n);
    assert(d.subrange(0, n) =~= e);
    lemma_encoding_value(v as nat);
    vstd::arithmetic::div_mod::lemma_small_mod(v as nat, pow2(64));
}

/// Once a varint ends within the data, what follows the data does not change
/// what reading it gives.
pub proof fn lemma_decode_ignores_what_follows(data: Seq<u8>, more: Seq<u8>, start: int)
    requires
        varint_decode(data, start).0 is Some,
    ensures
        varint_decode(data + more, start) == varint_decode(data, start),
{
    let end = choose|end: int| varint_ends_at(data, start, end);
    let d = data + more;
    assert(varint_ends_at(d, start, end)) by {
        assert forall|i: int| start <= i < end - 1 implies continues(#[trigger] d[i]) by {
            assert(d[i] == data[i]);
        }
        assert(d[end - 1] == data[end - 1]);
    }
    let e2 = choose|e: int| varint_ends_at(d, start, e);
    lemma_varint_end_unique(d, start, e2, end);
    assert(d.subrange(start, end) =~= data.subrange(start, end));
}

/// A field that is skipped successfully moves the offset forward, and not
/// past the end of the data.
pub proof fn lemma_skip_success_advances(wire_type: u64, data: Seq<u8>, start: int)
    requires
        0 <= start,
        skip_outcome(wire_type, data, start) matches Some((ok, _)) && ok,
    ensures
        skip_outcome(wire_type, data, start) matches Some((_, end)) && start < end <= data.len(),
{
    lemma_decode_advances(data, start);
}

/// Skipping a field moves the offset exactly past its payload, and succeeds
/// exactly when the payload lies within the data: a varint payload is read
/// whole; a 64-bit or 32-bit payload is eight or four bytes; and a
/// length-delimited payload is its length varint followed by that many bytes.
pub proof fn lemma_skip_field_moves_past_payload(wire_type: u64, data: Seq<u8>, start: int)
    requires
        0 <= start <= usize::MAX,
        data.len() <= usize::MAX,
    ensures
        wire_type == 0 ==> skip_outcome(wire_type, data, start) == Some(
            (varint_decode(data, start).0 is Some, varint_decode(data, start).1),
        ),
        wire_type == 1 && start + 8 <= usize::MAX ==> skip_outcome(wire_type, data, start) == Some(
            (start + 8 <= data.len(), start + 8),
        ),
        wire_type == 5 && start + 4 <= usize::MAX ==> skip_outcome(wire_type, data, start) == Some(
            (start + 4 <= data.len(), start + 4),
        ),
        varint_decode(data, start).0 matches Some(len) ==> (wire_type == 2 && varint_decode(
            data,
            start,
        ).1 + len <= data.len() ==> skip_outcome(wire_type, data, start) == Some(
            (true, varint_decode(data, start).1 + len),
        )),
        varint_decode(data, start).0 matches Some(len) ==> (wire_type == 2 && data.len()
            < varint_decode(data, start).1 + (len as usize) <= usize::MAX ==> skip_outcome(
            wire_type,
            data,
            start,
        ) == Some((false, varint_decode(data, start).1 + (len as usize)))),
        wire_type == 2 && varint_decode(data, start).0 is None ==> skip_outcome(
            wire_type,
            data,
            start,
        ) == Some((false, varint_decode(data, start).1)),
        !(wire_type == 0 || wire_type == 1 || wire_type == 2 || wire_type == 5) ==> skip_outcome(
            wire_type,
            data,
            start,
        ) == Some((false, start)),
{
    lemma_decode_advances(data, start);
    if let Some(len) = varint_decode(data, start).0 {
        if varint_decode(data, start).1 + len <= data.len() {
            assert(len <= usize::MAX);
            assert((len as usize) as int == len);
        }
    }
}

/// Reading a varint gives a value exactly when one of the first ten bytes
/// from `start` (within the data) has its high bit clear, and then stops
/// right after the first such byte; without a value it stops after ten
/// bytes, at the end of the data, or, with nothing to read, where it began.
pub proof fn lemma_decode_stops_at_first_clear_byte(data: Seq<u8>, start: int)
    requires
        0 <= start,
    ensures
        varint_decode(data, start).0 is Some <==> exists|i: int|
            start <= i < data.len() && i < start + 10 && #[trigger] data[i] < 0x80,
        varint_decode(data, start).0 is Some ==> {
            let end = varint_decode(data, start).1;
            &&& start < end <= data.len()
            &&& data[end - 1] < 0x80
            &&& forall|i: int| start <= i < end - 1 ==> #[trigger] data[i] >= 0x80
        },
        varint_decode(data, start).0 is None ==> varint_decode(data, start).1 == if start
            >= data.len() {
            start
        } else if start + 10 <= data.len() {
            start + 10
        } else {
            data.len() as int
        },
{
    if exists|i: int| start <= i < data.len() && i < start + 10 && #[trigger] data[i] < 0x80 {
        let i = choose|i: int| start <= i < data.len() && i < start + 10 && #[trigger] data[i] < 0x80;
        let first = lemma_first_clear(data, start, i);
        assert(varint_ends_at(data, start, first + 1));
        let e = choose|e: int| varint_ends_at(data, start, e);
        lemma_varint_end_unique(data, start, e, first + 1);
    } else {
        assert forall|e: int| !varint_ends_at(data, start, e) by {
            if varint_ends_at(data, start, e) {
                assert(data[e - 1] < 0x80);
            }
        }
    }
}

proof fn lemma_first_clear(data: Seq<u8>, start: int, i: int) -> (first: int)
    requires
        0 <= start <= i < data.len(),
        data[i] < 0x80,
    ensures
        start <= first <= i,
        data[first] < 0x80,
        forall|j: int| start <= j < first ==> #[trigger] data[j] >= 0x80,
    decreases i - start,
{
    if data[start] < 0x80 {
        start
    } else {
        lemma_first_clear(data, start + 1, i)
    }
}

/// Reading a varint where the protobuf encoding of `v` stands, whatever
/// comes before and after it, gives `v` and stops right after it.
pub proof fn lemma_decode_encoding_at(pre: Seq<u8>, v: u64, rest: Seq<u8>)
    ensures
        varint_decode(pre + varint_encoding(v as nat) + rest, pre.len() as int) == (
            Some(v),
            (pre.len() + varint_encoding(v as nat).len()) as int,
        ),
{
    let e = varint_encoding(v as nat);
    lemma_decode_encoding(v, rest);
    let inner = e + rest;
    let d = pre + e + rest;
    let p = pre.len() as int;
    let n = e.len() as int;
    assert(varint_ends_at(inner, 0, n)) by {
        let end = choose|end: int| varint_ends_at(inner, 0, end);
        assert(varint_ends_at(inner, 0, end));
    }
    assert forall|i: int| 0 <= i < inner.len() implies #[trigger] d[p + i] == inner[i] by {}
    assert(varint_ends_at(d, p, p + n)) by {
        assert forall|i: int| p <= i < p + n - 1 implies continues(#[trigger] d[i]) by {
            assert(d[i] == inner[i - p]);
        }
        assert(d[p + n - 1] == inner[n - 1]);
    }
    let end = choose|end: int| varint_ends_at(d, p, end);
    lemma_varint_end_unique(d, p, end, p + n);
    assert(d.subrange(p, p + n) =~= inner.subrange(0, n));
}

} // verus!
