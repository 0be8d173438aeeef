//! Danmaku segments: protobuf messages whose field 1 holds the danmaku
//! elements, each with its time (field 2), colour (field 5) and text
//! (field 7).

use crate::text::{lossy_utf8, utf8_lossy};
use crate::varint::{
    decode_varint, lemma_decode_advances, lemma_decode_encoding_at, skip_field_checked, skip_outcome,
    varint_decode, varint_encoding, wire_len,
};
use vstd::prelude::*;
use vstd::slice::slice_subrange;

verus! {

/// The fields of one danmaku element that the viewer reads: the time in
/// milliseconds, the colour as `0xRRGGBB`, and the byte range of the text.
#[derive(Clone, Copy, Debug, PartialEq, Eq)]
pub struct DmFields {
    pub progress: u64,
    pub color: u64,
    pub text: Option<(usize, usize)>,
}

/// The colour that an element has when it names none: white.
pub open spec fn default_color() -> u64 {
    0xFFFFFF
}

/// What an element holds before any of its fields is read.
pub open spec fn default_fields() -> DmFields {
    DmFields { progress: 0, color: default_color(), text: None }
}

/// The number of the field that a protobuf key names.
pub open spec fn key_field(key: u64) -> u64 {
    key / 8
}

/// The wire type that a protobuf key names.
pub open spec fn key_wire(key: u64) -> u64 {
    key % 8
}

/// What the field whose key is `key` and whose payload starts at `pos` does
/// to the fields read so far: whether reading goes on, where, and with which
/// fields; `None` where an offset would not fit in a `usize`. The time and
/// the colour are varints, replaced by 0 and white where they cannot be read;
/// the text is length-delimited (a length that cannot be read counts as 0),
/// and is taken only where it lies within the data; other fields are skipped.
pub open spec fn elem_field_step(data: Seq<u8>, key: u64, pos: int, f: DmFields) -> Option<
    (bool, int, DmFields),
> {
    let field = key_field(key);
    let wire = key_wire(key);
    let (v, after) = varint_decode(data, pos);
    if field == 2 && wire == 0 {
        let progress = match v {
            Some(x) => x,
            None => 0,
        };
        Some((true, after, DmFields { progress, ..f }))
    } else if field == 5 && wire == 0 {
        let color = match v {
            Some(x) => x,
            None => default_color(),
        };
        Some((true, after, DmFields { color, ..f }))
    } else if field == 7 && wire == wire_len() {
        let len: u64 = match v {
            Some(x) => x,
            None => 0,
        };
        let end = after + (len as usize) as int;
        if end > usize::MAX {
            None
        } else if end <= data.len() {
            Some((true, end, DmFields { text: Some((after as usize, end as usize)), ..f }))
        } else {
            Some((true, end, f))
        }
    } else {
        match skip_outcome(wire, data, pos) {
            None => None,
            Some((ok, end)) => Some((ok, end, f)),
        }
    }
}

/// A field never moves reading backwards.
pub proof fn lemma_field_step_advances(data: Seq<u8>, key: u64, pos: int, f: DmFields)
    requires
        0 <= pos,
    ensures
        elem_field_step(data, key, pos, f) matches Some((_, next, _)) ==> next >= pos,
{
    lemma_decode_advances(data, pos);
}

/// How many bytes of `data` lie at or after `offset`.
pub open spec fn remaining(data: Seq<u8>, offset: int) -> nat {
    if offset < data.len() {
        (data.len() - offset) as nat
    } else {
        0
    }
}

/// The fields of the element `data` read from `offset` on, starting from
/// `fields`: one field after another until the data ends, a key cannot be
/// read, or a field cannot be skipped. `None` where an offset would not fit
/// in a `usize`.
pub open spec fn elem_scan(data: Seq<u8>, offset: int, fields: DmFields) -> Option<DmFields>
    decreases remaining(data, offset),
{
    if offset < 0 || offset >= data.len() {
        Some(fields)
    } else {
        let (k, after_key) = varint_decode(data, offset);
        match k {
            None => Some(fields),
            Some(key) => match elem_field_step(data, key, after_key, fields) {
                None => None,
                Some((more, next, f)) => if more {
                    proof {
                        lemma_decode_advances(data, offset);
                        lemma_field_step_advances(data, key, after_key, fields);
                    }
                    elem_scan(data, next, f)
                } else {
                    Some(f)
                },
            },
        }
    }
}

/// Reads the time, colour and text range of the danmaku element `data`;
/// `None` exactly where an offset would not fit in a `usize`.
pub fn scan_dm_elem(data: &[u8]) -> (res: Option<DmFields>)
    ensures
        res == elem_scan(data@, 0, default_fields()),
{
    let mut offset: usize = 0;
    let mut fields = DmFields { progress: 0, color: 16777215, text: None };
    while offset < data.len()
        invariant
            elem_scan(data@, 0, default_fields()) == elem_scan(data@, offset as int, fields),
        decreases remaining(data@, offset as int),
    {
        let ghost start = offset as int;
        let ghost before = fields;
        let key = match decode_varint(data, &mut offset) {
            Some(k) => k,
            None => return Some(fields),
        };
        let ghost after_key = offset as int;
        let wire_type = key & 0x07;
        let field_number = key >> 3;
        assert(wire_type == key % 8 && field_number == key / 8) by (bit_vector)
            requires wire_type == key & 0x07, field_number == key >> 3;
        proof {
            lemma_decode_advances(data@, start);
        }
        if field_number == 2 && wire_type == 0 {
            fields.progress = match decode_varint(data, &mut offset) {
                Some(v) => v,
                None => 0,
            };
        } else if field_number == 5 && wire_type == 0 {
            fields.color = match decode_varint(data, &mut offset) {
                Some(v) => v,
                None => 16777215,
            };
        } else if field_number == 7 && wire_type == 2 {
            let len = match decode_varint(data, &mut offset) {
                Some(v) => v,
                None => 0,
            } as usize;
            if len > usize::MAX - offset {
                return None;
            }
            if offset + len <= data.len() {
                fields.text = Some((offset, offset + len));
            }
            offset += len;
        } else {
            match skip_field_checked(wire_type, data, &mut offset) {
                None => return None,
                Some(false) => return Some(fields),
                Some(true) => {},
            }
        }
        proof {
            lemma_field_step_advances(data@, key, after_key, before);
            assert(elem_field_step(data@, key, after_key, before) == Some((true, offset as int, fields)));
        }
    }
    Some(fields)
}

/// The text ranges that the fields hold lie within `data`.
pub open spec fn fields_in_bounds(data: Seq<u8>, f: DmFields) -> bool {
    f.text matches Some((s, e)) ==> s <= e <= data.len()
}

/// Reading an element keeps the text range within the element.
pub proof fn lemma_scan_in_bounds(data: Seq<u8>, offset: int, f: DmFields)
    requires
        fields_in_bounds(data, f),
    ensures
        elem_scan(data, offset, f) matches Some(g) ==> fields_in_bounds(data, g),
    decreases remaining(data, offset),
{
    if 0 <= offset < data.len() {
        let (k, after_key) = varint_decode(data, offset);
        lemma_decode_advances(data, offset);
        if let Some(key) = k {
            lemma_decode_advances(data, after_key);
            lemma_field_step_advances(data, key, after_key, f);
            if let Some((more, next, g)) = elem_field_step(data, key, after_key, f) {
                if more {
                    lemma_scan_in_bounds(data, next, g);
                }
            }
        }
    }
}

/// One danmaku as the viewer shows it: its time in milliseconds, its text and
/// its colour.
#[derive(Clone, Debug)]
pub struct DanmakuData {
    pub progress_ms: u64,
    pub text: String,
    pub red: u8,
    pub green: u8,
    pub blue: u8,
}

/// The mathematical value of a danmaku.
pub ghost struct DanmakuView {
    pub progress_ms: u64,
    pub text: Seq<char>,
    pub red: u8,
    pub green: u8,
    pub blue: u8,
}

impl View for DanmakuData {
    type V = DanmakuView;

    open spec fn view(&self) -> DanmakuView {
        DanmakuView {
            progress_ms: self.progress_ms,
            text: self.text@,
            red: self.red,
            green: self.green,
            blue: self.blue,
        }
    }
}

impl DeepView for DanmakuData {
    type V = DanmakuView;

    open spec fn deep_view(&self) -> DanmakuView {
        self@
    }
}

/// The danmaku that an element with the fields `f` and the decoded text
/// `text` makes: none when the text is empty; otherwise its time, its text,
/// and the red, green and blue bytes of its `0xRRGGBB` colour.
pub open spec fn danmaku_of(f: DmFields, text: Seq<char>) -> Option<DanmakuView> {
    if text.len() == 0 {
        None
    } else {
        Some(
            DanmakuView {
                progress_ms: f.progress,
                text,
                red: ((f.color / 0x10000) % 0x100) as u8,
                green: ((f.color / 0x100) % 0x100) as u8,
                blue: (f.color % 0x100) as u8,
            },
        )
    }
}

/// The decoded text of an element: its last text field that lay within it,
/// decoded lossily as UTF-8; empty when it has none.
pub open spec fn elem_text(data: Seq<u8>, f: DmFields) -> Seq<char> {
    match f.text {
        Some((s, e)) => lossy_utf8(data.subrange(s as int, e as int)),
        None => Seq::empty(),
    }
}

/// The danmaku that the element `data` holds, if any.
pub open spec fn elem_danmaku(data: Seq<u8>) -> Option<DanmakuView> {
    match elem_scan(data, 0, default_fields()) {
        Some(f) => danmaku_of(f, elem_text(data, f)),
        None => None,
    }
}

/// The element `data` reads without an offset overflowing a `usize`.
pub open spec fn elem_parses(data: Seq<u8>) -> bool {
    elem_scan(data, 0, default_fields()) is Some
}

/// The element `data` reads without overflow and its last text field that
/// lies within it is not empty.
pub open spec fn elem_has_text(data: Seq<u8>) -> bool {
    elem_scan(data, 0, default_fields()) matches Some(f) && f.text matches Some((s, e)) && s < e
}

/// The sequence that holds `o`'s value, if any.
pub open spec fn option_seq<T>(o: Option<T>) -> Seq<T> {
    match o {
        Some(x) => seq![x],
        None => Seq::empty(),
    }
}

/// Builds the danmaku of an element from its fields and its decoded text;
/// `None` when the text is empty.
pub fn danmaku_from_fields(fields: &DmFields, text: String) -> (res: Option<DanmakuData>)
    ensures
        match danmaku_of(*fields, text@) {
            None => res is None,
            Some(v) => res matches Some(d) && d@ == v,
        },
{
    if text.as_str().is_empty() {
        return None;
    }
    let color = fields.color;
    let red = ((color >> 16) & 0xFF) as u8;
    let green = ((color >> 8) & 0xFF) as u8;
    let blue = (color & 0xFF) as u8;
    assert(((color >> 16) & 0xFF) == (color / 0x10000) % 0x100 && ((color >> 8) & 0xFF) == (color
        / 0x100) % 0x100 && (color & 0xFF) == color % 0x100) by (bit_vector);
    Some(DanmakuData { progress_ms: fields.progress, text, red, green, blue })
}

/// Parses the danmaku element `data` and appends its danmaku, if it has one,
/// to `danmakus`; `false`, with `danmakus` unchanged, exactly where an offset
/// would overflow a `usize`.
pub fn try_parse_dm_elem(data: &[u8], danmakus: &mut Vec<DanmakuData>) -> (ok: bool)
    ensures
        ok == elem_parses(data@),
        ok ==> final(danmakus).deep_view() == old(danmakus).deep_view() + option_seq(
            elem_danmaku(data@),
        ),
        ok ==> (final(danmakus)@.len() == old(danmakus)@.len() + 1 <==> elem_has_text(data@)),
        !ok ==> final(danmakus)@ == old(danmakus)@,
{
    let fields = match scan_dm_elem(data) {
        Some(f) => f,
        None => return false,
    };
    proof {
        lemma_scan_in_bounds(data@, 0, default_fields());
    }
    let content = match fields.text {
        Some((s, e)) => utf8_lossy(slice_subrange(data, s, e)),
        None => String::new(),
    };
    let ghost before = danmakus.deep_view();
    if let Some(d) = danmaku_from_fields(&fields, content) {
        danmakus.push(d);
        assert(danmakus.deep_view() =~= before + seq![d@]);
    } else {
        assert(danmakus.deep_view() =~= before);
    }
    true
}

/// Parses the danmaku element `data` and appends its danmaku, if it has one,
/// to `danmakus`.
pub fn parse_dm_elem(data: &[u8], danmakus: &mut Vec<DanmakuData>)
    requires
        elem_parses(data@),
    ensures
        final(danmakus).deep_view() == old(danmakus).deep_view() + option_seq(elem_danmaku(data@)),
        final(danmakus)@.len() == old(danmakus)@.len() + 1 <==> elem_has_text(data@),
{
    try_parse_dm_elem(data, danmakus);
}

/// The byte ranges of the elements that the segment `data` holds from
/// `offset` on, in order: each field 1 that is length-delimited and lies
/// within the data is an element, other fields are skipped, and reading stops
/// where a key or a length cannot be read, an element runs past the end, or a
/// field cannot be skipped. `None` where an offset would not fit in a `usize`.
pub open spec fn seg_elems(data: Seq<u8>, offset: int) -> Option<Seq<(int, int)>>
    decreases remaining(data, offset),
{
    if offset < 0 || offset >= data.len() {
        Some(Seq::empty())
    } else {
        let (k, after_key) = varint_decode(data, offset);
        match k {
            None => Some(Seq::empty()),
            Some(key) => if key_field(key) == 1 && key_wire(key) == wire_len() {
                let (l, after_len) = varint_decode(data, after_key);
                match l {
                    None => Some(Seq::empty()),
                    Some(len) => {
                        let end = after_len + (len as usize) as int;
                        if end > usize::MAX {
                            None
                        } else if end > data.len() {
                            Some(Seq::empty())
                        } else {
                            proof {
                                lemma_decode_advances(data, offset);
                                lemma_decode_advances(data, after_key);
                            }
                            match seg_elems(data, end) {
                                None => None,
                                Some(rest) => Some(seq![(after_len, end)] + rest),
                            }
                        }
                    },
                }
            } else {
                match skip_outcome(key_wire(key), data, after_key) {
                    None => None,
                    Some((ok, next)) => if ok {
                        proof {
                            lemma_decode_advances(data, offset);
                            lemma_decode_advances(data, after_key);
                        }
                        seg_elems(data, next)
                    } else {
                        Some(Seq::empty())
                    },
                }
            },
        }
    }
}

/// The danmakus of the elements at `ranges` of `data`, in order.
pub open spec fn ranges_danmakus(data: Seq<u8>, ranges: Seq<(int, int)>) -> Seq<DanmakuView>
    decreases ranges.len(),
{
    if ranges.len() == 0 {
        Seq::empty()
    } else {
        let r = ranges.last();
        ranges_danmakus(data, ranges.drop_last()) + option_seq(
            elem_danmaku(data.subrange(r.0, r.1)),
        )
    }
}

/// The elements at `ranges` of `data` all read without overflow.
pub open spec fn ranges_parse(data: Seq<u8>, ranges: Seq<(int, int)>) -> bool {
    forall|i: int|
        0 <= i < ranges.len() ==> {
            let r = #[trigger] ranges[i];
            &&& 0 <= r.0 <= r.1 <= data.len()
            &&& elem_parses(data.subrange(r.0, r.1))
        }
}

/// The segment `data` and every element in it read without an offset
/// overflowing a `usize`.
pub open spec fn seg_parses(data: Seq<u8>) -> bool {
    match seg_elems(data, 0) {
        Some(ranges) => ranges_parse(data, ranges),
        None => false,
    }
}

/// The danmakus that the segment `data` holds, in order.
pub open spec fn seg_danmakus(data: Seq<u8>) -> Seq<DanmakuView> {
    match seg_elems(data, 0) {
        Some(ranges) => ranges_danmakus(data, ranges),
        None => Seq::empty(),
    }
}

/// What the ranges already read and the rest of the segment give together.
pub open spec fn joined(done: Seq<(int, int)>, rest: Option<Seq<(int, int)>>) -> Option<
    Seq<(int, int)>,
> {
    match rest {
        Some(r) => Some(done + r),
        None => None,
    }
}

proof fn lemma_ranges_push(data: Seq<u8>, done: Seq<(int, int)>, r: (int, int))
    ensures
        ranges_danmakus(data, done.push(r)) == ranges_danmakus(data, done) + option_seq(
            elem_danmaku(data.subrange(r.0, r.1)),
        ),
{
    assert(done.push(r).drop_last() =~= done);
}

/// Parses the danmaku segment `data` and appends its danmakus, in order, to
/// `danmakus`; `false`, with `danmakus` unchanged, exactly where an offset
/// would overflow a `usize`.
#[verifier::rlimit(40)]
pub fn try_parse_seg_so(data: &[u8], danmakus: &mut Vec<DanmakuData>) -> (ok: bool)
    ensures
        ok == seg_parses(data@),
        ok ==> final(danmakus).deep_view() == old(danmakus).deep_view() + seg_danmakus(data@),
        !ok ==> final(danmakus)@ == old(danmakus)@,
{
    let mut found: Vec<DanmakuData> = Vec::new();
    let mut offset: usize = 0;
    let mut finished = false;
    let ghost mut done: Seq<(int, int)> = Seq::empty();
    assert(done + seg_elems(data@, 0).unwrap() =~= seg_elems(data@, 0).unwrap()) by {
        if seg_elems(data@, 0) is Some {
            assert(done + seg_elems(data@, 0).unwrap() =~= seg_elems(data@, 0).unwrap());
        }
    }
    assert(found.deep_view() =~= ranges_danmakus(data@, done));
    while !finished && offset < data.len()
        invariant
            !finished ==> offset <= data.len(),
            !finished ==> seg_elems(data@, 0) == joined(done, seg_elems(data@, offset as int)),
            finished ==> seg_elems(data@, 0) == Some(done),
            ranges_parse(data@, done),
            found.deep_view() == ranges_danmakus(data@, done),
        decreases remaining(data@, offset as int) + if finished { 0int } else { 1int },
    {
        let ghost start = offset as int;
        let key = match decode_varint(data, &mut offset) {
            Some(k) => k,
            None => {
                finished = true;
                assert(done + Seq::<(int, int)>::empty() =~= done);
                continue;
            },
        };
        let ghost after_key = offset as int;
        proof {
            lemma_decode_advances(data@, start);
        }
        let wire_type = key & 0x07;
        let field_number = key >> 3;
        assert(wire_type == key % 8 && field_number == key / 8) by (bit_vector)
            requires wire_type == key & 0x07, field_number == key >> 3;
        if field_number == 1 && wire_type == 2 {
            let len = match decode_varint(data, &mut offset) {
                Some(l) => l,
                None => {
                    finished = true;
                    assert(done + Seq::<(int, int)>::empty() =~= done);
                    continue;
                },
            };
            proof {
                lemma_decode_advances(data@, after_key);
            }
            let n = len as usize;
            if n > usize::MAX - offset {
                return false;
            }
            let end = offset + n;
            if end > data.len() {
                finished = true;
                assert(done + Seq::<(int, int)>::empty() =~= done);
                continue;
            }
            let ghost r = (offset as int, end as int);
            let ghost rest = seg_elems(data@, end as int);
            if !try_parse_dm_elem(slice_subrange(data, offset, end), &mut found) {
                proof {
                    if let Some(tail) = rest {
                        let all = done + seq![r] + tail;
                        assert(all[done.len() as int] == r);
                        assert(seg_elems(data@, 0) == Some(done + (seq![r] + tail)));
                        assert(done + (seq![r] + tail) =~= all);
                    }
                }
                return false;
            }
            proof {
                lemma_ranges_push(data@, done, r);
                if let Some(tail) = rest {
                    assert(done + (seq![r] + tail) =~= done.push(r) + tail);
                }
                done = done.push(r);
            }
            offset = end;
        } else {
            match skip_field_checked(wire_type, data, &mut offset) {
                None => return false,
                Some(false) => {
                    finished = true;
                    assert(done + Seq::<(int, int)>::empty() =~= done);
                },
                Some(true) => {},
            }
        }
    }
    proof {
        if !finished {
            assert(done + Seq::<(int, int)>::empty() =~= done);
        }
    }
    let ghost before = danmakus.deep_view();
    danmakus.append(&mut found);
    assert(danmakus.deep_view() =~= before + ranges_danmakus(data@, done));
    true
}

/// Parses the danmaku segment `data` and appends its danmakus, in order, to
/// `danmakus`.
pub fn parse_seg_so(data: &[u8], danmakus: &mut Vec<DanmakuData>)
    requires
        seg_parses(data@),
    ensures
        final(danmakus).deep_view() == old(danmakus).deep_view() + seg_danmakus(data@),
{
    try_parse_seg_so(data, danmakus);
}

/// The danmakus of `s` whose time is `k`, in their order in `s`.
pub open spec fn at_time(s: Seq<DanmakuView>, k: u64) -> Seq<DanmakuView> {
    s.filter(|d: DanmakuView| d.progress_ms == k)
}

/// `s` is ordered by time.
pub open spec fn sorted_by_time(s: Seq<DanmakuView>) -> bool {
    forall|i: int, j: int| 0 <= i <= j < s.len() ==> s[i].progress_ms <= s[j].progress_ms
}

proof fn lemma_filter_none(s: Seq<DanmakuView>, k: u64)
    requires
        forall|i: int| 0 <= i < s.len() ==> s[i].progress_ms != k,
    ensures
        at_time(s, k) == Seq::<DanmakuView>::empty(),
    decreases s.len(),
{
    reveal(Seq::filter);
    if s.len() > 0 {
        lemma_filter_none(s.drop_last(), k);
    }
}

proof fn lemma_filter_push(s: Seq<DanmakuView>, x: DanmakuView, k: u64)
    ensures
        at_time(s.push(x), k) == if x.progress_ms == k {
            at_time(s, k).push(x)
        } else {
            at_time(s, k)
        },
{
    reveal(Seq::filter);
    assert(s.push(x).drop_last() =~= s);
}

proof fn lemma_insert_at_time(s: Seq<DanmakuView>, p: int, x: DanmakuView, k: u64)
    requires
        0 <= p <= s.len(),
        forall|j: int| p <= j < s.len() ==> s[j].progress_ms > x.progress_ms,
    ensures
        at_time(s.insert(p, x), k) == if x.progress_ms == k {
            at_time(s, k).push(x)
        } else {
            at_time(s, k)
        },
{
    let pred = |d: DanmakuView| d.progress_ms == k;
    let a = s.take(p);
    let b = s.skip(p);
    assert(s =~= a + b);
    assert(s.insert(p, x) =~= a.push(x) + b);
    Seq::filter_distributes_over_add(a, b, pred);
    Seq::filter_distributes_over_add(a.push(x), b, pred);
    lemma_filter_push(a, x, k);
    if x.progress_ms == k {
        lemma_filter_none(b, k);
        assert(at_time(s, k) =~= at_time(a, k));
        assert(at_time(s.insert(p, x), k) =~= at_time(a, k).push(x));
    }
}

proof fn lemma_insert_sorted(s: Seq<DanmakuView>, p: int, x: DanmakuView)
    requires
        sorted_by_time(s),
        0 <= p <= s.len(),
        p > 0 ==> s[p - 1].progress_ms <= x.progress_ms,
        forall|j: int| p <= j < s.len() ==> s[j].progress_ms > x.progress_ms,
    ensures
        sorted_by_time(s.insert(p, x)),
{
    let t = s.insert(p, x);
    assert forall|i: int, j: int| 0 <= i <= j < t.len() implies t[i].progress_ms
        <= t[j].progress_ms by {
        if i < p && j < p {
        } else if i < p && j == p {
            assert(s[i].progress_ms <= s[p - 1].progress_ms);
        } else if i < p {
            assert(t[j] == s[j - 1]);
        } else if i == p {
            if j > p {
                assert(t[j] == s[j - 1]);
            }
        } else {
            assert(t[i] == s[i - 1] && t[j] == s[j - 1]);
        }
    }
}

/// Orders `danmakus` by time; danmakus of the same time keep their order.
pub fn sort_by_time(danmakus: &mut Vec<DanmakuData>)
    ensures
        sorted_by_time(final(danmakus).deep_view()),
        final(danmakus).deep_view().to_multiset() == old(danmakus).deep_view().to_multiset(),
        forall|k: u64|
            #![trigger at_time(final(danmakus).deep_view(), k)]
            at_time(final(danmakus).deep_view(), k) == at_time(old(danmakus).deep_view(), k),
{
    let mut rest: Vec<DanmakuData> = Vec::new();
    std::mem::swap(&mut rest, danmakus);
    let ghost orig = rest.deep_view();
    let ghost mut i: int = 0;
    assert(orig.skip(0) =~= orig);
    assert(danmakus.deep_view() =~= Seq::<DanmakuView>::empty());
    assert(orig.take(0) =~= Seq::<DanmakuView>::empty());
    assert forall|k: u64| #[trigger] at_time(danmakus.deep_view(), k) == at_time(orig.take(0), k) by {
        reveal(Seq::filter);
        assert(orig.take(0) =~= Seq::<DanmakuView>::empty());
    }
    while rest.len() > 0
        invariant
            0 <= i <= orig.len(),
            rest@.len() == orig.len() - i,
            rest.deep_view() =~= orig.skip(i),
            orig == old(danmakus).deep_view(),
            sorted_by_time(danmakus.deep_view()),
            danmakus.deep_view().to_multiset() == orig.take(i).to_multiset(),
            forall|k: u64|
                #![trigger at_time(danmakus.deep_view(), k)]
                at_time(danmakus.deep_view(), k) == at_time(orig.take(i), k),
        decreases rest.len(),
    {
        let ghost before = danmakus.deep_view();
        let ghost rest_before = rest.deep_view();
        let ghost rest_items = rest@;
        let d = rest.remove(0);
        assert(rest_before[0] == rest_items[0]@);
        assert(orig.skip(i)[0] == orig[i]);
        assert(d@ == orig[i]);
        assert(rest.deep_view() =~= orig.skip(i + 1)) by {
            assert forall|j: int| 0 <= j < rest@.len() implies rest.deep_view()[j] == orig.skip(i + 1)[j] by {
                assert(rest@[j] == rest_items[j + 1]);
                assert(rest_before[j + 1] == rest_items[j + 1]@);
                assert(orig.skip(i)[j + 1] == orig.skip(i + 1)[j]);
            }
        }
        let mut p = danmakus.len();
        while p > 0 && danmakus[p - 1].progress_ms > d.progress_ms
            invariant
                p <= danmakus.len(),
                danmakus.deep_view() == before,
                forall|j: int| p <= j < before.len() ==> before[j].progress_ms > d.progress_ms,
            decreases p,
        {
            p -= 1;
        }
        proof {
            if p > 0 {
                assert(before[p - 1] == danmakus@[p - 1]@);
            }
            lemma_insert_sorted(before, p as int, d@);
        }
        danmakus.insert(p, d);
        proof {
            assert(danmakus.deep_view() =~= before.insert(p as int, d@));
            assert forall|k: u64| #[trigger]
                at_time(danmakus.deep_view(), k) == at_time(orig.take(i + 1), k) by {
                lemma_insert_at_time(before, p as int, d@, k);
                assert(orig.take(i + 1) =~= orig.take(i).push(orig[i]));
                lemma_filter_push(orig.take(i), orig[i], k);
            }
            vstd::seq_lib::to_multiset_insert(before, p as int, d@);
            assert(orig.take(i + 1) =~= orig.take(i).push(orig[i]));
            vstd::seq_lib::to_multiset_build(orig.take(i), orig[i]);
            i = i + 1;
        }
    }
    assert(orig.take(i) =~= orig);
}

/// A danmaku keeps its element's time and text, and its red, green and
/// blue bytes together make up the low 24 bits of the colour, red highest.
pub proof fn lemma_danmaku_colour(f: DmFields, text: Seq<char>)
    ensures
        danmaku_of(f, text) is Some <==> text.len() > 0,
        danmaku_of(f, text) matches Some(v) ==> {
            &&& v.progress_ms == f.progress
            &&& v.text == text
            &&& v.red as int * 0x10000 + v.green as int * 0x100 + v.blue as int == f.color as int
                % 0x1000000
        },
{
    let c = f.color;
    assert(((c / 0x10000) % 0x100) * 0x10000 + ((c / 0x100) % 0x100) * 0x100 + c % 0x100 == c
        % 0x1000000) by (bit_vector);
}

/// The protobuf encoding of an element with the time `progress`, the colour
/// `color` and the text bytes `text`, in this order.
pub open spec fn element_encoding(progress: u64, color: u64, text: Seq<u8>) -> Seq<u8> {
    varint_encoding(0x10) + varint_encoding(progress as nat) + varint_encoding(0x28)
        + varint_encoding(color as nat) + varint_encoding(0x3A) + varint_encoding(text.len()) + text
}

proof fn lemma_small_encoding(v: nat)
    requires
        v < 128,
    ensures
        varint_encoding(v) == seq![v as u8],
{
}

/// An element written with a time, a colour and a text is read back as
/// that time, that colour and the range of that text; its danmaku, when the
/// text decodes to something, has that time and colour.
#[verifier::rlimit(60)]
pub proof fn lemma_element_read_back(progress: u64, color: u64, text: Seq<u8>)
    requires
        text.len() <= u64::MAX,
        element_encoding(progress, color, text).len() <= usize::MAX,
    ensures
        ({
            let e = element_encoding(progress, color, text);
            let f = DmFields {
                progress,
                color,
                text: Some(((e.len() - text.len()) as usize, e.len() as usize)),
            };
            &&& elem_scan(e, 0, default_fields()) == Some(f)
            &&& elem_danmaku(e) == danmaku_of(f, lossy_utf8(text))
        }),
{
    let e = element_encoding(progress, color, text);
    lemma_small_encoding(0x10);
    lemma_small_encoding(0x28);
    lemma_small_encoding(0x3A);
    let k1 = varint_encoding(0x10);
    let ep = varint_encoding(progress as nat);
    let k2 = varint_encoding(0x28);
    let ec = varint_encoding(color as nat);
    let k3 = varint_encoding(0x3A);
    let el = varint_encoding(text.len());
    let len = text.len() as u64;
    assert(el == varint_encoding(len as nat));
    let o1 = 1int;
    let o2 = o1 + ep.len();
    let o3 = o2 + 1;
    let o4 = o3 + ec.len();
    let o5 = o4 + 1;
    let o6 = o5 + el.len();
    let n = e.len() as int;
    assert(n == o6 + text.len());
    assert(varint_decode(e, 0) == (Some(0x10u64), o1)) by {
        lemma_decode_encoding_at(Seq::empty(), 0x10, ep + k2 + ec + k3 + el + text);
        assert(Seq::<u8>::empty() + k1 + (ep + k2 + ec + k3 + el + text) =~= e);
    }
    assert(varint_decode(e, o1) == (Some(progress), o2)) by {
        lemma_decode_encoding_at(k1, progress, k2 + ec + k3 + el + text);
        assert(k1 + ep + (k2 + ec + k3 + el + text) =~= e);
    }
    assert(varint_decode(e, o2) == (Some(0x28u64), o3)) by {
        lemma_decode_encoding_at(k1 + ep, 0x28, ec + k3 + el + text);
        assert(k1 + ep + k2 + (ec + k3 + el + text) =~= e);
    }
    assert(varint_decode(e, o3) == (Some(color), o4)) by {
        lemma_decode_encoding_at(k1 + ep + k2, color, k3 + el + text);
        assert(k1 + ep + k2 + ec + (k3 + el + text) =~= e);
    }
    assert(varint_decode(e, o4) == (Some(0x3Au64), o5)) by {
        lemma_decode_encoding_at(k1 + ep + k2 + ec, 0x3A, el + text);
        assert(k1 + ep + k2 + ec + k3 + (el + text) =~= e);
    }
    assert(varint_decode(e, o5) == (Some(len), o6)) by {
        lemma_decode_encoding_at(k1 + ep + k2 + ec + k3, len, text);
        assert(k1 + ep + k2 + ec + k3 + el + text =~= e);
    }
    assert((len as usize) as int == len);
    let f0 = default_fields();
    let f1 = DmFields { progress, ..f0 };
    let f2 = DmFields { color, ..f1 };
    let f3 = DmFields { text: Some((o6 as usize, n as usize)), ..f2 };
    assert(elem_field_step(e, 0x10, o1, f0) == Some((true, o2, f1)));
    assert(elem_field_step(e, 0x28, o3, f1) == Some((true, o4, f2)));
    assert(elem_field_step(e, 0x3A, o5, f2) == Some((true, n, f3)));
    assert(elem_scan(e, n, f3) == Some(f3));
    assert(elem_scan(e, o4, f2) == Some(f3));
    assert(elem_scan(e, o2, f1) == Some(f3));
    assert(elem_scan(e, 0, f0) == Some(f3));
    assert(e.subrange(o6, n) =~= text);
}

/// The protobuf encoding of a segment whose field 1 holds the elements
/// `elems`, in order.
pub open spec fn segment_encoding(elems: Seq<Seq<u8>>) -> Seq<u8>
    decreases elems.len(),
{
    if elems.len() == 0 {
        Seq::empty()
    } else {
        varint_encoding(0x0A) + varint_encoding(elems[0].len()) + elems[0] + segment_encoding(
            elems.drop_first(),
        )
    }
}

/// The danmakus of the elements `elems`, in order.
pub open spec fn elems_danmakus(elems: Seq<Seq<u8>>) -> Seq<DanmakuView>
    decreases elems.len(),
{
    if elems.len() == 0 {
        Seq::empty()
    } else {
        elems_danmakus(elems.drop_last()) + option_seq(elem_danmaku(elems.last()))
    }
}

#[verifier::rlimit(60)]
proof fn lemma_segment_ranges(pre: Seq<u8>, elems: Seq<Seq<u8>>)
    requires
        (pre + segment_encoding(elems)).len() <= usize::MAX,
    ensures
        ({
            let d = pre + segment_encoding(elems);
            seg_elems(d, pre.len() as int) matches Some(rs) && rs.len() == elems.len() && forall|
                i: int,
            |
                #![trigger rs[i]]
                0 <= i < rs.len() ==> 0 <= rs[i].0 <= rs[i].1 <= d.len() && d.subrange(
                    rs[i].0,
                    rs[i].1,
                ) == elems[i]
        }),
    decreases elems.len(),
{
    let d = pre + segment_encoding(elems);
    if elems.len() == 0 {
        assert(d =~= pre);
    } else {
        let e0 = elems[0];
        let tail = elems.drop_first();
        let k = varint_encoding(0x0A);
        let el = varint_encoding(e0.len());
        let rest = segment_encoding(tail);
        assert(k == seq![0x0Au8]);
        let p = pre.len() as int;
        let pre2 = pre + k + el + e0;
        assert(d =~= pre2 + rest);
        assert(segment_encoding(elems).len() >= e0.len());
        let len = e0.len() as u64;
        assert(el == varint_encoding(len as nat));
        assert(varint_decode(d, p) == (Some(0x0Au64), p + 1)) by {
            lemma_decode_encoding_at(pre, 0x0A, el + e0 + rest);
            assert(pre + k + (el + e0 + rest) =~= d);
        }
        let a = p + 1 + el.len();
        assert(varint_decode(d, p + 1) == (Some(len), a)) by {
            lemma_decode_encoding_at(pre + k, len, e0 + rest);
            assert(pre + k + el + (e0 + rest) =~= d);
        }
        let end = a + e0.len();
        assert((len as usize) as int == len);
        assert(end == pre2.len());
        lemma_segment_ranges(pre2, tail);
        let rs2 = seg_elems(d, end).unwrap();
        assert(key_field(0x0A) == 1 && key_wire(0x0A) == wire_len());
        assert(seg_elems(d, p) == Some(seq![(a, end)] + rs2)) by {
            assert(0 <= p < d.len());
            assert(end <= d.len() <= usize::MAX);
        }
        let rs = seq![(a, end)] + rs2;
        assert(d.subrange(a, end) =~= e0);
        assert forall|i: int| #![trigger rs[i]] 0 <= i < rs.len() implies 0 <= rs[i].0 <= rs[i].1
            <= d.len() && d.subrange(rs[i].0, rs[i].1) == elems[i] by {
            if i > 0 {
                assert(rs[i] == rs2[i - 1]);
                assert(elems[i] == tail[i - 1]);
            }
        }
    }
}

proof fn lemma_ranges_elems_danmakus(d: Seq<u8>, rs: Seq<(int, int)>, elems: Seq<Seq<u8>>)
    requires
        rs.len() == elems.len(),
        forall|i: int| #![trigger rs[i]] 0 <= i < rs.len() ==> 0 <= rs[i].0 <= rs[i].1 <= d.len(),
        forall|i: int| #![trigger rs[i]] 0 <= i < rs.len() ==> d.subrange(rs[i].0, rs[i].1) == elems[i],
    ensures
        ranges_danmakus(d, rs) == elems_danmakus(elems),
        ranges_parse(d, rs) <==> forall|i: int| 0 <= i < elems.len() ==> elem_parses(#[trigger] elems[i]),
    decreases rs.len(),
{
    if rs.len() > 0 {
        let n = rs.len() - 1;
        assert(rs[n] == rs.last());
        let pr = rs.drop_last();
        let pe = elems.drop_last();
        assert forall|i: int| #![trigger pr[i]] 0 <= i < pr.len() implies d.subrange(pr[i].0, pr[i].1)
            == pe[i] && 0 <= pr[i].0 <= pr[i].1 <= d.len() by {
            assert(pr[i] == rs[i]);
        }
        lemma_ranges_elems_danmakus(d, pr, pe);
    }
    if ranges_parse(d, rs) {
        assert forall|i: int| 0 <= i < elems.len() implies elem_parses(#[trigger] elems[i]) by {
            assert(rs[i] == rs[i]);
        }
    }
    if forall|i: int| 0 <= i < elems.len() ==> elem_parses(#[trigger] elems[i]) {
        assert forall|i: int| 0 <= i < rs.len() implies {
            let r = #[trigger] rs[i];
            &&& 0 <= r.0 <= r.1 <= d.len()
            &&& elem_parses(d.subrange(r.0, r.1))
        } by {
            assert(elem_parses(elems[i]));
        }
    }
}

/// A segment written as field-1 elements is read as exactly those elements:
/// it reads without overflow when each of them does, and then its danmakus
/// are theirs, in order.
pub proof fn lemma_segment_read_back(elems: Seq<Seq<u8>>)
    requires
        segment_encoding(elems).len() <= usize::MAX,
    ensures
        seg_parses(segment_encoding(elems)) ==> seg_danmakus(segment_encoding(elems))
            == elems_danmakus(elems),
        (forall|i: int| 0 <= i < elems.len() ==> elem_parses(#[trigger] elems[i])) ==> seg_parses(
            segment_encoding(elems),
        ) && seg_danmakus(segment_encoding(elems)) == elems_danmakus(elems),
{
    let d = segment_encoding(elems);
    lemma_segment_ranges(Seq::empty(), elems);
    assert(Seq::<u8>::empty() + d =~= d);
    let rs = seg_elems(d, 0).unwrap();
    lemma_ranges_elems_danmakus(d, rs, elems);
}

/// An element that holds only a text is read as time 0 and white, with that
/// text.
pub proof fn lemma_text_only_element(text: Seq<u8>)
    requires
        text.len() <= u64::MAX,
        (varint_encoding(0x3A) + varint_encoding(text.len()) + text).len() <= usize::MAX,
    ensures
        ({
            let e = varint_encoding(0x3A) + varint_encoding(text.len()) + text;
            elem_scan(e, 0, default_fields()) == Some(
                DmFields {
                    progress: 0,
                    color: 0xFFFFFF,
                    text: Some(((e.len() - text.len()) as usize, e.len() as usize)),
                },
            )
        }),
{
    let k = varint_encoding(0x3A);
    let el = varint_encoding(text.len());
    let e = k + el + text;
    lemma_small_encoding(0x3A);
    let len = text.len() as u64;
    assert(el == varint_encoding(len as nat));
    let n = e.len() as int;
    let o6: int = 1 + el.len() as int;
    assert(varint_decode(e, 0) == (Some(0x3Au64), 1int)) by {
        lemma_decode_encoding_at(Seq::empty(), 0x3A, el + text);
        assert(Seq::<u8>::empty() + k + (el + text) =~= e);
    }
    assert(varint_decode(e, 1) == (Some(len), o6)) by {
        lemma_decode_encoding_at(k, len, text);
    }
    assert((len as usize) as int == len);
    let f3 = DmFields { text: Some((o6 as usize, n as usize)), ..default_fields() };
    assert(elem_field_step(e, 0x3A, 1, default_fields()) == Some((true, n, f3)));
    assert(elem_scan(e, n, f3) == Some(f3));
}

} // verus!
