use bilidm::danmaku::{
    danmaku_from_fields, parse_dm_elem, parse_seg_so, scan_dm_elem, sort_by_time,
    try_parse_dm_elem, try_parse_seg_so, DanmakuData, DmFields,
};

fn varint(mut v: u64, out: &mut Vec<u8>) {
    loop {
        let b = (v & 0x7F) as u8;
        v >>= 7;
        if v == 0 {
            out.push(b);
            return;
        }
        out.push(b | 0x80);
    }
}

fn varint_field(field: u64, v: u64, out: &mut Vec<u8>) {
    varint(field << 3, out);
    varint(v, out);
}

fn bytes_field(field: u64, bytes: &[u8], out: &mut Vec<u8>) {
    varint((field << 3) | 2, out);
    varint(bytes.len() as u64, out);
    out.extend_from_slice(bytes);
}

fn element(progress: u64, color: u64, text: &str) -> Vec<u8> {
    let mut e = Vec::new();
    varint_field(1, 12345, &mut e);
    varint_field(2, progress, &mut e);
    varint_field(3, 1, &mut e);
    varint_field(5, color, &mut e);
    bytes_field(6, b"abcdef", &mut e);
    bytes_field(7, text.as_bytes(), &mut e);
    e
}

fn segment(elems: &[Vec<u8>]) -> Vec<u8> {
    let mut s = Vec::new();
    for e in elems {
        bytes_field(1, e, &mut s);
    }
    s
}

fn rgb(d: &DanmakuData) -> (u8, u8, u8) {
    (d.red, d.green, d.blue)
}

#[test]
fn element_fields_are_read() {
    let e = element(15300, 0xFE0302, "hello");
    let mut v = Vec::new();
    parse_dm_elem(&e, &mut v);
    assert_eq!(v.len(), 1);
    assert_eq!(v[0].progress_ms, 15300);
    assert_eq!(v[0].text, "hello");
    assert_eq!(rgb(&v[0]), (0xFE, 0x03, 0x02));
}

#[test]
fn element_defaults_to_white_at_zero() {
    let mut e = Vec::new();
    bytes_field(7, "弹幕".as_bytes(), &mut e);
    let mut v = Vec::new();
    parse_dm_elem(&e, &mut v);
    assert_eq!(v.len(), 1);
    assert_eq!(v[0].progress_ms, 0);
    assert_eq!(v[0].text, "弹幕");
    assert_eq!(rgb(&v[0]), (255, 255, 255));
}

#[test]
fn element_without_text_gives_nothing() {
    let mut e = Vec::new();
    varint_field(2, 100, &mut e);
    let mut v = Vec::new();
    parse_dm_elem(&e, &mut v);
    assert!(v.is_empty());
    let mut e = Vec::new();
    bytes_field(7, b"", &mut e);
    parse_dm_elem(&e, &mut v);
    assert!(v.is_empty());
}

#[test]
fn element_last_text_wins() {
    let mut e = Vec::new();
    bytes_field(7, b"first", &mut e);
    bytes_field(7, b"second", &mut e);
    let mut v = Vec::new();
    parse_dm_elem(&e, &mut v);
    assert_eq!(v[0].text, "second");
    let mut e = Vec::new();
    bytes_field(7, b"first", &mut e);
    bytes_field(7, b"", &mut e);
    let mut v = Vec::new();
    parse_dm_elem(&e, &mut v);
    assert!(v.is_empty());
}

#[test]
fn element_text_past_end_is_ignored() {
    let mut e = Vec::new();
    bytes_field(7, b"kept", &mut e);
    e.push(0x3A);
    e.push(0x09);
    e.extend_from_slice(b"short");
    let mut v = Vec::new();
    parse_dm_elem(&e, &mut v);
    assert_eq!(v[0].text, "kept");
}

#[test]
fn element_invalid_utf8_is_replaced() {
    let mut e = Vec::new();
    bytes_field(7, &[0x61, 0xFF, 0x62], &mut e);
    let mut v = Vec::new();
    parse_dm_elem(&e, &mut v);
    assert_eq!(v[0].text, "a\u{FFFD}b");
}

#[test]
fn element_unreadable_time_becomes_zero() {
    let mut e = Vec::new();
    bytes_field(7, b"x", &mut e);
    varint_field(2, 500, &mut e);
    e.push(0x10);
    e.push(0x80);
    let mut v = Vec::new();
    parse_dm_elem(&e, &mut v);
    assert_eq!(v[0].progress_ms, 0);
}

#[test]
fn element_stops_at_unknown_wire_type() {
    let mut e = Vec::new();
    varint_field(2, 700, &mut e);
    e.push(0x0B);
    bytes_field(7, b"late", &mut e);
    let mut v = Vec::new();
    parse_dm_elem(&e, &mut v);
    assert!(v.is_empty());
}

#[test]
fn scan_reports_fields() {
    let mut e = Vec::new();
    varint_field(5, 0x00FF00, &mut e);
    bytes_field(7, b"hi", &mut e);
    let f = scan_dm_elem(&e).unwrap();
    assert_eq!(f, DmFields { progress: 0, color: 0x00FF00, text: Some((6, 8)) });
}

#[test]
fn element_overflowing_length_is_refused() {
    let mut e = vec![0x3Au8];
    e.extend_from_slice(&[0xFF; 9]);
    e.push(0x01);
    assert_eq!(scan_dm_elem(&e), None);
    let mut v = Vec::new();
    assert!(!try_parse_dm_elem(&e, &mut v));
    assert!(v.is_empty());
}

#[test]
fn from_fields_splits_colour() {
    let f = DmFields { progress: 42, color: 0x12345678, text: None };
    let d = danmaku_from_fields(&f, String::from("x")).unwrap();
    assert_eq!(d.progress_ms, 42);
    assert_eq!(rgb(&d), (0x34, 0x56, 0x78));
    assert!(danmaku_from_fields(&f, String::new()).is_none());
}

#[test]
fn segment_keeps_order_and_appends() {
    let seg = segment(&[element(3000, 0xFF0000, "a"), element(1000, 0x00FF00, "b")]);
    let mut v = vec![DanmakuData {
        progress_ms: 9,
        text: String::from("old"),
        red: 1,
        green: 2,
        blue: 3,
    }];
    parse_seg_so(&seg, &mut v);
    assert_eq!(v.len(), 3);
    assert_eq!(v[0].text, "old");
    assert_eq!(v[1].text, "a");
    assert_eq!(v[1].progress_ms, 3000);
    assert_eq!(v[2].text, "b");
    assert_eq!(rgb(&v[2]), (0, 255, 0));
}

#[test]
fn segment_skips_other_fields() {
    let mut seg = Vec::new();
    varint_field(2, 77, &mut seg);
    bytes_field(3, b"xyz", &mut seg);
    seg.push((4 << 3) | 5);
    seg.extend_from_slice(&[1, 2, 3, 4]);
    seg.push((5 << 3) | 1);
    seg.extend_from_slice(&[0; 8]);
    bytes_field(1, &element(5, 6, "kept"), &mut seg);
    let mut v = Vec::new();
    parse_seg_so(&seg, &mut v);
    assert_eq!(v.len(), 1);
    assert_eq!(v[0].text, "kept");
}

#[test]
fn segment_stops_at_truncated_element() {
    let mut seg = segment(&[element(1, 2, "one")]);
    let e = element(3, 4, "two");
    let mut tail = Vec::new();
    bytes_field(1, &e, &mut tail);
    tail.truncate(tail.len() - 1);
    seg.extend_from_slice(&tail);
    let mut v = Vec::new();
    parse_seg_so(&seg, &mut v);
    assert_eq!(v.len(), 1);
    assert_eq!(v[0].text, "one");
}

#[test]
fn segment_empty_gives_nothing() {
    let mut v = Vec::new();
    assert!(try_parse_seg_so(&[], &mut v));
    assert!(v.is_empty());
}

#[test]
fn segment_overflow_is_refused() {
    let mut seg = segment(&[element(1, 2, "one")]);
    seg.push(0x0A);
    seg.extend_from_slice(&[0xFF; 9]);
    seg.push(0x01);
    let mut v = Vec::new();
    assert!(!try_parse_seg_so(&seg, &mut v));
    assert!(v.is_empty());
}

#[test]
fn segment_overflow_inside_element_is_refused() {
    let mut bad = vec![0x3Au8];
    bad.extend_from_slice(&[0xFF; 9]);
    bad.push(0x01);
    let seg = segment(&[element(1, 2, "one"), bad]);
    let mut v = Vec::new();
    assert!(!try_parse_seg_so(&seg, &mut v));
    assert!(v.is_empty());
}

fn dm(progress: u64, text: &str) -> DanmakuData {
    DanmakuData { progress_ms: progress, text: String::from(text), red: 0, green: 0, blue: 0 }
}

#[test]
fn sort_orders_by_time_and_keeps_ties() {
    let mut v = vec![dm(30, "a"), dm(10, "b"), dm(30, "c"), dm(20, "d"), dm(10, "e")];
    sort_by_time(&mut v);
    let order: Vec<(u64, &str)> = v.iter().map(|d| (d.progress_ms, d.text.as_str())).collect();
    assert_eq!(order, vec![(10, "b"), (10, "e"), (20, "d"), (30, "a"), (30, "c")]);
}

#[test]
fn sort_empty() {
    let mut v: Vec<DanmakuData> = Vec::new();
    sort_by_time(&mut v);
    assert!(v.is_empty());
}
