use bilidm::bvid::extract_bvid;
use bilidm::cli::wants_help;
use bilidm::screen::{is_quit_key, place_cells, place_row, progress_label, text_chars, Key};
use bilidm::text::{
    char_columns, column_width, has_prefix, sum_widths, push_decimal, push_signed_decimal, push_two_digits, same_text,
    text_columns,
};

#[test]
fn bvid_from_address() {
    assert_eq!(
        extract_bvid("https://www.bilibili.com/video/BV1WYXDB7EPm").as_deref(),
        Some("BV1WYXDB7EPm")
    );
    assert_eq!(extract_bvid("BV1WYXDB7EPm").as_deref(), Some("BV1WYXDB7EPm"));
}

#[test]
fn bvid_leftmost_and_exact_length() {
    assert_eq!(
        extract_bvid("x BV1111111111Z BV2222222222").as_deref(),
        Some("BV1111111111")
    );
    assert_eq!(extract_bvid("BV123456789"), None);
    assert_eq!(extract_bvid("av170001"), None);
    assert_eq!(extract_bvid(""), None);
}

#[test]
fn bvid_refuses_excluded_characters() {
    assert_eq!(extract_bvid("BV0WYXDB7EPm"), None);
    assert_eq!(extract_bvid("BVIWYXDB7EPm"), None);
    assert_eq!(extract_bvid("BVOWYXDB7EPm"), None);
    assert_eq!(extract_bvid("BVlWYXDB7EPm"), None);
    assert_eq!(extract_bvid("BVlBV1WYXDB7EPm").as_deref(), Some("BV1WYXDB7EPm"));
    assert_eq!(extract_bvid("中文BV1WYXDB7EPm中").as_deref(), Some("BV1WYXDB7EPm"));
}

#[test]
fn widths_of_characters() {
    assert_eq!(column_width('a'), 1);
    assert_eq!(column_width('弹'), 2);
    assert_eq!(column_width('\n'), 0);
    assert_eq!(column_width('\u{7F}'), 0);
    assert_eq!(column_width('\u{301}'), 0);
}

#[test]
fn widths_of_texts() {
    assert_eq!(text_columns("abc"), Some(3));
    assert_eq!(text_columns("弹幕abc"), Some(7));
    assert_eq!(text_columns(""), Some(0));
    assert_eq!(text_columns("a\tb"), Some(2));
}

#[test]
fn row_placement() {
    let cells = place_row(2, 0, 5, 10, "ab弹").unwrap();
    assert_eq!(cells, vec![(2, 'a'), (3, 'b'), (4, '弹')]);
    let cells = place_row(-1, 0, 5, 10, "ab弹").unwrap();
    assert_eq!(cells, vec![(0, 'b'), (1, '弹')]);
    let cells = place_row(8, 0, 5, 10, "a弹b").unwrap();
    assert_eq!(cells, vec![(8, 'a')]);
    let cells = place_row(0, 5, 5, 10, "ab").unwrap();
    assert!(cells.is_empty());
    let cells = place_row(0, 0, 5, 10, "a\u{301}b").unwrap();
    assert_eq!(cells, vec![(0, 'a'), (1, 'b')]);
}

#[test]
fn row_placement_overflow() {
    assert_eq!(place_row(i32::MAX - 1, 0, 5, 10, "ab"), None);
    assert!(place_row(i32::MAX - 2, 0, 5, 10, "ab").is_some());
}

#[test]
fn labels() {
    assert_eq!(progress_label(65, 720), "01:05 / 12:00");
    assert_eq!(progress_label(0, 0), "00:00 / 00:00");
    assert_eq!(progress_label(6000, 59), "100:00 / 00:59");
}

#[test]
fn decimals() {
    let mut s = String::from("n=");
    push_decimal(&mut s, 0);
    assert_eq!(s, "n=0");
    let mut s = String::new();
    push_decimal(&mut s, u64::MAX);
    assert_eq!(s, u64::MAX.to_string());
    let mut s = String::new();
    push_signed_decimal(&mut s, i64::MIN);
    assert_eq!(s, i64::MIN.to_string());
    let mut s = String::new();
    push_signed_decimal(&mut s, -7);
    assert_eq!(s, "-7");
    let mut s = String::new();
    push_two_digits(&mut s, 7);
    push_two_digits(&mut s, 123);
    assert_eq!(s, "07123");
}

#[test]
fn prefixes_and_equality() {
    assert!(has_prefix("ai-zh", "ai-"));
    assert!(!has_prefix("zh-CN", "ai-"));
    assert!(!has_prefix("ai", "ai-"));
    assert!(has_prefix("x", ""));
    assert!(same_text("-h", "-h"));
    assert!(!same_text("-h", "--help"));
    assert!(!same_text("-hx", "-h"));
}

#[test]
fn quit_keys() {
    assert!(is_quit_key(&Key::Char('q')));
    assert!(is_quit_key(&Key::Esc));
    assert!(!is_quit_key(&Key::Char('Q')));
    assert!(!is_quit_key(&Key::Other));
}

fn args(a: &[&str]) -> Vec<String> {
    a.iter().map(|s| s.to_string()).collect()
}

#[test]
fn help_requests() {
    assert!(wants_help(&args(&["bilidm"])));
    assert!(wants_help(&args(&["bilidm", "-h"])));
    assert!(wants_help(&args(&["bilidm", "--help", "x"])));
    assert!(!wants_help(&args(&["bilidm", "BV1WYXDB7EPm", "-h"])));
}

#[test]
fn widths_given_separately() {
    assert_eq!(char_columns("a弹\u{301}"), vec![1, 2, 0]);
    assert_eq!(text_chars("a弹"), vec!['a', '弹']);
    assert_eq!(sum_widths(&[2, 1, 0, 3]), Some(6));
    assert_eq!(sum_widths(&[usize::MAX, 1]), None);
    assert_eq!(
        place_cells(0, 1, 2, 4, &['x', 'y', 'z'], &[3, 0, 2]),
        Some(vec![(0, 'x')])
    );
    assert_eq!(
        place_cells(-2, 1, 2, 4, &['x', 'y', 'z'], &[3, 0, 2]),
        Some(vec![(1, 'z')])
    );
    assert_eq!(place_cells(i32::MAX, 0, 1, 4, &['x'], &[1]), None);
    assert_eq!(place_cells(i32::MAX, 0, 1, 4, &['x'], &[0]), Some(vec![]));
}

#[test]
fn drawn_cells_fit_and_do_not_overlap() {
    let text = "弹幕 test 弹幕";
    for x in -20..30 {
        let cells = place_row(x, 0, 1, 12, text).unwrap();
        let mut end = 0u16;
        for (i, (col, c)) in cells.iter().enumerate() {
            let w = column_width(*c) as u16;
            assert!(col + w <= 12);
            if i > 0 {
                assert!(end <= *col);
            }
            end = col + w;
        }
    }
}
