//! What the player draws: where danmaku characters land on a row, the
//! progress label, and the keys that close it.

use crate::text::{
    char_columns, columns, lemma_read_two_digits, lemma_width_sum_prefix, read_digits, push_two_digits, text_columns_spec, width_sum,
    widths_of, zero_padded,
};
use vstd::prelude::*;

verus! {

/// The cells that the characters `chars`, of widths `widths`, take on a row
/// whose text starts at column `x0`: each character with a width takes the
/// next columns after the characters before it, and is drawn, at its first
/// column, where the row is `visible` and it lies wholly within columns
/// `0 .. width`.
pub open spec fn row_cells(
    x0: int,
    visible: bool,
    width: int,
    chars: Seq<char>,
    widths: Seq<usize>,
) -> Seq<(u16, char)>
    decreases chars.len(),
{
    if chars.len() == 0 || widths.len() != chars.len() {
        Seq::empty()
    } else {
        let x = x0 + width_sum(widths.drop_last());
        let w = widths.last() as int;
        row_cells(x0, visible, width, chars.drop_last(), widths.drop_last()) + if w > 0 && visible
            && x >= 0 && x + w <= width {
            seq![(x as u16, chars.last())]
        } else {
            Seq::empty()
        }
    }
}

/// The columns at which the characters `chars`, of widths `widths`, are
/// drawn on row `y`, when the text starts at column `x` and the area is
/// `width` columns wide and ends above row `bottom`; `None` exactly where
/// the column after the text, `x` plus the widths, would overflow an `i32`.
pub fn place_cells(x: i32, y: u16, bottom: u16, width: u16, chars: &[char], widths: &[usize]) -> (res:
    Option<Vec<(u16, char)>>)
    requires
        chars@.len() == widths@.len(),
        forall|i: int| 0 <= i < widths@.len() ==> widths@[i] <= 3,
    ensures
        match res {
            Some(cells) => x + width_sum(widths@) <= i32::MAX && cells@ == row_cells(
                x as int,
                y < bottom,
                width as int,
                chars@,
                widths@,
            ),
            None => x + width_sum(widths@) > i32::MAX,
        },
{
    let mut cells: Vec<(u16, char)> = Vec::new();
    let mut current_x: i32 = x;
    let visible = y < bottom;
    let n = chars.len();
    for i in 0..n
        invariant
            n == chars@.len(),
            chars@.len() == widths@.len(),
            forall|j: int| 0 <= j < widths@.len() ==> widths@[j] <= 3,
            visible == (y < bottom),
            current_x == x + width_sum(widths@.take(i as int)),
            cells@ == row_cells(
                x as int,
                visible,
                width as int,
                chars@.take(i as int),
                widths@.take(i as int),
            ),
    {
        let ghost k = i as int;
        assert(widths@.take(k + 1).drop_last() =~= widths@.take(k));
        assert(chars@.take(k + 1).drop_last() =~= chars@.take(k));
        let c = chars[i];
        let char_width = widths[i] as i32;
        if char_width == 0 {
            assert(cells@ =~= cells@ + Seq::<(u16, char)>::empty());
        } else {
            if current_x > i32::MAX - char_width {
                proof {
                    lemma_width_sum_prefix(widths@, k + 1);
                }
                return None;
            }
            let ghost before = cells@;
            if current_x >= 0 && current_x + char_width <= width as i32 && visible {
                cells.push((current_x as u16, c));
            } else {
                assert(cells@ =~= before + Seq::<(u16, char)>::empty());
            }
            current_x += char_width;
        }
    }
    assert(widths@.take(n as int) =~= widths@);
    assert(chars@.take(n as int) =~= chars@);
    Some(cells)
}

/// The characters of `text`, in order.
pub fn text_chars(text: &str) -> (res: Vec<char>)
    ensures
        res@ == text@,
{
    let mut chars: Vec<char> = Vec::new();
    let ghost s = text@;
    for c in it: text.chars()
        invariant
            it.seq() == s,
            s == text@,
            chars@ == s.take(it.index() as int),
    {
        let ghost k = it.index() as int;
        chars.push(c);
        assert(chars@ =~= s.take(k + 1));
    }
    assert(s.take(s.len() as int) =~= s);
    chars
}

/// The columns at which the characters of `text` are drawn on row `y`, when
/// the text starts at column `x` and the area is `width` columns wide and
/// ends above row `bottom`; `None` exactly where the column after the text,
/// `x` plus the width of the text, would overflow an `i32`.
pub fn place_row(x: i32, y: u16, bottom: u16, width: u16, text: &str) -> (res: Option<
    Vec<(u16, char)>,
>)
    ensures
        match res {
            Some(cells) => x + text_columns_spec(text@) <= i32::MAX && cells@ == row_cells(
                x as int,
                y < bottom,
                width as int,
                text@,
                widths_of(text@),
            ),
            None => x + text_columns_spec(text@) > i32::MAX,
        },
{
    let chars = text_chars(text);
    let widths = char_columns(text);
    place_cells(x, y, bottom, width, chars.as_slice(), widths.as_slice())
}

/// The label of the progress bar: minutes and seconds played, then minutes
/// and seconds in all, each at least two digits.
pub open spec fn progress_label_spec(current_secs: nat, total_secs: nat) -> Seq<char> {
    zero_padded(current_secs / 60, 2) + seq![':'] + zero_padded(current_secs % 60, 2) + seq![
        ' ',
        '/',
        ' ',
    ] + zero_padded(total_secs / 60, 2) + seq![':'] + zero_padded(total_secs % 60, 2)
}

/// The label of the progress bar, such as "01:05 / 12:00".
pub fn progress_label(current_secs: u64, total_secs: u64) -> (res: String)
    ensures
        res@ == progress_label_spec(current_secs as nat, total_secs as nat),
{
    let mut s = String::new();
    push_two_digits(&mut s, current_secs / 60);
    s.push(':');
    push_two_digits(&mut s, current_secs % 60);
    s.push(' ');
    s.push('/');
    s.push(' ');
    push_two_digits(&mut s, total_secs / 60);
    s.push(':');
    push_two_digits(&mut s, total_secs % 60);
    assert(s@ =~= progress_label_spec(current_secs as nat, total_secs as nat));
    s
}

/// A key that the player is given.
pub enum Key {
    Char(char),
    Esc,
    Other,
}

/// Whether the key closes the player: 'q' or Escape.
pub fn is_quit_key(key: &Key) -> (res: bool)
    ensures
        res == (*key == Key::Char('q') || *key == Key::Esc),
{
    match key {
        Key::Char(c) => *c == 'q',
        Key::Esc => true,
        Key::Other => false,
    }
}

/// Every character of a text drawn on a row lies wholly within the area,
/// and each one starts after the one before it ends, so that none overlap.
pub proof fn lemma_row_cells_fit(x0: int, visible: bool, width: int, s: Seq<char>)
    requires
        width <= u16::MAX,
    ensures
        forall|i: int|
            #![trigger row_cells(x0, visible, width, s, widths_of(s))[i]]
            0 <= i < row_cells(x0, visible, width, s, widths_of(s)).len() ==> {
                let cell = row_cells(x0, visible, width, s, widths_of(s))[i];
                0 <= cell.0 && cell.0 + columns(cell.1) <= width && cell.0 + columns(cell.1) <= x0
                    + text_columns_spec(s)
            },
        forall|i: int, j: int|
            0 <= i < j < row_cells(x0, visible, width, s, widths_of(s)).len() ==> row_cells(
                x0,
                visible,
                width,
                s,
                widths_of(s),
            )[i].0 + columns(row_cells(x0, visible, width, s, widths_of(s))[i].1) <= row_cells(
                x0,
                visible,
                width,
                s,
                widths_of(s),
            )[j].0,
    decreases s.len(),
{
    if s.len() > 0 {
        let pre = s.drop_last();
        lemma_row_cells_fit(x0, visible, width, pre);
        let w = widths_of(s);
        assert(w.drop_last() =~= widths_of(pre));
        assert(w.last() as int == columns(s.last()));
        let prev = row_cells(x0, visible, width, pre, widths_of(pre));
        let cur = row_cells(x0, visible, width, s, w);
        assert(cur == prev + if (w.last() as int) > 0 && visible && x0 + width_sum(w.drop_last())
            >= 0 && x0 + width_sum(w.drop_last()) + (w.last() as int) <= width {
            seq![((x0 + width_sum(w.drop_last())) as u16, s.last())]
        } else {
            Seq::<(u16, char)>::empty()
        });
        assert(text_columns_spec(s) == text_columns_spec(pre) + columns(s.last()));
        assert forall|i: int| 0 <= i < prev.len() implies #[trigger] cur[i] == prev[i] by {}
        assert forall|i: int, j: int| 0 <= i < j < cur.len() implies cur[i].0 + columns(cur[i].1)
            <= cur[j].0 by {
            assert(cur[i] == prev[i]);
            if j < prev.len() {
                assert(cur[j] == prev[j]);
            } else {
                let x = x0 + text_columns_spec(pre);
                assert(0 <= x <= u16::MAX);
                assert(cur[j].0 == x);
            }
        }
    }
}

/// On a visible row, every character with a width whose columns lie wholly
/// within `0 .. width` is drawn, at the column after the widths of the
/// characters before it.
pub proof fn lemma_row_cells_draw_all_that_fit(
    x0: int,
    visible: bool,
    width: int,
    chars: Seq<char>,
    widths: Seq<usize>,
)
    requires
        chars.len() == widths.len(),
    ensures
        forall|i: int|
            #![trigger chars[i]]
            0 <= i < chars.len() && visible && widths[i] > 0 && 0 <= x0 + width_sum(widths.take(i))
                && x0 + width_sum(widths.take(i)) + widths[i] <= width ==> row_cells(
                x0,
                visible,
                width,
                chars,
                widths,
            ).contains(((x0 + width_sum(widths.take(i))) as u16, chars[i])),
    decreases chars.len(),
{
    if chars.len() > 0 {
        let pc = chars.drop_last();
        let pw = widths.drop_last();
        let n = chars.len() - 1;
        lemma_row_cells_draw_all_that_fit(x0, visible, width, pc, pw);
        let prev = row_cells(x0, visible, width, pc, pw);
        let cur = row_cells(x0, visible, width, chars, widths);
        assert(widths.take(n) =~= pw);
        assert forall|i: int|
            #![trigger chars[i]]
            0 <= i < chars.len() && visible && widths[i] > 0 && 0 <= x0 + width_sum(widths.take(i))
                && x0 + width_sum(widths.take(i)) + widths[i] <= width implies cur.contains(
            ((x0 + width_sum(widths.take(i))) as u16, chars[i]),
        ) by {
            let cell = ((x0 + width_sum(widths.take(i))) as u16, chars[i]);
            if i < n {
                assert(pw.take(i) =~= widths.take(i));
                assert(pc[i] == chars[i] && pw[i] == widths[i]);
                assert(prev.contains(cell));
                let k = choose|k: int| 0 <= k < prev.len() && prev[k] == cell;
                assert(cur[k] == prev[k]);
            } else {
                assert(cur[prev.len() as int] == cell);
            }
        }
    }
}

/// The label reads as the minutes played, a colon, the seconds played in
/// two digits, " / ", the minutes in all, a colon and the seconds in all in
/// two digits; the minutes take at least two digits.
pub proof fn lemma_progress_label_reads(current_secs: nat, total_secs: nat)
    ensures
        exists|a: Seq<char>, b: Seq<char>, c: Seq<char>, d: Seq<char>|
            {
                &&& progress_label_spec(current_secs, total_secs) == a + seq![':'] + b + seq![
                    ' ',
                    '/',
                    ' ',
                ] + c + seq![':'] + d
                &&& read_digits(a) == Some(current_secs / 60) && a.len() >= 2
                &&& read_digits(b) == Some(current_secs % 60) && b.len() == 2
                &&& read_digits(c) == Some(total_secs / 60) && c.len() >= 2
                &&& read_digits(d) == Some(total_secs % 60) && d.len() == 2
            },
{
    let a = zero_padded(current_secs / 60, 2);
    let b = zero_padded(current_secs % 60, 2);
    let c = zero_padded(total_secs / 60, 2);
    let d = zero_padded(total_secs % 60, 2);
    lemma_read_two_digits(current_secs / 60);
    lemma_read_two_digits(current_secs % 60);
    lemma_read_two_digits(total_secs / 60);
    lemma_read_two_digits(total_secs % 60);
    assert(progress_label_spec(current_secs, total_secs) == a + seq![':'] + b + seq![' ', '/', ' ']
        + c + seq![':'] + d);
}

} // verus!
