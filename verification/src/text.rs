//! Text helpers: decoding bytes, display widths, prefixes and decimals.

use vstd::prelude::*;
use vstd::utf8::{decode_utf8, valid_utf8};

verus! {

/// What `String::from_utf8_lossy` makes of `bytes`.
pub uninterp spec fn lossy_utf8(bytes: Seq<u8>) -> Seq<char>;

/// `String::from_utf8_lossy(bytes)`, turned into an owned `String`. std
/// documents that valid UTF-8 is decoded as it is and that every invalid
/// sequence becomes U+FFFD, so the text is empty exactly when the bytes are;
/// what invalid input gives beyond that is left unsaid.
#[verifier::external_body]
pub(crate) fn utf8_lossy(bytes: &[u8]) -> (res: String)
    ensures
        res@ == lossy_utf8(bytes@),
        valid_utf8(bytes@) ==> res@ == decode_utf8(bytes@),
        res@.len() == 0 <==> bytes@.len() == 0,
{
    String::from_utf8_lossy(bytes).to_string()
}

/// `String::push` appends one character.
pub assume_specification[ String::push ](s: &mut String, ch: char)
    ensures
        final(s)@ == old(s)@.push(ch),
;

/// The decimal digit `d`.
pub open spec fn digit_char(d: nat) -> char {
    (48 + d) as char
}

/// The decimal numeral of `n`, without leading zeros.
pub open spec fn decimal(n: nat) -> Seq<char>
    decreases n,
{
    if n < 10 {
        seq![digit_char(n)]
    } else {
        decimal(n / 10).push(digit_char(n % 10))
    }
}

/// The decimal numeral of `n`, with zeros in front up to `width` characters.
pub open spec fn zero_padded(n: nat, width: nat) -> Seq<char> {
    let d = decimal(n);
    if d.len() < width {
        Seq::new((width - d.len()) as nat, |i: int| '0') + d
    } else {
        d
    }
}

/// The decimal numeral of `i`, with a minus sign when it is negative.
pub open spec fn signed_decimal(i: int) -> Seq<char> {
    if i < 0 {
        seq!['-'] + decimal((-i) as nat)
    } else {
        decimal(i as nat)
    }
}

/// Appends the decimal numeral of `n` to `s`.
pub fn push_decimal(s: &mut String, n: u64)
    ensures
        final(s)@ == old(s)@ + decimal(n as nat),
    decreases n,
{
    if n >= 10 {
        push_decimal(s, n / 10);
    }
    let d = (n % 10) as u8;
    let c = (48u8 + d) as char;
    s.push(c);
    proof {
        if n >= 10 {
            assert(old(s)@ + decimal(n as nat) =~= old(s)@ + decimal((n / 10) as nat) + seq![c]);
        } else {
            assert(old(s)@ + decimal(n as nat) =~= old(s)@.push(c));
        }
    }
}

/// Appends the decimal numeral of `n`, with zeros in front up to two
/// characters, to `s`.
pub fn push_two_digits(s: &mut String, n: u64)
    ensures
        final(s)@ == old(s)@ + zero_padded(n as nat, 2),
{
    if n < 10 {
        s.push('0');
    }
    push_decimal(s, n);
    proof {
        if n < 10 {
            assert(decimal(n as nat).len() == 1);
            assert(old(s)@ + zero_padded(n as nat, 2) =~= old(s)@.push('0') + decimal(n as nat));
        } else {
            lemma_decimal_len_ge_two(n as nat);
        }
    }
}

proof fn lemma_decimal_len_ge_two(n: nat)
    requires
        n >= 10,
    ensures
        decimal(n).len() >= 2,
{
    assert(decimal(n) == decimal(n / 10).push(digit_char(n % 10)));
    assert(decimal(n / 10).len() >= 1) by {
        lemma_decimal_nonempty((n / 10) as nat);
    }
}

/// A numeral has at least one digit.
pub proof fn lemma_decimal_nonempty(n: nat)
    ensures
        decimal(n).len() >= 1,
    decreases n,
{
    if n >= 10 {
        lemma_decimal_nonempty(n / 10);
    }
}

/// Appends the decimal numeral of `v`, with a minus sign when it is
/// negative, to `s`.
pub fn push_signed_decimal(s: &mut String, v: i64)
    ensures
        final(s)@ == old(s)@ + signed_decimal(v as int),
{
    if v < 0 {
        s.push('-');
        let m: u64 = (-(v as i128)) as u64;
        push_decimal(s, m);
        assert(old(s)@ + signed_decimal(v as int) =~= old(s)@.push('-') + decimal(m as nat));
    } else {
        push_decimal(s, v as u64);
    }
}

/// `prefix` starts `s`.
pub open spec fn starts_with(s: Seq<char>, prefix: Seq<char>) -> bool {
    prefix.len() <= s.len() && s.subrange(0, prefix.len() as int) == prefix
}

/// Whether `s` starts with `prefix`.
pub fn has_prefix(s: &str, prefix: &str) -> (res: bool)
    ensures
        res == starts_with(s@, prefix@),
{
    let n = prefix.unicode_len();
    if n > s.unicode_len() {
        return false;
    }
    let mut i: usize = 0;
    while i < n
        invariant
            n == prefix@.len(),
            n <= s@.len(),
            i <= n,
            forall|j: int| 0 <= j < i ==> s@[j] == prefix@[j],
        decreases n - i,
    {
        if s.get_char(i) != prefix.get_char(i) {
            assert(s@.subrange(0, n as int)[i as int] != prefix@[i as int]);
            return false;
        }
        i += 1;
    }
    assert(s@.subrange(0, n as int) =~= prefix@);
    true
}

/// The number of terminal columns that `unicode_width` gives a character.
pub uninterp spec fn unicode_width_of(c: char) -> Option<usize>;

/// `UnicodeWidthChar::width(c)` from `unicode_width`. Its source gives
/// control characters (below U+0020, and U+007F to U+009F) no width, printable
/// ASCII one column, and every other character at most three columns, by a
/// table lookup that is left unsaid.
#[verifier::external_body]
pub(crate) fn char_width(c: char) -> (res: Option<usize>)
    ensures
        res == unicode_width_of(c),
        (c as u32) < 0x20 ==> res is None,
        0x20 <= (c as u32) < 0x7F ==> res == Some(1usize),
        0x7F <= (c as u32) < 0xA0 ==> res is None,
        0xA0 <= (c as u32) ==> res is Some && res.unwrap() <= 3,
{
    unicode_width::UnicodeWidthChar::width(c)
}

/// The columns that a character takes on screen: its width, and none for a
/// control character.
pub open spec fn columns(c: char) -> nat {
    match unicode_width_of(c) {
        Some(w) => w as nat,
        None => 0,
    }
}

/// The columns of each character of `s`.
pub open spec fn widths_of(s: Seq<char>) -> Seq<usize> {
    Seq::new(s.len(), |i: int| columns(s[i]) as usize)
}

/// The sum of the widths `w`.
pub open spec fn width_sum(w: Seq<usize>) -> nat
    decreases w.len(),
{
    if w.len() == 0 {
        0
    } else {
        width_sum(w.drop_last()) + w.last() as nat
    }
}

/// The columns that the characters of `s` take together.
pub open spec fn text_columns_spec(s: Seq<char>) -> nat {
    width_sum(widths_of(s))
}

/// The columns that a character takes on screen.
pub fn column_width(c: char) -> (res: usize)
    ensures
        res == columns(c),
        res <= 3,
{
    match char_width(c) {
        Some(w) => w,
        None => 0,
    }
}

/// The columns of each character of `text`, in order.
pub fn char_columns(text: &str) -> (res: Vec<usize>)
    ensures
        res@ == widths_of(text@),
        forall|i: int| 0 <= i < res@.len() ==> res@[i] <= 3,
{
    let mut widths: Vec<usize> = Vec::new();
    let ghost s = text@;
    for c in it: text.chars()
        invariant
            it.seq() == s,
            s == text@,
            widths@ == widths_of(s.take(it.index() as int)),
            forall|i: int| 0 <= i < widths@.len() ==> widths@[i] <= 3,
    {
        let ghost k = it.index() as int;
        assert(s.take(k + 1)[k] == c);
        widths.push(column_width(c));
        assert(widths@ =~= widths_of(s.take(k + 1)));
    }
    assert(s.take(s.len() as int) =~= s);
    widths
}

/// The sum of `widths`; `None` exactly where it does not fit in a `usize`.
pub fn sum_widths(widths: &[usize]) -> (res: Option<usize>)
    ensures
        match res {
            Some(w) => w == width_sum(widths@),
            None => width_sum(widths@) > usize::MAX,
        },
{
    let mut total: usize = 0;
    let n = widths.len();
    for i in 0..n
        invariant
            n == widths@.len(),
            total == width_sum(widths@.take(i as int)),
    {
        assert(widths@.take(i + 1).drop_last() =~= widths@.take(i as int));
        let w = widths[i];
        if total > usize::MAX - w {
            proof {
                lemma_width_sum_prefix(widths@, i + 1);
            }
            return None;
        }
        total = total + w;
    }
    assert(widths@.take(n as int) =~= widths@);
    Some(total)
}

/// A prefix of the widths never sums to more than all of them.
pub proof fn lemma_width_sum_prefix(w: Seq<usize>, k: int)
    requires
        0 <= k <= w.len(),
    ensures
        width_sum(w.take(k)) <= width_sum(w),
    decreases w.len() - k,
{
    if k < w.len() {
        lemma_width_sum_prefix(w, k + 1);
        assert(w.take(k + 1).drop_last() =~= w.take(k));
    } else {
        assert(w.take(k) =~= w);
    }
}

/// The columns that `text` takes on screen; `None` exactly where that number
/// does not fit in a `usize`.
pub fn text_columns(text: &str) -> (res: Option<usize>)
    ensures
        match res {
            Some(w) => w == text_columns_spec(text@),
            None => text_columns_spec(text@) > usize::MAX,
        },
{
    let widths = char_columns(text);
    sum_widths(widths.as_slice())
}

/// Whether `a` and `b` are the same text.
pub fn same_text(a: &str, b: &str) -> (res: bool)
    ensures
        res == (a@ == b@),
{
    if a.unicode_len() != b.unicode_len() {
        return false;
    }
    let res = has_prefix(a, b);
    proof {
        if res {
            assert(a@ =~= a@.subrange(0, b@.len() as int));
        } else if a@ == b@ {
            assert(a@.subrange(0, a@.len() as int) =~= a@);
        }
    }
    res
}

/// The value of a decimal digit, if `c` is one.
pub open spec fn digit_value(c: char) -> Option<nat> {
    if '0' <= c && c <= '9' {
        Some((c as int - 48) as nat)
    } else {
        None
    }
}

/// The number that the digits `s` write in decimal; `None` when `s` is
/// empty or holds anything but digits.
pub open spec fn read_digits(s: Seq<char>) -> Option<nat>
    decreases s.len(),
{
    if s.len() == 0 {
        None
    } else {
        match digit_value(s.last()) {
            None => None,
            Some(d) => if s.len() == 1 {
                Some(d)
            } else {
                match read_digits(s.drop_last()) {
                    Some(v) => Some(v * 10 + d),
                    None => None,
                }
            },
        }
    }
}

/// The integer that `s` writes in decimal, with a minus sign in front when
/// it is negative; `None` when `s` is not such a numeral.
pub open spec fn read_signed(s: Seq<char>) -> Option<int> {
    if s.len() > 0 && s[0] == '-' {
        match read_digits(s.drop_first()) {
            Some(v) => Some(-v),
            None => None,
        }
    } else {
        match read_digits(s) {
            Some(v) => Some(v as int),
            None => None,
        }
    }
}

proof fn lemma_digit_char_value(d: nat)
    requires
        d < 10,
    ensures
        digit_value(digit_char(d)) == Some(d),
        digit_char(d) != '-',
{
    assert((48 + d) as char as int == 48 + d);
}

/// A decimal numeral reads back as the number it was made from, and it
/// starts with a digit.
pub proof fn lemma_read_decimal(n: nat)
    ensures
        read_digits(decimal(n)) == Some(n),
        decimal(n).len() >= 1,
        decimal(n)[0] != '-',
    decreases n,
{
    if n < 10 {
        lemma_digit_char_value(n);
    } else {
        lemma_read_decimal(n / 10);
        lemma_digit_char_value(n % 10);
        let d = decimal(n);
        assert(d.drop_last() =~= decimal(n / 10));
        assert(d[0] == decimal(n / 10)[0]);
    }
}

/// A signed numeral reads back as the integer it was made from.
pub proof fn lemma_read_signed_decimal(i: int)
    ensures
        read_signed(signed_decimal(i)) == Some(i),
{
    if i < 0 {
        let s = signed_decimal(i);
        lemma_read_decimal((-i) as nat);
        assert(s.drop_first() =~= decimal((-i) as nat));
    } else {
        lemma_read_decimal(i as nat);
    }
}

/// A numeral padded to two digits reads back as its number and has at least
/// two digits.
pub proof fn lemma_read_two_digits(n: nat)
    ensures
        read_digits(zero_padded(n, 2)) == Some(n),
        zero_padded(n, 2).len() >= 2,
        n < 100 ==> zero_padded(n, 2).len() == 2,
{
    lemma_read_decimal(n);
    let d = decimal(n);
    if d.len() < 2 {
        let z = zero_padded(n, 2);
        assert(n < 10) by {
            if n >= 10 {
                lemma_decimal_len_ge_two(n);
            }
        }
        lemma_digit_char_value(n);
        assert(z =~= seq!['0', digit_char(n)]);
        assert(z.drop_last() =~= seq!['0']);
        assert(digit_value('0') == Some(0nat));
        assert(read_digits(seq!['0']) == Some(0nat));
        assert(z.last() == digit_char(n));
        assert(read_digits(z) == Some(0nat * 10 + n));
    } else if n < 100 {
        lemma_decimal_len_ge_two(n);
        assert(decimal(n / 10).len() == 1);
    }
}

} // verus!
