//! Text for the terminal: cursor positioning, and paths shortened to fit a line.
use vstd::prelude::*;
use crate::text::{decimal_of, digit_char, chars_of, string_of, copy_chars, push_chars, decimal_chars};

verus! {

/// The ANSI sequence that moves the cursor to column `x`, row `y` (one-based).
pub open spec fn goto_text(x: nat, y: nat) -> Seq<char> {
    seq!['\x1b', '['] + decimal_of(y) + seq![';'] + decimal_of(x) + seq!['H']
}

/// `termion::cursor::Goto(x, y).to_string()`: its `Display` writes `"\x1B[{y};{x}H"`;
/// it asserts in debug builds that the position is not (0, 0).
#[verifier::external_body]
fn termion_goto(x: u16, y: u16) -> (r: String)
    requires
        !(x == 0 && y == 0),
    ensures
        r@ == goto_text(x as nat, y as nat),
{
    termion::cursor::Goto(x, y).to_string()
}

/// Moves the cursor to the start of row `y`.
pub fn at_line(y: u16) -> (r: String)
    ensures
        r@ == goto_text(1, y as nat),
{
    termion_goto(1, y)
}

/// The text that moves the cursor to the start of row `row` and clears that row.
pub open spec fn set_row_text(row: nat) -> Seq<char> {
    seq!['\x1b', '['] + decimal_of(row) + seq![';', '1', 'H', '\x1b', '[', '2', 'K']
}

/// Moves the cursor to the start of row `row` and clears the row.
pub fn ansi_set_row(row: u32) -> (r: String)
    ensures
        r@ == set_row_text(row as nat),
{
    let mut v: Vec<char> = Vec::new();
    v.push('\x1b');
    v.push('[');
    push_chars(&mut v, &decimal_chars(row as u64));
    v.push(';');
    v.push('1');
    v.push('H');
    v.push('\x1b');
    v.push('[');
    v.push('2');
    v.push('K');
    assert(v@ =~= set_row_text(row as nat));
    string_of(&v)
}

/// The UTF-8 encoding of two texts one after the other is the two encodings.
pub proof fn lemma_encode_utf8_concat(a: Seq<char>, b: Seq<char>)
    ensures
        vstd::utf8::encode_utf8(a + b) == vstd::utf8::encode_utf8(a) + vstd::utf8::encode_utf8(b),
    decreases a.len(),
{
    if a.len() == 0 {
        assert(a + b =~= b);
        assert(Seq::<u8>::empty() + vstd::utf8::encode_utf8(b) =~= vstd::utf8::encode_utf8(b));
    } else {
        lemma_encode_utf8_concat(a.drop_first(), b);
        assert((a + b).drop_first() =~= a.drop_first() + b);
        assert((a + b)[0] == a[0]);
    }
}

/// The number of bytes of the UTF-8 encoding of `c`.
fn utf8_width(c: char) -> (w: usize)
    ensures
        w == vstd::utf8::encode_utf8(seq![c]).len(),
{
    proof {
        vstd::utf8::char_is_scalar(c);
        assert(seq![c].drop_first() =~= Seq::<char>::empty());
        assert(vstd::utf8::encode_utf8(Seq::<char>::empty()) =~= Seq::<u8>::empty());
        assert(vstd::utf8::encode_utf8(seq![c]) =~= vstd::utf8::encode_scalar(c as u32));
    }
    let v = c as u32;
    if v <= 0x7f {
        1
    } else if v <= 0x7ff {
        2
    } else if v <= 0xffff {
        3
    } else {
        4
    }
}

/// The byte position in `text` where its character number `char_pos` starts.
pub fn byte_pos_from_chars(text: &str, char_pos: usize) -> (r: usize)
    requires
        char_pos < text@.len(),
    ensures
        r == vstd::utf8::encode_utf8(text@.take(char_pos as int)).len(),
{
    let cs = chars_of(text);
    let total = text.as_bytes().len();
    proof {
        lemma_encode_utf8_concat(text@.take(char_pos as int), text@.skip(char_pos as int));
        assert(text@.take(char_pos as int) + text@.skip(char_pos as int) =~= text@);
    }
    let mut r: usize = 0;
    let mut i: usize = 0;
    while i < char_pos
        invariant
            cs@ == text@,
            i <= char_pos < text@.len(),
            total == vstd::utf8::encode_utf8(text@).len(),
            vstd::utf8::encode_utf8(text@.take(char_pos as int)).len() <= total,
            r == vstd::utf8::encode_utf8(text@.take(i as int)).len(),
        decreases char_pos - i,
    {
        proof {
            lemma_encode_utf8_concat(text@.take(i as int), seq![text@[i as int]]);
            assert(text@.take(i + 1) =~= text@.take(i as int) + seq![text@[i as int]]);
            lemma_encode_utf8_concat(text@.take(i + 1), text@.subrange(i + 1, char_pos as int));
            assert(text@.take(i + 1) + text@.subrange(i + 1, char_pos as int) =~= text@.take(char_pos as int));
        }
        r = r + utf8_width(cs[i]);
        i = i + 1;
    }
    r
}

/// The text shortened for a screen line of `x_max_char` characters: when it is longer,
/// the first and the last `x_max_char / 2 - 2` characters with `...` between them.
pub open spec fn shortened(text: Seq<char>, x_max_char: nat) -> Seq<char> {
    if text.len() > x_max_char {
        let half = x_max_char / 2 - 2;
        text.take(half) + seq!['.', '.', '.'] + text.skip(text.len() - half)
    } else {
        text
    }
}

/// Shortens a path for the screen to avoid that it wraps. Shortening needs a width of
/// at least 6 characters; below it the position computation fails.
pub fn shorten_string(text: &str, x_max_char: u16) -> (r: String)
    requires
        text@.len() > x_max_char ==> x_max_char >= 6,
    ensures
        r@ == shortened(text@, x_max_char as nat),
        text@.len() > x_max_char ==> r@.len() < x_max_char,
{
    let cs = chars_of(text);
    let n = cs.len();
    if n > x_max_char as usize {
        let half: usize = (x_max_char / 2 - 2) as usize;
        let mut v: Vec<char> = Vec::new();
        let mut i: usize = 0;
        while i < half
            invariant
                cs@ == text@,
                n == text@.len(),
                half < n,
                i <= half,
                v@ == text@.take(i as int),
            decreases half - i,
        {
            v.push(cs[i]);
            i = i + 1;
            assert(v@ =~= text@.take(i as int));
        }
        v.push('.');
        v.push('.');
        v.push('.');
        let mut j: usize = n - half;
        let ghost head = v@;
        while j < n
            invariant
                cs@ == text@,
                n == text@.len(),
                half < n,
                n - half <= j <= n,
                v@ == head + text@.subrange(n - half, j as int),
            decreases n - j,
        {
            v.push(cs[j]);
            j = j + 1;
            assert(v@ =~= head + text@.subrange(n - half, j as int));
        }
        assert(v@ =~= shortened(text@, x_max_char as nat));
        string_of(&v)
    } else {
        string_of(&cs)
    }
}

/// The next number in a cycle from `min` to `max`: after `max` (or anything beyond it)
/// comes `min` again. It numbers the worker threads for their rows on the screen.
pub fn increment_and_loop(value: i32, min: i32, max: i32) -> (r: i32)
    ensures
        r == (if value >= max { min as int } else { value + 1 }),
{
    if value >= max {
        min
    } else {
        value + 1
    }
}

/// The three decimal digits of `n` below 1000, with leading zeros.
pub open spec fn three_digits(n: int) -> Seq<char> {
    seq![digit_char(n / 100), digit_char((n / 10) % 10), digit_char(n % 10)]
}

/// The decimal digits of `n` in groups of three from the right, separated by `','`.
pub open spec fn grouped_of(n: nat) -> Seq<char>
    decreases n,
{
    if n < 1000 {
        decimal_of(n)
    } else {
        grouped_of(n / 1000) + seq![','] + three_digits((n % 1000) as int)
    }
}

/// `n` with its digits grouped, and a `'-'` before a negative number.
pub open spec fn grouped_signed(n: int) -> Seq<char> {
    if n < 0 {
        seq!['-'] + grouped_of((-n) as nat)
    } else {
        grouped_of(n as nat)
    }
}

/// `num_format::ToFormattedString::to_formatted_string` with `Locale::en`: the crate
/// writes the digits of the magnitude with the locale's separator `","` every three
/// digits (its grouping `Standard`) and puts the locale's minus sign `"-"` before a
/// negative number.
#[verifier::external_body]
fn format_grouped_en(n: i64) -> (r: String)
    ensures
        r@ == grouped_signed(n as int),
{
    num_format::ToFormattedString::to_formatted_string(&n, &num_format::Locale::en)
}

/// A duration as printed with the elapsed times: its digits grouped in threes.
pub fn duration_text(duration: i64) -> (r: String)
    ensures
        r@ == grouped_signed(duration as int),
{
    format_grouped_en(duration)
}

} // verus!
