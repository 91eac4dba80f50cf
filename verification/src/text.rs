//! Text: numbers written out, and the few string operations that the formats need.
use vstd::prelude::*;

verus! {

/// `String::push` appends a character to the string.
pub assume_specification[ String::push ](s: &mut String, ch: char)
    ensures
        final(s)@ == old(s)@.push(ch),
;

/// Whether a character is alphabetic or numeric, by the Unicode character tables.
pub uninterp spec fn alphanumeric(c: char) -> bool;

/// White space: the characters that have Unicode's property of that name.
pub open spec fn whitespace(c: char) -> bool {
    ('\t' <= c && c <= '\r') || c == ' ' || c == '\u{85}' || c == '\u{A0}' || c == '\u{1680}' || (
    '\u{2000}' <= c && c <= '\u{200A}') || c == '\u{2028}' || c == '\u{2029}' || c == '\u{202F}'
        || c == '\u{205F}' || c == '\u{3000}'
}

/// `char::is_alphanumeric` looks the character up in the Unicode tables; what they hold is
/// left unsaid.
pub assume_specification[ char::is_alphanumeric ](c: char) -> (r: bool)
    ensures
        r == alphanumeric(c),
;

/// `char::is_whitespace` tells whether a character has Unicode's `White_Space` property.
pub assume_specification[ char::is_whitespace ](c: char) -> (r: bool)
    ensures
        r == whitespace(c),
;

/// The text that a byte string stands for, invalid UTF-8 in it being replaced.
pub uninterp spec fn lossy_text(bytes: Seq<u8>) -> Seq<char>;

/// `String::from_utf8_lossy`: valid UTF-8 is decoded; where the bytes are not valid UTF-8 the
/// offending ones are replaced by U+FFFD, by rules that are left unsaid here.
#[verifier::external_body]
pub(crate) fn utf8_lossy(bytes: &[u8]) -> (r: String)
    ensures
        r@ == lossy_text(bytes@),
        vstd::utf8::valid_utf8(bytes@) ==> r@ == vstd::utf8::decode_utf8(bytes@),
{
    String::from_utf8_lossy(bytes).into_owned()
}

/// The text that UTF-16 code units stand for, each unpaired surrogate being replaced by U+FFFD.
pub open spec fn utf16_text(units: Seq<u16>) -> Seq<char>
    decreases units.len(),
{
    if units.len() == 0 {
        Seq::empty()
    } else if units.len() >= 2 && 0xD800 <= units[0] < 0xDC00 && 0xDC00 <= units[1] < 0xE000 {
        let c = (0x1_0000 + 0x400 * (units[0] - 0xD800) + (units[1] - 0xDC00)) as char;
        seq![c] + utf16_text(units.skip(2))
    } else if 0xD800 <= units[0] < 0xE000 {
        seq!['\u{FFFD}'] + utf16_text(units.skip(1))
    } else {
        seq![units[0] as char] + utf16_text(units.skip(1))
    }
}

/// `String::from_utf16_lossy`: code units outside the surrogate range are characters, pairs of
/// surrogates are decoded, and unpaired ones replaced.
#[verifier::external_body]
pub(crate) fn utf16_lossy(units: &[u16]) -> (r: String)
    ensures
        r@ == utf16_text(units@),
{
    String::from_utf16_lossy(units)
}

/// The digit of value `d`, up to 15.
pub open spec fn digit(d: int, upper: bool) -> char {
    if d < 10 {
        (48 + d) as u8 as char
    } else if upper {
        (55 + d) as u8 as char
    } else {
        (87 + d) as u8 as char
    }
}

fn digit_of(d: u64, upper: bool) -> (r: char)
    requires
        d < 16,
    ensures
        r == digit(d as int, upper),
{
    let b: u8 = if d < 10 {
        48 + d as u8
    } else if upper {
        55 + d as u8
    } else {
        87 + d as u8
    };
    b as char
}

/// A number written out in the given base, without leading zeros.
pub open spec fn digits(n: int, base: int, upper: bool) -> Seq<char>
    decreases n,
{
    if n < base || base < 2 {
        seq![digit(n, upper)]
    } else {
        proof {
            assert(0 <= n / base < n) by (nonlinear_arith)
                requires
                    n >= base,
                    base >= 2,
            ;
        }
        digits(n / base, base, upper).push(digit(n % base, upper))
    }
}

/// A number written out in decimal.
pub open spec fn decimal(n: int) -> Seq<char> {
    if n < 0 {
        seq!['-'] + digits(-n, 10, false)
    } else {
        digits(n, 10, false)
    }
}

/// A number written out in hexadecimal with capital letters.
pub open spec fn hex_upper(n: int) -> Seq<char> {
    digits(n, 16, true)
}

/// A number written out in hexadecimal with small letters.
pub open spec fn hex_lower(n: int) -> Seq<char> {
    digits(n, 16, false)
}

/// Zeros put before the text, up to the given length.
pub open spec fn zero_padded(s: Seq<char>, len: int) -> Seq<char> {
    if s.len() >= len {
        s
    } else {
        Seq::new((len - s.len()) as nat, |i: int| '0') + s
    }
}

fn push_digits(out: &mut String, n: u64, base: u64, upper: bool)
    requires
        2 <= base <= 16,
    ensures
        final(out)@ == old(out)@ + digits(n as int, base as int, upper),
    decreases n,
{
    if n < base {
        out.push(digit_of(n, upper));
    } else {
        assert(n / base < n) by (nonlinear_arith)
            requires
                n >= base,
                base >= 2,
        ;
        push_digits(out, n / base, base, upper);
        out.push(digit_of(n % base, upper));
    }
}

/// Writes a number in the given base, with zeros before it up to `width` digits.
fn push_padded(out: &mut String, n: u64, base: u64, upper: bool, width: usize)
    requires
        2 <= base <= 16,
    ensures
        final(out)@ == old(out)@ + zero_padded(digits(n as int, base as int, upper), width as int),
{
    let ghost all = digits(n as int, base as int, upper);
    let ghost start = out@;
    let mut count: usize = 1;
    let mut rest: u64 = n;
    while count < width && rest >= base
        invariant
            2 <= base <= 16,
            1 <= count,
            count <= width || count == 1,
            all.len() == count - 1 + digits(rest as int, base as int, upper).len(),
        decreases width - count,
    {
        rest = rest / base;
        count += 1;
    }
    proof {
        lemma_digits_len(rest as int, base as int, upper);
    }
    let mut i: usize = count;
    while i < width
        invariant
            count <= i,
            i <= width || i == count,
            out@ == start + Seq::new((i - count) as nat, |j: int| '0'),
        decreases width - i,
    {
        out.push('0');
        i += 1;
        assert(out@ =~= start + Seq::new((i - count) as nat, |j: int| '0'));
    }
    let ghost zeros = out@;
    push_digits(out, n, base, upper);
    proof {
        if all.len() < width {
            assert(zeros + all =~= start + zero_padded(all, width as int));
        } else {
            assert(zeros =~= start);
        }
    }
}

pub proof fn lemma_digits_len(n: int, base: int, upper: bool)
    ensures
        digits(n, base, upper).len() >= 1,
        n < base ==> digits(n, base, upper).len() == 1,
    decreases n,
{
}

/// Writes a number in decimal.
pub fn push_decimal(out: &mut String, n: u64)
    ensures
        final(out)@ == old(out)@ + decimal(n as int),
{
    push_digits(out, n, 10, false);
}

/// Writes a number in decimal, with a sign where it is negative.
pub fn push_signed(out: &mut String, n: i64)
    ensures
        final(out)@ == old(out)@ + decimal(n as int),
{
    if n < 0 {
        let ghost start = out@;
        out.push('-');
        let magnitude: u64 = if n == i64::MIN {
            0x8000_0000_0000_0000
        } else {
            (-n) as u64
        };
        push_digits(out, magnitude, 10, false);
        assert(start.push('-') + digits(magnitude as int, 10, false) =~= start + decimal(n as int));
    } else {
        push_digits(out, n as u64, 10, false);
    }
}

/// Writes a number in decimal, with zeros before it up to `width` digits.
pub fn push_decimal_padded(out: &mut String, n: u64, width: usize)
    ensures
        final(out)@ == old(out)@ + zero_padded(decimal(n as int), width as int),
{
    push_padded(out, n, 10, false, width);
}

/// Writes a number in hexadecimal with capital letters, with zeros before it up to `width`
/// digits.
pub fn push_hex_upper(out: &mut String, n: u64, width: usize)
    ensures
        final(out)@ == old(out)@ + zero_padded(hex_upper(n as int), width as int),
{
    push_padded(out, n, 16, true, width);
}

/// Writes a number in hexadecimal with small letters, with zeros before it up to `width`
/// digits.
pub fn push_hex_lower(out: &mut String, n: u64, width: usize)
    ensures
        final(out)@ == old(out)@ + zero_padded(hex_lower(n as int), width as int),
{
    push_padded(out, n, 16, false, width);
}

/// A number as text.
pub fn count_text(n: u64) -> (r: String)
    ensures
        r@ == decimal(n as int),
{
    let mut out: String = String::new();
    push_decimal(&mut out, n);
    assert(Seq::<char>::empty() + decimal(n as int) =~= decimal(n as int));
    out
}

/// A number in decimal.
pub fn decimal_string(n: i64) -> (r: String)
    ensures
        r@ == decimal(n as int),
{
    let mut out: String = String::new();
    push_signed(&mut out, n);
    assert(Seq::<char>::empty() + decimal(n as int) =~= decimal(n as int));
    out
}

/// Whether two texts are the same.
pub fn same_text(a: &str, b: &str) -> (r: bool)
    ensures
        r == (a@ == b@),
{
    let x: String = a.to_owned();
    let y: String = b.to_owned();
    x == y
}

/// The characters of a text.
pub fn chars_of(s: &str) -> (r: Vec<char>)
    ensures
        r@ == s@,
{
    let mut out: Vec<char> = Vec::new();
    for c in it: s.chars()
        invariant
            it.seq() == s@,
            out@ == s@.take(it.index()),
    {
        out.push(c);
    }
    assert(out@ =~= s@);
    out
}

/// The text made of the characters `from..to`.
pub fn text_between(chars: &Vec<char>, from: usize, to: usize) -> (r: String)
    requires
        from <= to <= chars.len(),
    ensures
        r@ == chars@.subrange(from as int, to as int),
{
    let mut out: String = String::new();
    let mut i: usize = from;
    while i < to
        invariant
            from <= i <= to <= chars.len(),
            out@ == chars@.subrange(from as int, i as int),
        decreases to - i,
    {
        out.push(chars[i]);
        i += 1;
        assert(out@ =~= chars@.subrange(from as int, i as int));
    }
    out
}

/// The text without the white space at its end.
pub open spec fn trim_end(s: Seq<char>) -> Seq<char>
    decreases s.len(),
{
    if s.len() > 0 && whitespace(s.last()) {
        trim_end(s.drop_last())
    } else {
        s
    }
}

/// The text without the white space at its start.
pub open spec fn trim_start(s: Seq<char>) -> Seq<char>
    decreases s.len(),
{
    if s.len() > 0 && whitespace(s[0]) {
        trim_start(s.drop_first())
    } else {
        s
    }
}

/// The text without the white space at its two ends.
pub open spec fn trimmed(s: Seq<char>) -> Seq<char> {
    trim_start(trim_end(s))
}

/// The text without the white space at its two ends.
pub fn trim(s: &str) -> (r: String)
    ensures
        r@ == trimmed(s@),
{
    let chars: Vec<char> = chars_of(s);
    let mut to: usize = chars.len();
    assert(s@.take(to as int) =~= s@);
    while to > 0 && chars[to - 1].is_whitespace()
        invariant
            to <= chars.len(),
            chars@ == s@,
            trim_end(s@.take(to as int)) == trim_end(s@),
        decreases to,
    {
        assert(s@.take(to as int).drop_last() =~= s@.take(to - 1));
        to -= 1;
    }
    let ghost kept = s@.take(to as int);
    assert(trim_end(s@) == kept) by {
        if to > 0 {
            assert(kept.last() == chars[to - 1]);
        }
    }
    let mut from: usize = 0;
    assert(kept.skip(0) =~= kept);
    while from < to && chars[from].is_whitespace()
        invariant
            from <= to <= chars.len(),
            chars@ == s@,
            kept == s@.take(to as int),
            trim_start(kept.skip(from as int)) == trim_start(kept),
        decreases to - from,
    {
        assert(kept.skip(from as int).drop_first() =~= kept.skip(from + 1));
        from += 1;
    }
    proof {
        let rest = kept.skip(from as int);
        if from < to {
            assert(rest[0] == chars[from as int]);
        }
        assert(trim_start(rest) == rest);
        assert(rest =~= chars@.subrange(from as int, to as int));
    }
    text_between(&chars, from, to)
}

/// A letter made small, if it is one of the 26 capital letters of ASCII.
pub open spec fn ascii_lower(c: char) -> char {
    if 'A' <= c && c <= 'Z' {
        (c as u8 + 32) as u8 as char
    } else {
        c
    }
}

/// The text with its ASCII letters made small.
pub fn lowercase(s: &str) -> (r: String)
    ensures
        r@ == s@.map_values(|c: char| ascii_lower(c)),
{
    let chars: Vec<char> = chars_of(s);
    let mut out: String = String::new();
    let mut i: usize = 0;
    while i < chars.len()
        invariant
            i <= chars.len(),
            chars@ == s@,
            out@ == s@.take(i as int).map_values(|c: char| ascii_lower(c)),
        decreases chars.len() - i,
    {
        let c: char = chars[i];
        let l: char = if 'A' <= c && c <= 'Z' {
            (c as u8 + 32) as char
        } else {
            c
        };
        out.push(l);
        i += 1;
        assert(out@ =~= s@.take(i as int).map_values(|c: char| ascii_lower(c)));
    }
    assert(s@.take(i as int) =~= s@);
    out
}

/// What strings hold.
pub open spec fn string_views(list: Seq<String>) -> Seq<Seq<char>> {
    list.map_values(|s: String| s@)
}

/// This many spaces.
pub open spec fn spaces(n: int) -> Seq<char> {
    Seq::new(
        if n < 0 {
            0
        } else {
            n as nat
        },
        |i: int| ' ',
    )
}

/// A text filled up with spaces behind it.
pub open spec fn padded_right(s: Seq<char>, width: int) -> Seq<char> {
    s + spaces(width - s.len())
}

/// A text filled up with spaces before it.
pub open spec fn padded_left(s: Seq<char>, width: int) -> Seq<char> {
    spaces(width - s.len()) + s
}

fn push_spaces(out: &mut String, n: usize)
    ensures
        final(out)@ == old(out)@ + spaces(n as int),
{
    let ghost start = out@;
    let mut i: usize = 0;
    assert(start + spaces(0) =~= start);
    while i < n
        invariant
            i <= n,
            out@ == start + spaces(i as int),
        decreases n - i,
    {
        out.push(' ');
        i += 1;
        assert(start + spaces(i as int) =~= (start + spaces(i - 1)).push(' '));
    }
}

pub fn push_right_padded(out: &mut String, s: &str, width: usize)
    ensures
        final(out)@ == old(out)@ + padded_right(s@, width as int),
{
    let len: usize = chars_of(s).len();
    let ghost start = out@;
    out.append(s);
    let gap: usize = if len < width {
        width - len
    } else {
        0
    };
    push_spaces(out, gap);
    assert(spaces(gap as int) =~= spaces(width - s@.len()));
    assert(out@ =~= start + padded_right(s@, width as int));
}

pub fn push_left_padded(out: &mut String, s: &str, width: usize)
    ensures
        final(out)@ == old(out)@ + padded_left(s@, width as int),
{
    let len: usize = chars_of(s).len();
    let ghost start = out@;
    let gap: usize = if len < width {
        width - len
    } else {
        0
    };
    push_spaces(out, gap);
    out.append(s);
    assert(spaces(gap as int) =~= spaces(width - s@.len()));
    assert(out@ =~= start + padded_left(s@, width as int));
}

} // verus!
