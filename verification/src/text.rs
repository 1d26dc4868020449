//! Bytes, ASCII classes and numerals: the small vocabulary the codec is
//! written in.
use vstd::prelude::*;
use vstd::string::StrSliceExecFns;
use vstd::string::StringExecFns;

verus! {

/// `String::push` appends the given character and changes nothing else.
pub assume_specification[ String::push ](s: &mut String, c: char)
    ensures
        final(s)@ == old(s)@.push(c),
;

pub const BACKSLASH: u8 = 0x5c;

pub const QUOTE: u8 = 0x22;

pub const SLASH: u8 = 0x2f;

pub const SPACE: u8 = 0x20;

pub const TAB: u8 = 0x09;

pub const NEWLINE: u8 = 0x0a;

pub const FORM_FEED: u8 = 0x0c;

pub const CARRIAGE_RETURN: u8 = 0x0d;

pub const DOT: u8 = 0x2e;

/// An ASCII letter or digit.
pub open spec fn alphanumeric(b: u8) -> bool {
    (0x30 <= b <= 0x39) || (0x41 <= b <= 0x5a) || (0x61 <= b <= 0x7a)
}

/// An ASCII punctuation character: printable, not a letter, digit or space.
pub open spec fn punctuation(b: u8) -> bool {
    (0x21 <= b <= 0x2f) || (0x3a <= b <= 0x40) || (0x5b <= b <= 0x60) || (0x7b <= b <= 0x7e)
}

/// ASCII whitespace: space, tab, line feed, form feed, carriage return.
pub open spec fn whitespace(b: u8) -> bool {
    b == SPACE || b == TAB || b == NEWLINE || b == FORM_FEED || b == CARRIAGE_RETURN
}

/// Tells whether `b` is an ASCII letter or digit.
pub fn is_alphanumeric(b: u8) -> (r: bool)
    ensures
        r == alphanumeric(b),
{
    (0x30 <= b && b <= 0x39) || (0x41 <= b && b <= 0x5a) || (0x61 <= b && b <= 0x7a)
}

/// Tells whether `b` is an ASCII punctuation character.
pub fn is_punctuation(b: u8) -> (r: bool)
    ensures
        r == punctuation(b),
{
    (0x21 <= b && b <= 0x2f) || (0x3a <= b && b <= 0x40) || (0x5b <= b && b <= 0x60) || (0x7b <= b
        && b <= 0x7e)
}

/// Tells whether `b` is ASCII whitespace.
pub fn is_whitespace(b: u8) -> (r: bool)
    ensures
        r == whitespace(b),
{
    b == SPACE || b == TAB || b == NEWLINE || b == FORM_FEED || b == CARRIAGE_RETURN
}

/// The text whose characters are the given bytes, one for one.
pub open spec fn text(bytes: Seq<u8>) -> Seq<char> {
    bytes.map_values(|b: u8| b as char)
}

/// Every byte is below 128.
pub open spec fn all_ascii(bytes: Seq<u8>) -> bool {
    forall|i: int| 0 <= i < bytes.len() ==> bytes[i] < 0x80
}

/// ASCII text is its own UTF-8 encoding.
pub proof fn lemma_text_bytes(bytes: Seq<u8>)
    requires
        all_ascii(bytes),
    ensures
        vstd::utf8::encode_utf8(text(bytes)) == bytes,
        vstd::utf8::is_ascii_chars(text(bytes)),
{
    let t = text(bytes);
    assert forall|i: int| 0 <= i < t.len() implies '\0' <= #[trigger] t[i] <= '\u{7f}' by {
        assert(t[i] == bytes[i] as char);
    }
    vstd::utf8::is_ascii_chars_encode_utf8(t);
    assert(vstd::utf8::encode_utf8(t) =~= bytes) by {
        assert forall|i: int| 0 <= i < bytes.len() implies (bytes[i] as char) as u8 == bytes[i] by {
        }
    }
}

/// The text of two byte strings in a row is their texts in a row.
pub proof fn lemma_text_concat(a: Seq<u8>, b: Seq<u8>)
    ensures
        text(a + b) == text(a) + text(b),
{
    assert(text(a + b) =~= text(a) + text(b));
}

/// The UTF-8 encoding of two texts in a row is their encodings in a row.
pub proof fn lemma_encode_concat(a: Seq<char>, b: Seq<char>)
    ensures
        vstd::utf8::encode_utf8(a + b) == vstd::utf8::encode_utf8(a) + vstd::utf8::encode_utf8(b),
    decreases a.len(),
{
    if a.len() == 0 {
        assert(a + b =~= b);
        assert(vstd::utf8::encode_utf8(a) + vstd::utf8::encode_utf8(b) =~= vstd::utf8::encode_utf8(
            b,
        ));
    } else {
        assert((a + b).drop_first() =~= a.drop_first() + b);
        lemma_encode_concat(a.drop_first(), b);
        assert(vstd::utf8::encode_utf8(a + b) =~= vstd::utf8::encode_utf8(a)
            + vstd::utf8::encode_utf8(b));
    }
}

/// Appends one byte to `out` as the character of the same number.
pub fn push_byte(out: &mut String, b: u8)
    ensures
        final(out)@ == old(out)@ + text(seq![b]),
{
    out.push(b as char);
    assert(out@ =~= old(out)@ + text(seq![b]));
}

/// The digit for `d` in lower case, as a byte: `0`-`9`, then `a`-`z`.
pub open spec fn digit(d: nat) -> u8 {
    if d < 10 {
        (0x30 + d) as u8
    } else {
        (0x61 + d - 10) as u8
    }
}

/// The numeral of `n` in the given base, most significant digit first,
/// without leading zeros.
pub open spec fn numeral(n: nat, base: nat) -> Seq<u8>
    decreases n,
    via numeral_decreases
{
    if base < 2 || n < base {
        seq![digit(n)]
    } else {
        numeral(n / base, base).push(digit(n % base))
    }
}

#[via_fn]
proof fn numeral_decreases(n: nat, base: nat) {
    if !(base < 2 || n < base) {
        lemma_quotient_smaller(n, base);
    }
}

proof fn lemma_quotient_smaller(n: nat, base: nat)
    requires
        2 <= base <= n,
    ensures
        n / base < n,
{
    assert(n / base < n) by (nonlinear_arith)
        requires
            2 <= base <= n,
    ;
}

/// A numeral in a base up to ten is made of the digits `0` to `9`.
pub proof fn lemma_numeral_digits(n: nat, base: nat)
    requires
        2 <= base <= 10,
    ensures
        forall|i: int|
            0 <= i < numeral(n, base).len() ==> 0x30 <= #[trigger] numeral(n, base)[i] <= 0x39,
    decreases n,
{
    if n >= base {
        lemma_quotient_smaller(n, base);
        lemma_numeral_digits(n / base, base);
        assert(n % base < base) by (nonlinear_arith)
            requires
                base >= 2,
        ;
        let high = numeral(n / base, base);
        assert forall|i: int| 0 <= i < numeral(n, base).len() implies 0x30 <= #[trigger] numeral(
            n,
            base,
        )[i] <= 0x39 by {
            if i < high.len() {
                assert(numeral(n, base)[i] == high[i]);
            }
        }
    }
}

/// `s` with zeros in front of it until it is `width` long.
pub open spec fn zero_padded(s: Seq<u8>, width: nat) -> Seq<u8> {
    if s.len() >= width {
        s
    } else {
        Seq::new((width - s.len()) as nat, |i: int| 0x30u8) + s
    }
}

/// The digit for `d`.
pub fn digit_byte(d: u64) -> (r: u8)
    requires
        d < 36,
    ensures
        r == digit(d as nat),
{
    if d < 10 {
        0x30 + (d as u8)
    } else {
        0x61 + ((d - 10) as u8)
    }
}

/// Appends the numeral of `n` in the given base, without padding.
pub fn push_numeral(out: &mut String, n: u64, base: u64)
    requires
        2 <= base <= 36,
    ensures
        final(out)@ == old(out)@ + text(numeral(n as nat, base as nat)),
    decreases n,
{
    if n >= base {
        proof {
            lemma_quotient_smaller(n as nat, base as nat);
        }
        push_numeral(out, n / base, base);
    }
    let ghost high = out@;
    push_byte(out, digit_byte(n % base));
    proof {
        let num = numeral(n as nat, base as nat);
        let low = seq![digit((n % base) as nat)];
        if n >= base {
            let hi = numeral((n / base) as nat, base as nat);
            assert(num =~= hi + low);
            lemma_text_concat(hi, low);
            assert(out@ =~= old(out)@ + text(num));
        } else {
            assert(n % base == n) by {
                vstd::arithmetic::div_mod::lemma_small_mod(n as nat, base as nat);
            }
            assert(num =~= low);
        }
    }
}

/// Appends the numeral of `n` in the given base, with zeros in front of it
/// where it is shorter than `width`.
pub fn push_padded_numeral(out: &mut String, n: u64, base: u64, width: usize)
    requires
        2 <= base <= 36,
    ensures
        final(out)@ == old(out)@ + text(zero_padded(numeral(n as nat, base as nat), width as nat)),
{
    let ghost num = numeral(n as nat, base as nat);
    let mut digits = String::new();
    push_numeral(&mut digits, n, base);
    assert(digits@ =~= text(num));
    let len = digits.as_str().unicode_len();
    let mut i: usize = len;
    while i < width
        invariant
            len == num.len(),
            len <= i,
            i == len || i <= width,
            out@ == old(out)@ + text(Seq::new((i - len) as nat, |k: int| 0x30u8)),
        decreases width - i,
    {
        push_byte(out, 0x30);
        i = i + 1;
        assert(out@ =~= old(out)@ + text(Seq::new((i - len) as nat, |k: int| 0x30u8)));
    }
    let ghost zeros = Seq::new((i - len) as nat, |k: int| 0x30u8);
    out.append(digits.as_str());
    proof {
        lemma_text_concat(zeros, num);
        if len >= width {
            assert(zeros + num =~= num);
        }
        assert(out@ =~= old(out)@ + text(zeros + num));
    }
}

} // verus!
