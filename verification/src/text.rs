//! Text as a sequence of characters.
//!
//! The engine reads text one character at a time and needs constant-time
//! indexing, so it works on `[char]` and models text as `Seq<char>`. This
//! module converts between `str` and `[char]`, measures positions in UTF-8
//! bytes, renders numbers, and orders names.

use vstd::prelude::*;
use vstd::string::*;
use vstd::utf8::{encode_scalar, encode_utf8};

verus! {

/// `String::push` appends exactly one character to the end of the string and
/// leaves what was there before untouched (trusted: the standard library's
/// documentation of `push`).
pub assume_specification[ String::push ](s: &mut String, c: char)
    ensures
        final(s)@ == old(s)@.push(c),
;

/// Number of bytes in the UTF-8 encoding of `c`.
pub open spec fn utf8_width(c: char) -> nat {
    encode_scalar(c as u32).len()
}

/// Number of bytes that the first `i` characters of `text` occupy in UTF-8.
pub open spec fn byte_offset(text: Seq<char>, i: int) -> nat
    decreases i,
{
    if i <= 0 || i > text.len() {
        0
    } else {
        byte_offset(text, i - 1) + utf8_width(text[i - 1])
    }
}

/// Number of bytes that `text` occupies in UTF-8.
pub open spec fn byte_len(text: Seq<char>) -> nat {
    byte_offset(text, text.len() as int)
}

/// True when every byte offset into `text` fits the machine's word. This
/// holds of the characters of every `str`.
pub open spec fn fits(text: Seq<char>) -> bool {
    byte_len(text) <= usize::MAX
}

/// Every character takes between one and four bytes.
pub proof fn lemma_utf8_width_bounds(c: char)
    ensures
        1 <= utf8_width(c) <= 4,
        (c as u32) < 0x80 ==> utf8_width(c) == 1,
{
}

/// Byte offsets grow with the character index.
pub proof fn lemma_byte_offset_monotonic(text: Seq<char>, i: int, j: int)
    requires
        0 <= i <= j <= text.len(),
    ensures
        byte_offset(text, i) + (j - i) <= byte_offset(text, j),
    decreases j - i,
{
    if i < j {
        lemma_byte_offset_monotonic(text, i, j - 1);
        lemma_utf8_width_bounds(text[j - 1]);
    }
}

/// The byte offset of an index depends only on the characters before it.
pub proof fn lemma_byte_offset_prefix(a: Seq<char>, b: Seq<char>, i: int)
    requires
        0 <= i <= a.len(),
        i <= b.len(),
        forall|k: int| 0 <= k < i ==> a[k] == b[k],
    ensures
        byte_offset(a, i) == byte_offset(b, i),
    decreases i,
{
    if i > 0 {
        lemma_byte_offset_prefix(a, b, i - 1);
    }
}

/// A part of a text occupies the bytes between the offsets of its ends.
pub proof fn lemma_subrange_byte_len(text: Seq<char>, a: int, b: int)
    requires
        0 <= a <= b <= text.len(),
    ensures
        byte_len(text.subrange(a, b)) == byte_offset(text, b) - byte_offset(text, a),
    decreases b - a,
{
    let part = text.subrange(a, b);
    if a < b {
        lemma_subrange_byte_len(text, a, b - 1);
        lemma_byte_offset_prefix(part, text.subrange(a, b - 1), b - 1 - a);
    }
}

/// A part of a text that fits the machine's word fits it too.
pub proof fn lemma_subrange_fits(text: Seq<char>, a: int, b: int)
    requires
        0 <= a <= b <= text.len(),
        fits(text),
    ensures
        fits(text.subrange(a, b)),
{
    lemma_subrange_byte_len(text, a, b);
    lemma_byte_offset_monotonic(text, b, text.len() as int);
}

/// The encoding of a text followed by one more character is the encoding of
/// the text followed by the encoding of that character.
proof fn lemma_encode_push(s: Seq<char>, c: char)
    ensures
        encode_utf8(s.push(c)) =~= encode_utf8(s) + encode_scalar(c as u32),
    decreases s.len(),
{
    if s.len() == 0 {
        assert(s.push(c).drop_first() =~= Seq::<char>::empty());
        assert(encode_utf8(s.push(c).drop_first()) =~= Seq::<u8>::empty());
        assert(encode_utf8(s) =~= Seq::<u8>::empty());
    } else {
        assert(s.push(c).drop_first() =~= s.drop_first().push(c));
        lemma_encode_push(s.drop_first(), c);
    }
}

/// `byte_offset` agrees with the length of the UTF-8 encoding of the prefix.
pub proof fn lemma_byte_offset_is_encoded_len(text: Seq<char>, i: int)
    requires
        0 <= i <= text.len(),
    ensures
        byte_offset(text, i) == encode_utf8(text.take(i)).len(),
    decreases i,
{
    if i > 0 {
        lemma_byte_offset_is_encoded_len(text, i - 1);
        assert(text.take(i) =~= text.take(i - 1).push(text[i - 1]));
        lemma_encode_push(text.take(i - 1), text[i - 1]);
    } else {
        assert(text.take(0) =~= Seq::<char>::empty());
    }
}

/// True when the character with code `b` occurs in `text`.
pub open spec fn has_code(text: Seq<char>, b: u8) -> bool {
    exists|i: int| 0 <= i < text.len() && (#[trigger] text[i]) as u32 == b as u32
}

/// The encoding of a character that is not ASCII holds no ASCII byte, and
/// the encoding of an ASCII character is that character.
proof fn lemma_encoded_ascii(c: char, k: int)
    requires
        0 <= k < encode_scalar(c as u32).len(),
    ensures
        encode_scalar(c as u32)[k] < 0x80 ==> (c as u32) < 0x80,
        (c as u32) < 0x80 ==> encode_scalar(c as u32).len() == 1 && encode_scalar(c as u32)[0]
            == c as u32,
{
    let v = c as u32;
    assert(v < 0x80 ==> (v & 0x7F) as u8 == v) by (bit_vector);
    assert(0xC0u8 | ((v >> 6) & 0x1F) as u8 >= 0x80) by (bit_vector);
    assert(0xE0u8 | ((v >> 12) & 0x0F) as u8 >= 0x80) by (bit_vector);
    assert(0xF0u8 | ((v >> 18) & 0x7) as u8 >= 0x80) by (bit_vector);
    assert(0x80u8 | (v & 0x3F) as u8 >= 0x80) by (bit_vector);
    assert(0x80u8 | ((v >> 6) & 0x3F) as u8 >= 0x80) by (bit_vector);
    assert(0x80u8 | ((v >> 12) & 0x3F) as u8 >= 0x80) by (bit_vector);
}

/// An ASCII byte occurs in the UTF-8 encoding of a text exactly when the
/// character with that code occurs in the text.
pub proof fn lemma_ascii_byte_is_char(text: Seq<char>, b: u8)
    requires
        b < 0x80,
    ensures
        encode_utf8(text).contains(b) <==> has_code(text, b),
    decreases text.len(),
{
    let encoded = encode_utf8(text);
    if text.len() > 0 {
        let head = encode_scalar(text[0] as u32);
        let rest = text.drop_first();
        lemma_ascii_byte_is_char(rest, b);
        assert(encoded =~= head + encode_utf8(rest));
        if encoded.contains(b) {
            let j = choose|j: int| 0 <= j < encoded.len() && encoded[j] == b;
            if j < head.len() {
                lemma_encoded_ascii(text[0], j);
                assert(text[0] as u32 == b as u32);
            } else {
                assert(encode_utf8(rest)[j - head.len()] == b);
                let i = choose|i: int| 0 <= i < rest.len() && (#[trigger] rest[i]) as u32 == b as u32;
                assert(text[i + 1] == rest[i]);
            }
        }
        if has_code(text, b) {
            let i = choose|i: int| 0 <= i < text.len() && (#[trigger] text[i]) as u32 == b as u32;
            if i == 0 {
                lemma_encoded_ascii(text[0], 0);
                assert(encoded[0] == b);
            } else {
                assert(rest[i - 1] == text[i]);
                assert(has_code(rest, b));
                let j = choose|j: int| 0 <= j < encode_utf8(rest).len() && encode_utf8(rest)[j] == b;
                assert(encoded[head.len() + j] == b);
            }
        }
    }
}

/// Number of bytes in the UTF-8 encoding of `c`.
pub fn char_width(c: char) -> (w: usize)
    ensures
        w == utf8_width(c),
        1 <= w <= 4,
{
    broadcast use vstd::utf8::char_is_scalar;

    let v: u32 = c as u32;
    if v < 0x80 {
        1
    } else if v < 0x800 {
        2
    } else if v < 0x10000 {
        3
    } else {
        4
    }
}

/// The characters of `s`, in order.
pub fn to_chars(s: &str) -> (v: Vec<char>)
    ensures
        v@ == s@,
        fits(v@),
{
    let encoded_len = s.as_bytes().len();
    proof {
        lemma_byte_offset_is_encoded_len(s@, s@.len() as int);
        assert(s@.take(s@.len() as int) =~= s@);
    }
    let mut v: Vec<char> = Vec::new();
    for c in it: s.chars()
        invariant
            v@ == s@.take(it.index() as int),
            it.seq() == s@,
    {
        v.push(c);
    }
    v
}

/// Appends the characters of `s` to `buf`.
pub fn push_chars(buf: &mut String, s: &[char])
    ensures
        final(buf)@ == old(buf)@ + s@,
{
    let mut i: usize = 0;
    while i < s.len()
        invariant
            i <= s.len(),
            buf@ == old(buf)@ + s@.take(i as int),
        decreases s.len() - i,
    {
        buf.push(s[i]);
        i += 1;
        assert(s@.take(i as int) =~= s@.take(i as int - 1).push(s@[i as int - 1]));
    }
    assert(s@.take(s.len() as int) =~= s@);
}

/// The string made of the characters of `s`.
pub fn from_chars(s: &[char]) -> (r: String)
    ensures
        r@ == s@,
{
    let mut r = String::new();
    push_chars(&mut r, s);
    r
}

/// True when `needle` occurs in `s`.
pub fn contains_char(s: &[char], needle: char) -> (r: bool)
    ensures
        r == s@.contains(needle),
{
    let mut i: usize = 0;
    while i < s.len()
        invariant
            i <= s.len(),
            forall|k: int| 0 <= k < i ==> s@[k] != needle,
        decreases s.len() - i,
    {
        if s[i] == needle {
            return true;
        }
        i += 1;
    }
    false
}

/// The decimal digit for `d`, which is below ten.
pub open spec fn digit_char(d: nat) -> char {
    if d == 0 {
        '0'
    } else if d == 1 {
        '1'
    } else if d == 2 {
        '2'
    } else if d == 3 {
        '3'
    } else if d == 4 {
        '4'
    } else if d == 5 {
        '5'
    } else if d == 6 {
        '6'
    } else if d == 7 {
        '7'
    } else if d == 8 {
        '8'
    } else {
        '9'
    }
}

/// `n` written in base ten, without leading zeros.
pub open spec fn decimal(n: nat) -> Seq<char>
    decreases n,
{
    if n < 10 {
        seq![digit_char(n)]
    } else {
        decimal(n / 10).push(digit_char(n % 10))
    }
}

fn digit(d: usize) -> (c: char)
    requires
        d < 10,
    ensures
        c == digit_char(d as nat),
{
    if d == 0 {
        '0'
    } else if d == 1 {
        '1'
    } else if d == 2 {
        '2'
    } else if d == 3 {
        '3'
    } else if d == 4 {
        '4'
    } else if d == 5 {
        '5'
    } else if d == 6 {
        '6'
    } else if d == 7 {
        '7'
    } else if d == 8 {
        '8'
    } else {
        '9'
    }
}

/// Appends `n` in base ten to `buf`.
pub fn push_decimal(buf: &mut String, n: usize)
    ensures
        final(buf)@ == old(buf)@ + decimal(n as nat),
    decreases n,
{
    if n >= 10 {
        push_decimal(buf, n / 10);
    }
    buf.push(digit(n % 10));
    proof {
        if n >= 10 {
            assert((old(buf)@ + decimal((n / 10) as nat)).push(digit_char((n % 10) as nat))
                =~= old(buf)@ + decimal(n as nat));
        } else {
            assert(old(buf)@.push(digit_char(n as nat)) =~= old(buf)@ + decimal(n as nat));
        }
    }
}

/// Strict lexicographic order on texts, comparing characters by code point.
pub open spec fn lex_lt(a: Seq<char>, b: Seq<char>) -> bool
    decreases a.len(),
{
    if b.len() == 0 {
        false
    } else if a.len() == 0 {
        true
    } else if a[0] != b[0] {
        (a[0] as u32) < (b[0] as u32)
    } else {
        lex_lt(a.drop_first(), b.drop_first())
    }
}

/// Two characters with the same code point are the same character.
pub proof fn lemma_char_code_injective(x: char, y: char)
    ensures
        (x as u32) == (y as u32) ==> x == y,
{
    vstd::utf8::char_u32_cast(x, x as u32);
    vstd::utf8::char_u32_cast(y, y as u32);
}

/// The lexicographic order is transitive.
pub proof fn lemma_lex_lt_transitive(a: Seq<char>, b: Seq<char>, c: Seq<char>)
    requires
        lex_lt(a, b),
        lex_lt(b, c),
    ensures
        lex_lt(a, c),
    decreases a.len(),
{
    if a.len() > 0 && a[0] == b[0] && b[0] == c[0] {
        lemma_lex_lt_transitive(a.drop_first(), b.drop_first(), c.drop_first());
    }
}

/// No text is below itself.
pub proof fn lemma_lex_lt_irreflexive(a: Seq<char>)
    ensures
        !lex_lt(a, a),
    decreases a.len(),
{
    if a.len() > 0 {
        lemma_lex_lt_irreflexive(a.drop_first());
    }
}

/// Two different texts are ordered one way or the other.
pub proof fn lemma_lex_lt_total(a: Seq<char>, b: Seq<char>)
    ensures
        a == b || lex_lt(a, b) || lex_lt(b, a),
    decreases a.len(),
{
    if a.len() == 0 || b.len() == 0 {
        if a.len() == 0 && b.len() == 0 {
            assert(a =~= b);
        }
    } else if a[0] == b[0] {
        lemma_lex_lt_total(a.drop_first(), b.drop_first());
        if a.drop_first() == b.drop_first() {
            assert(a =~= seq![a[0]] + a.drop_first());
            assert(b =~= seq![b[0]] + b.drop_first());
        }
    } else {
        lemma_char_code_injective(a[0], b[0]);
    }
}

/// How two texts compare.
#[derive(Clone, Copy, Debug, PartialEq, Eq)]
pub enum Order {
    Below,
    Same,
    Above,
}

/// Compares two texts lexicographically.
pub fn compare_chars(a: &[char], b: &[char]) -> (r: Order)
    ensures
        r == Order::Below <==> lex_lt(a@, b@),
        r == Order::Same <==> a@ == b@,
        r == Order::Above <==> lex_lt(b@, a@),
{
    let mut i: usize = 0;
    proof {
        assert(a@.skip(0) =~= a@);
        assert(b@.skip(0) =~= b@);
    }
    while i < a.len() && i < b.len()
        invariant
            i <= a.len(),
            i <= b.len(),
            forall|k: int| 0 <= k < i ==> a@[k] == b@[k],
            lex_lt(a@, b@) == lex_lt(a@.skip(i as int), b@.skip(i as int)),
            lex_lt(b@, a@) == lex_lt(b@.skip(i as int), a@.skip(i as int)),
        decreases a.len() - i,
    {
        let x = a[i];
        let y = b[i];
        proof {
            assert(a@.skip(i as int)[0] == x);
            assert(b@.skip(i as int)[0] == y);
            assert(a@.skip(i as int).drop_first() =~= a@.skip(i as int + 1));
            assert(b@.skip(i as int).drop_first() =~= b@.skip(i as int + 1));
        }
        if x != y {
            proof {
                lemma_char_code_injective(x, y);
                assert(a@ != b@);
            }
            if (x as u32) < (y as u32) {
                return Order::Below;
            } else {
                return Order::Above;
            }
        }
        i += 1;
    }
    proof {
        lemma_lex_lt_irreflexive(a@);
        if a.len() == b.len() {
            assert(a@ =~= b@);
        } else {
            assert(a@ != b@);
        }
    }
    if a.len() < b.len() {
        Order::Below
    } else if a.len() > b.len() {
        Order::Above
    } else {
        Order::Same
    }
}

} // verus!
