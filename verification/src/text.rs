//! Byte-level facts about UTF-8 text, and the few `str`/`String` operations
//! the rest of the crate builds on.

use vstd::prelude::*;
use vstd::utf8::*;
use vstd::string::*;

verus! {

broadcast use vstd::utf8::group_utf8_lib;

/// The UTF-8 bytes of a character sequence.
pub open spec fn utf8(chars: Seq<char>) -> Seq<u8> {
    encode_utf8(chars)
}

/// Encoding distributes over concatenation.
pub proof fn lemma_encode_concat(a: Seq<char>, b: Seq<char>)
    ensures
        encode_utf8(a + b) == encode_utf8(a) + encode_utf8(b),
    decreases a.len(),
{
    if a.len() == 0 {
        assert(a + b =~= b);
        assert(encode_utf8(a) + encode_utf8(b) =~= encode_utf8(b));
    } else {
        assert((a + b).drop_first() =~= a.drop_first() + b);
        lemma_encode_concat(a.drop_first(), b);
        assert((a + b)[0] == a[0]);
        assert(encode_scalar(a[0] as u32) + (encode_utf8(a.drop_first()) + encode_utf8(b))
            =~= (encode_scalar(a[0] as u32) + encode_utf8(a.drop_first())) + encode_utf8(b));
    }
}

/// An ASCII character encodes as the single byte of the same value.
pub proof fn lemma_encode_ascii_char(c: char)
    requires
        (c as u32) < 0x80,
    ensures
        encode_utf8(seq![c]) == seq![c as u8],
{
    let s = seq![c];
    assert(is_ascii_chars(s));
    is_ascii_chars_encode_utf8(s);
    assert(encode_utf8(s) =~= seq![c as u8]);
}

/// Appending an ASCII character appends its byte.
pub proof fn lemma_encode_push_ascii(s: Seq<char>, c: char)
    requires
        (c as u32) < 0x80,
    ensures
        encode_utf8(s.push(c)) == encode_utf8(s).push(c as u8),
{
    lemma_encode_concat(s, seq![c]);
    assert(s.push(c) =~= s + seq![c]);
    lemma_encode_ascii_char(c);
    assert(encode_utf8(s) + seq![c as u8] =~= encode_utf8(s).push(c as u8));
}

/// The encoding of an ASCII sequence is its bytes.
pub proof fn lemma_encode_ascii_seq(s: Seq<char>)
    requires
        is_ascii_chars(s),
    ensures
        encode_utf8(s).len() == s.len(),
        forall|i: int| 0 <= i < s.len() ==> #[trigger] encode_utf8(s)[i] == s[i] as u8,
{
    is_ascii_chars_encode_utf8(s);
}

/// Text whose encoding is the first `n` bytes of an ASCII text is the
/// first `n` characters of it.
pub proof fn lemma_ascii_prefix(x: Seq<char>, y: Seq<char>, n: int)
    requires
        is_ascii_chars(y),
        0 <= n <= y.len(),
        encode_utf8(x) == encode_utf8(y).subrange(0, n),
    ensures
        x == y.subrange(0, n),
{
    let z = y.subrange(0, n);
    assert(is_ascii_chars(z)) by {
        assert forall|i: int| 0 <= i < z.len() implies '\0' <= #[trigger] z[i] <= '\u{7f}' by {
            assert(z[i] == y[i]);
        }
    }
    lemma_encode_ascii_seq(y);
    lemma_encode_ascii_seq(z);
    assert(encode_utf8(z) =~= encode_utf8(y).subrange(0, n));
    encode_utf8_decode_utf8(x);
    encode_utf8_decode_utf8(z);
}

proof fn lemma_boundary_after_ascii_rec(bytes: Seq<u8>, j: int)
    requires
        valid_utf8(bytes),
        0 <= j < bytes.len(),
        is_char_boundary(bytes, j),
        bytes[j] < 0x80,
    ensures
        is_char_boundary(bytes, j + 1),
    decreases bytes.len(),
{
    let l = length_of_first_scalar(bytes);
    let rest = pop_first_scalar(bytes);
    if j == 0 {
        assert(is_leading_byte_width_1(bytes[0]));
        assert(l == 1);
        assert(is_char_boundary(rest, 0));
    } else {
        assert(is_char_boundary(rest, j - l));
        assert(j - l >= 0);
        assert(rest.len() == bytes.len() - l);
        assert(rest[j - l] == bytes[j]);
        lemma_boundary_after_ascii_rec(rest, j - l);
        assert(is_char_boundary(rest, j + 1 - l));
    }
}

/// In valid UTF-8, an index is a character boundary when it is an end of the
/// text, when the byte there is ASCII, or when the byte before it is ASCII.
pub proof fn lemma_ascii_boundary(bytes: Seq<u8>, i: int)
    requires
        valid_utf8(bytes),
        0 <= i <= bytes.len(),
        i == 0 || i == bytes.len() || bytes[i] < 0x80 || bytes[i - 1] < 0x80,
    ensures
        is_char_boundary(bytes, i),
{
    is_char_boundary_start_end_of_seq(bytes);
    if i == 0 || i == bytes.len() {
    } else if bytes[i] < 0x80 {
        is_char_boundary_iff_not_is_continuation_byte(bytes, i);
    } else {
        is_char_boundary_iff_not_is_continuation_byte(bytes, i - 1);
        lemma_boundary_after_ascii_rec(bytes, i - 1);
    }
}

/// The bytes of a string slice are valid UTF-8.
pub proof fn lemma_str_valid(s: &str)
    ensures
        valid_utf8(s.spec_bytes()),
{
    encode_utf8_valid_utf8(s@);
}

/// `&s[a..b]`: the part of `s` between two character boundaries.
#[verifier::external_body]
pub fn substr(s: &str, a: usize, b: usize) -> (r: &str)
    requires
        a <= b <= s.spec_bytes().len(),
        is_char_boundary(s.spec_bytes(), a as int),
        is_char_boundary(s.spec_bytes(), b as int),
    ensures
        r.spec_bytes() == s.spec_bytes().subrange(a as int, b as int),
{
    &s[a..b]
}

/// `String::push`: appends one character.
#[verifier::external_body]
pub fn push_char(s: &mut String, c: char)
    ensures
        final(s)@ == old(s)@.push(c),
{
    s.push(c)
}

/// `String::truncate`: keeps the first `n` bytes, `n` being a character boundary.
#[verifier::external_body]
pub fn truncate_string(s: &mut String, n: usize)
    requires
        n <= utf8(old(s)@).len(),
        is_char_boundary(utf8(old(s)@), n as int),
    ensures
        utf8(final(s)@) == utf8(old(s)@).subrange(0, n as int),
{
    s.truncate(n)
}

/// `String::split_off`: keeps the first `n` bytes and returns the rest.
#[verifier::external_body]
pub fn split_off_string(s: &mut String, n: usize) -> (r: String)
    requires
        n <= utf8(old(s)@).len(),
        is_char_boundary(utf8(old(s)@), n as int),
    ensures
        utf8(final(s)@) == utf8(old(s)@).subrange(0, n as int),
        utf8(r@) == utf8(old(s)@).subrange(n as int, utf8(old(s)@).len() as int),
{
    s.split_off(n)
}

/// Appends a string slice to a string.
pub fn push_str(s: &mut String, t: &str)
    ensures
        final(s)@ == old(s)@ + t@,
        utf8(final(s)@) == utf8(old(s)@) + t.spec_bytes(),
{
    s.append(t);
    proof {
        lemma_encode_concat(old(s)@, t@);
    }
}

/// Appends an ASCII character to a string.
pub fn push_ascii(s: &mut String, c: char)
    requires
        (c as u32) < 0x80,
    ensures
        final(s)@ == old(s)@.push(c),
        utf8(final(s)@) == utf8(old(s)@).push(c as u8),
{
    push_char(s, c);
    proof {
        lemma_encode_push_ascii(old(s)@, c);
    }
}

/// The characters of a string slice, in order.
pub fn str_chars(s: &str) -> (v: Vec<char>)
    ensures
        v@ == s@,
{
    broadcast use vstd::string::group_string_axioms;

    let mut v: Vec<char> = Vec::new();
    for c in it: s.chars()
        invariant
            v@ == it.seq().take(it.index() as int),
    {
        v.push(c);
    }
    v
}

/// The character of a decimal digit.
pub open spec fn digit_char(d: nat) -> char {
    ((48 + d) as u8) as char
}

/// The decimal digits of `n`, most significant first.
pub open spec fn decimal(n: nat) -> Seq<char>
    decreases n,
{
    if n < 10 {
        seq![digit_char(n)]
    } else {
        decimal(n / 10).push(digit_char(n % 10))
    }
}

/// Different digits have different characters.
pub proof fn lemma_digit_char_injective(a: nat, b: nat)
    requires
        a < 10,
        b < 10,
        digit_char(a) == digit_char(b),
    ensures
        a == b,
{
    let x = (48 + a) as u8;
    let y = (48 + b) as u8;
    assert((x as char) as u32 == x as u32);
    assert((y as char) as u32 == y as u32);
}

/// A decimal numeral has at least one digit, and at least two from ten on.
pub proof fn lemma_decimal_len(n: nat)
    ensures
        decimal(n).len() >= 1,
        n >= 10 ==> decimal(n).len() >= 2,
    decreases n,
{
    if n >= 10 {
        lemma_decimal_len(n / 10);
    }
}

/// A decimal numeral is made of ASCII digits.
pub proof fn lemma_decimal_ascii(n: nat, k: int)
    requires
        0 <= k < decimal(n).len(),
    ensures
        48 <= decimal(n)[k] as u32 <= 57,
    decreases n,
{
    if n >= 10 {
        if k < decimal(n / 10).len() {
            lemma_decimal_ascii(n / 10, k);
        } else {
            let x = (48 + n % 10) as u8;
            assert((x as char) as u32 == x as u32);
        }
    } else {
        let x = (48 + n) as u8;
        assert((x as char) as u32 == x as u32);
    }
}

/// Different numbers have different numerals.
pub proof fn lemma_decimal_injective(a: nat, b: nat)
    requires
        decimal(a) == decimal(b),
    ensures
        a == b,
    decreases a,
{
    lemma_decimal_len(a);
    lemma_decimal_len(b);
    if a < 10 {
        if b >= 10 {
            assert(decimal(b).len() >= 2);
        } else {
            assert(decimal(a) == seq![digit_char(a)]);
            assert(decimal(b) == seq![digit_char(b)]);
            assert(decimal(a)[0] == decimal(b)[0]);
            assert(seq![digit_char(a)][0] == digit_char(a));
            assert(seq![digit_char(b)][0] == digit_char(b));
            assert(digit_char(a) == digit_char(b));
            lemma_digit_char_injective(a, b);
        }
    } else {
        if b < 10 {
            assert(decimal(a).len() >= 2);
        } else {
            let da = decimal(a);
            let db = decimal(b);
            assert(da.last() == db.last());
            lemma_digit_char_injective(a % 10, b % 10);
            assert(da.drop_last() =~= decimal(a / 10));
            assert(db.drop_last() =~= decimal(b / 10));
            lemma_decimal_injective(a / 10, b / 10);
        }
    }
}

/// Appends the decimal numeral of `n`.
pub fn push_decimal(s: &mut String, n: usize)
    ensures
        final(s)@ == old(s)@ + decimal(n as nat),
    decreases n,
{
    if n >= 10 {
        push_decimal(s, n / 10);
    }
    let d = (n % 10) as u8;
    push_char(s, (48 + d) as char);
    proof {
        assert(final(s)@ =~= old(s)@ + decimal(n as nat));
    }
}

} // verus!
