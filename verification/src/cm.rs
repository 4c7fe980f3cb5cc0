//! Escaping for CommonMark output.

pub mod writer;

use std::collections::HashSet;
use vstd::prelude::*;

use crate::ctype::is_punct_byte;
use crate::parser::inlines::{angle_url_end, link_url_spec};
use crate::strings::unescape_bytes;
use crate::text::{digit_char, lemma_encode_ascii_seq, lemma_encode_concat, push_char, str_chars, utf8};

verus! {

/// The characters that `escape_inline` escapes: control characters, and the
/// ASCII punctuation characters that can start inline markup.
pub open spec fn needs_inline_escape(c: char) -> bool {
    (c as u32) < 0x20 || c == '*' || c == '_' || c == '[' || c == ']' || c == '#' || c == '<' || c
        == '>' || c == '\\' || c == '`' || c == '!' || c == '&' || c == '-' || c == '+' || c == '='
        || c == '.' || c == '(' || c == ')' || c == '"'
}

/// The decimal digits of `n`, for `n` below one hundred.
pub open spec fn two_digits(n: nat) -> Seq<char> {
    if n < 10 {
        seq![digit_char(n)]
    } else {
        seq![digit_char(n / 10), digit_char(n % 10)]
    }
}

/// How `escape_inline` writes one character: ASCII punctuation gets a
/// backslash, a control character becomes a decimal character reference.
pub open spec fn escape_inline_char(c: char) -> Seq<char> {
    if needs_inline_escape(c) {
        if is_punct_byte(c as u8) {
            seq!['\\', c]
        } else {
            seq!['&', '#'] + two_digits((c as u32) as nat) + seq![';']
        }
    } else {
        seq![c]
    }
}

/// Text escaped character by character for CommonMark inline content.
pub open spec fn escape_inline_chars(s: Seq<char>) -> Seq<char>
    decreases s.len(),
{
    if s.len() == 0 {
        seq![]
    } else {
        escape_inline_chars(s.drop_last()) + escape_inline_char(s.last())
    }
}

fn ispunct_char(c: char) -> (r: bool)
    requires
        (c as u32) < 0x80,
    ensures
        r == is_punct_byte(c as u8),
{
    let b = c as u8;
    (33 <= b && b <= 47) || (58 <= b && b <= 64) || (91 <= b && b <= 96) || (123 <= b && b <= 126)
}

fn push_digit(s: &mut String, d: u8)
    requires
        d < 10,
    ensures
        final(s)@ == old(s)@.push(digit_char(d as nat)),
{
    push_char(s, (48 + d) as char);
}

/// Escapes `text` for inclusion in CommonMark inline content: ASCII
/// punctuation that could start markup gets a backslash, control characters
/// become decimal character references, and all else is kept.
pub fn escape_inline(text: &str) -> (r: String)
    ensures
        r@ == escape_inline_chars(text@),
{
    let cs = str_chars(text);
    let mut result = String::new();
    let mut i: usize = 0;
    proof {
        assert(cs@.subrange(0, 0) =~= Seq::<char>::empty());
    }
    while i < cs.len()
        invariant
            cs@ == text@,
            i <= cs@.len(),
            result@ == escape_inline_chars(cs@.subrange(0, i as int)),
        decreases cs@.len() - i,
    {
        let c = cs[i];
        let ghost before = result@;
        if (c as u32) < 0x20 || c == '*' || c == '_' || c == '[' || c == ']' || c == '#' || c == '<'
            || c == '>' || c == '\\' || c == '`' || c == '!' || c == '&' || c == '-' || c == '+'
            || c == '=' || c == '.' || c == '(' || c == ')' || c == '"' {
            if ispunct_char(c) {
                push_char(&mut result, '\\');
                push_char(&mut result, c);
                proof {
                    assert(result@ =~= before + seq!['\\', c]);
                }
            } else {
                let n: u32 = c as u32;
                assert(n < 0x20);
                push_char(&mut result, '&');
                push_char(&mut result, '#');
                if n >= 10 {
                    push_digit(&mut result, (n / 10) as u8);
                }
                push_digit(&mut result, (n % 10) as u8);
                push_char(&mut result, ';');
                proof {
                    assert((c as u32) as nat == n as nat);
                    assert(((n / 10) as u8) as nat == ((c as u32) as nat) / 10);
                    assert(((n % 10) as u8) as nat == ((c as u32) as nat) % 10);
                    assert(!is_punct_byte(c as u8));
                    assert(result@ =~= before + (seq!['&', '#'] + two_digits((c as u32) as nat) + seq![';']));
                }
            }
        } else {
            push_char(&mut result, c);
        }
        proof {
            assert(cs@.subrange(0, i + 1).drop_last() =~= cs@.subrange(0, i as int));
            assert(result@ =~= before + escape_inline_char(c));
        }
        i += 1;
    }
    proof {
        assert(cs@.subrange(0, cs@.len() as int) =~= cs@);
    }
    result
}

/// A byte with its high bit set is no backslash.
proof fn lemma_high_bit(y: u8)
    by (bit_vector)
    ensures
        (0x80u8 | y) != 92,
        (0xC0u8 | y) != 92,
        (0xE0u8 | y) != 92,
        (0xF0u8 | y) != 92,
{
}

/// The encoding of a character beyond ASCII holds no backslash.
proof fn lemma_no_backslash(c: char)
    requires
        (c as u32) >= 0x80,
    ensures
        forall|k: int| 0 <= k < utf8(seq![c]).len() ==> #[trigger] utf8(seq![c])[k] != 92,
{
    let x = c as u32;
    assert(utf8(seq![c]) =~= vstd::utf8::encode_scalar(x)) by {
        assert(seq![c].drop_first() =~= Seq::<char>::empty());
        assert(seq![c][0] == c);
        assert(vstd::utf8::encode_utf8(Seq::<char>::empty()) =~= Seq::<u8>::empty());
        assert(vstd::utf8::encode_scalar(x) + Seq::<u8>::empty() =~= vstd::utf8::encode_scalar(x));
    }
    lemma_high_bit(((x >> 6) & 0x1F) as u8);
    lemma_high_bit(((x >> 12) & 0x0F) as u8);
    lemma_high_bit(((x >> 18) & 0x7) as u8);
    lemma_high_bit((x & 0x3F) as u8);
    lemma_high_bit(((x >> 6) & 0x3F) as u8);
    lemma_high_bit(((x >> 12) & 0x3F) as u8);
}

/// Bytes with no backslash pass through the resolving of escapes.
proof fn lemma_unescape_plain(p: Seq<u8>, rest: Seq<u8>)
    requires
        forall|k: int| 0 <= k < p.len() ==> #[trigger] p[k] != 92,
    ensures
        unescape_bytes(p + rest) == p + unescape_bytes(rest),
    decreases p.len(),
{
    if p.len() > 0 {
        let b = p + rest;
        assert(b[0] == p[0]);
        assert(b.drop_first() =~= p.drop_first() + rest);
        lemma_unescape_plain(p.drop_first(), rest);
        assert(p =~= seq![p[0]] + p.drop_first());
    } else {
        assert(p + rest =~= rest);
    }
}

/// One character written by `escape_inline` resolves back to itself.
proof fn lemma_escape_piece(c: char, rest: Seq<u8>)
    requires
        (c as u32) >= 0x20,
    ensures
        unescape_bytes(utf8(escape_inline_char(c)) + rest) == utf8(seq![c]) + unescape_bytes(rest),
{
    if needs_inline_escape(c) {
        assert(is_punct_byte(c as u8));
        let piece = seq!['\\', c];
        assert(vstd::utf8::is_ascii_chars(piece));
        lemma_encode_ascii_seq(piece);
        assert(vstd::utf8::is_ascii_chars(seq![c]));
        lemma_encode_ascii_seq(seq![c]);
        let b = utf8(piece) + rest;
        assert(b[0] == 92);
        assert(b[1] == c as u8);
        assert(b.subrange(2, b.len() as int) =~= rest);
        assert(utf8(seq![c]) =~= seq![c as u8]);
    } else if (c as u32) < 0x80 {
        assert(vstd::utf8::is_ascii_chars(seq![c]));
        lemma_encode_ascii_seq(seq![c]);
        assert(c != '\\');
        lemma_unescape_plain(utf8(seq![c]), rest);
    } else {
        lemma_no_backslash(c);
        lemma_unescape_plain(utf8(seq![c]), rest);
    }
}

/// `escape_inline` works character by character from the front.
proof fn lemma_escape_front(t: Seq<char>)
    requires
        t.len() > 0,
    ensures
        escape_inline_chars(t) == escape_inline_char(t[0]) + escape_inline_chars(t.drop_first()),
    decreases t.len(),
{
    if t.len() > 1 {
        lemma_escape_front(t.drop_last());
        assert(t.drop_last().drop_first() =~= t.drop_first().drop_last());
        assert(t.drop_first().last() == t.last());
    } else {
        assert(t.drop_first() =~= Seq::<char>::empty());
        assert(t.drop_last() =~= Seq::<char>::empty());
    }
}

/// Resolving the backslash escapes of what `escape_inline` writes gives the
/// text back, for text without control characters (those become character
/// references, which are not backslash escapes).
pub proof fn lemma_escape_inline_roundtrip(t: Seq<char>)
    requires
        forall|i: int| 0 <= i < t.len() ==> (#[trigger] t[i] as u32) >= 0x20,
    ensures
        unescape_bytes(utf8(escape_inline_chars(t))) == utf8(t),
    decreases t.len(),
{
    if t.len() == 0 {
        assert(utf8(escape_inline_chars(t)) =~= Seq::<u8>::empty());
    } else {
        let r = t.drop_first();
        assert(forall|i: int| 0 <= i < r.len() ==> (#[trigger] r[i] as u32) >= 0x20) by {
            assert forall|i: int| 0 <= i < r.len() implies (#[trigger] r[i] as u32) >= 0x20 by {
                assert(r[i] == t[i + 1]);
            }
        }
        lemma_escape_inline_roundtrip(r);
        lemma_escape_front(t);
        lemma_encode_concat(escape_inline_char(t[0]), escape_inline_chars(r));
        assert(t[0] as u32 >= 0x20);
        lemma_escape_piece(t[0], utf8(escape_inline_chars(r)));
        assert(t =~= seq![t[0]] + r);
        lemma_encode_concat(seq![t[0]], r);
    }
}

/// The characters that can start or end inline markup in CommonMark:
/// `` *_[]#<>\`!&-+=.()" ``.
pub open spec fn inline_markup_char(c: char) -> bool {
    c == '*' || c == '_' || c == '[' || c == ']' || c == '#' || c == '<' || c == '>' || c == '\\'
        || c == '`' || c == '!' || c == '&' || c == '-' || c == '+' || c == '=' || c == '.' || c
        == '(' || c == ')' || c == '"'
}

proof fn lemma_escape_concat(a: Seq<char>, b: Seq<char>)
    ensures
        escape_inline_chars(a + b) == escape_inline_chars(a) + escape_inline_chars(b),
    decreases b.len(),
{
    if b.len() == 0 {
        assert(a + b =~= a);
        assert(escape_inline_chars(a) + escape_inline_chars(b) =~= escape_inline_chars(a));
    } else {
        lemma_escape_concat(a, b.drop_last());
        assert((a + b).drop_last() =~= a + b.drop_last());
        assert((a + b).last() == b.last());
        assert(escape_inline_chars(a + b) =~= escape_inline_chars(a) + escape_inline_chars(b));
    }
}

/// What `escape_inline` writes for the character at `i` of `t` starts where
/// what it wrote for the characters before ends.
proof fn lemma_escape_at(t: Seq<char>, i: int)
    requires
        0 <= i < t.len(),
    ensures
        escape_inline_chars(t) == escape_inline_chars(t.subrange(0, i)) + escape_inline_char(t[i])
            + escape_inline_chars(t.subrange(i + 1, t.len() as int)),
{
    let a = t.subrange(0, i);
    let c = t.subrange(i, i + 1);
    let r = t.subrange(i + 1, t.len() as int);
    assert(t =~= a + c + r);
    lemma_escape_concat(a + c, r);
    lemma_escape_concat(a, c);
    assert(c.drop_last() =~= Seq::<char>::empty());
    assert(c.last() == t[i]);
    assert(escape_inline_chars(Seq::<char>::empty()) =~= Seq::<char>::empty());
    assert(escape_inline_chars(c) == escape_inline_chars(c.drop_last()) + escape_inline_char(c.last()));
    assert(escape_inline_chars(c) =~= escape_inline_char(t[i]));
}

/// `escape_inline` puts a backslash before every markup character of the
/// text, so that none of them starts markup when read back: where the text
/// has such a character at `i`, the output has a backslash and then that
/// character, right after what it wrote for the text before `i`.  Every
/// other character at or above U+0020 is copied as it is.
pub proof fn lemma_escape_inline_escapes_markup(t: Seq<char>, i: int)
    requires
        0 <= i < t.len(),
    ensures
        ({
            let out = escape_inline_chars(t);
            let p = escape_inline_chars(t.subrange(0, i)).len() as int;
            &&& inline_markup_char(t[i]) ==> p + 1 < out.len() && out[p] == '\\' && out[p + 1] == t[i]
            &&& !inline_markup_char(t[i]) && (t[i] as u32) >= 0x20 ==> out[p] == t[i]
                && escape_inline_chars(t.subrange(0, i + 1)).len() == p + 1
        }),
{
    lemma_escape_at(t, i);
    let c = t[i];
    let a = escape_inline_chars(t.subrange(0, i));
    let e = escape_inline_char(c);
    let z = escape_inline_chars(t.subrange(i + 1, t.len() as int));
    let p = a.len() as int;
    assert((a + e + z)[p] == e[0]);
    if inline_markup_char(c) {
        assert(is_punct_byte(c as u8));
        assert(e == seq!['\\', c]);
        assert((a + e + z)[p + 1] == e[1]);
    } else if (c as u32) >= 0x20 {
        assert(e == seq![c]);
    }
    lemma_escape_at(t.subrange(0, i + 1), i);
    assert(t.subrange(0, i + 1).subrange(0, i) =~= t.subrange(0, i));
    assert(t.subrange(0, i + 1).subrange(i + 1, i + 1) =~= Seq::<char>::empty());
    assert(escape_inline_chars(Seq::<char>::empty()) =~= Seq::<char>::empty());
}

/// How `escape_link_destination` writes one character.
pub open spec fn escape_destination_char(c: char) -> Seq<char> {
    if c == '<' || c == '>' || c == '\\' {
        seq!['\\', c]
    } else if c == '\n' {
        seq!['%', '0', 'A']
    } else if c == '\r' {
        seq!['%', '0', 'D']
    } else {
        seq![c]
    }
}

/// A URL escaped character by character for a link destination.
pub open spec fn escape_destination_chars(s: Seq<char>) -> Seq<char>
    decreases s.len(),
{
    if s.len() == 0 {
        seq![]
    } else {
        escape_destination_chars(s.drop_last()) + escape_destination_char(s.last())
    }
}

/// Escapes `url` as a CommonMark link destination in angle brackets: `<`,
/// `>` and `\` get a backslash, so that parsing the destination back gives
/// the URL; line feeds and carriage returns are percent-encoded.
pub fn escape_link_destination(url: &str) -> (r: String)
    ensures
        r@ == seq!['<'] + escape_destination_chars(url@) + seq!['>'],
{
    let cs = str_chars(url);
    let mut result = String::new();
    push_char(&mut result, '<');
    let mut i: usize = 0;
    proof {
        assert(cs@.subrange(0, 0) =~= Seq::<char>::empty());
        assert(result@ =~= seq!['<'] + escape_destination_chars(Seq::<char>::empty()));
    }
    while i < cs.len()
        invariant
            cs@ == url@,
            i <= cs@.len(),
            result@ == seq!['<'] + escape_destination_chars(cs@.subrange(0, i as int)),
        decreases cs@.len() - i,
    {
        let c = cs[i];
        let ghost before = result@;
        if c == '<' || c == '>' || c == '\\' {
            push_char(&mut result, '\\');
            push_char(&mut result, c);
        } else if c == '\n' {
            push_char(&mut result, '%');
            push_char(&mut result, '0');
            push_char(&mut result, 'A');
        } else if c == '\r' {
            push_char(&mut result, '%');
            push_char(&mut result, '0');
            push_char(&mut result, 'D');
        } else {
            push_char(&mut result, c);
        }
        proof {
            assert(cs@.subrange(0, i + 1).drop_last() =~= cs@.subrange(0, i as int));
            assert(result@ =~= before + escape_destination_char(c));
        }
        i += 1;
    }
    push_char(&mut result, '>');
    proof {
        assert(cs@.subrange(0, cs@.len() as int) =~= cs@);
    }
    result
}

/// The bytes of a URL escaped as a link destination, byte by byte: the
/// escapes of `escape_destination_char` on ASCII bytes, other bytes as
/// they are.
pub open spec fn escape_destination_bytes(b: Seq<u8>) -> Seq<u8>
    decreases b.len(),
{
    if b.len() == 0 {
        seq![]
    } else {
        let x = b[0];
        (if x == 60 || x == 62 || x == 92 {
            seq![92u8, x]
        } else if x == 10 {
            seq![37u8, 48u8, 65u8]
        } else if x == 13 {
            seq![37u8, 48u8, 68u8]
        } else {
            seq![x]
        }) + escape_destination_bytes(b.drop_first())
    }
}

/// Whether `b` holds no line feed and no carriage return.
pub open spec fn no_line_break(b: Seq<u8>) -> bool {
    forall|i: int| 0 <= i < b.len() ==> b[i] != 10 && b[i] != 13
}

proof fn lemma_escape_bytes_concat(a: Seq<u8>, b: Seq<u8>)
    ensures
        escape_destination_bytes(a + b) == escape_destination_bytes(a) + escape_destination_bytes(b),
    decreases a.len(),
{
    if a.len() > 0 {
        assert((a + b).drop_first() =~= a.drop_first() + b);
        lemma_escape_bytes_concat(a.drop_first(), b);
        assert(escape_destination_bytes(a + b) =~= escape_destination_bytes(a) + escape_destination_bytes(b));
    } else {
        assert(a + b =~= b);
    }
}

proof fn lemma_escape_bytes_high(b: Seq<u8>)
    requires
        forall|i: int| 0 <= i < b.len() ==> b[i] >= 0x80,
    ensures
        escape_destination_bytes(b) == b,
        no_line_break(b),
    decreases b.len(),
{
    if b.len() > 0 {
        lemma_escape_bytes_high(b.drop_first());
        assert(escape_destination_bytes(b) =~= b);
    }
}

/// What a character is escaped to, in bytes, is its bytes escaped.
proof fn lemma_escape_char_bytes(c: char)
    ensures
        utf8(escape_destination_char(c)) == escape_destination_bytes(utf8(seq![c])),
        (c != '\n' && c != '\r') ==> no_line_break(utf8(seq![c])),
{
    let u = c as u32;
    vstd::utf8::char_is_scalar(c);
    if u < 0x80 {
        crate::text::lemma_encode_ascii_char(c);
        let e = escape_destination_char(c);
        lemma_encode_ascii_seq(e);
        assert(escape_destination_bytes(seq![c as u8].drop_first()) == Seq::<u8>::empty()) by {
            assert(seq![c as u8].drop_first() =~= Seq::<u8>::empty());
        }
        if c == '<' || c == '>' || c == '\\' {
            assert(utf8(e) =~= seq![92u8, c as u8]);
        } else if c == '\n' {
            assert(utf8(e) =~= seq![37u8, 48u8, 65u8]);
        } else if c == '\r' {
            assert(utf8(e) =~= seq![37u8, 48u8, 68u8]);
        } else {
            assert(utf8(e) =~= seq![c as u8]);
        }
        assert(utf8(e) =~= escape_destination_bytes(utf8(seq![c])));
    } else {
        let b = utf8(seq![c]);
        assert(b =~= vstd::utf8::encode_scalar(u)) by {
            reveal_with_fuel(vstd::utf8::encode_utf8, 2);
            assert(seq![c][0] == c);
            assert(seq![c].drop_first() =~= Seq::<char>::empty());
            assert(vstd::utf8::encode_utf8(Seq::<char>::empty()) =~= Seq::<u8>::empty());
        }
        assert(vstd::utf8::leading_byte_width_2(u) >= 0x80 && vstd::utf8::leading_byte_width_3(u) >= 0x80
            && vstd::utf8::leading_byte_width_4(u) >= 0x80 && vstd::utf8::last_continuation_byte(u) >= 0x80
            && vstd::utf8::second_last_continuation_byte(u) >= 0x80
            && vstd::utf8::third_last_continuation_byte(u) >= 0x80) by (bit_vector);
        assert forall|i: int| 0 <= i < b.len() implies b[i] >= 0x80 by {}
        lemma_escape_bytes_high(b);
    }
}

/// The bytes of an escaped URL are its bytes escaped; without line feeds
/// or carriage returns in the URL, there are none in its bytes.
proof fn lemma_escape_chars_bytes(s: Seq<char>)
    ensures
        utf8(escape_destination_chars(s)) == escape_destination_bytes(utf8(s)),
        (!s.contains('\n') && !s.contains('\r')) ==> no_line_break(utf8(s)),
    decreases s.len(),
{
    if s.len() > 0 {
        let t = s.drop_last();
        let c = s.last();
        assert(s =~= t + seq![c]);
        lemma_escape_chars_bytes(t);
        lemma_escape_char_bytes(c);
        lemma_encode_concat(t, seq![c]);
        lemma_encode_concat(escape_destination_chars(t), escape_destination_char(c));
        lemma_escape_bytes_concat(utf8(t), utf8(seq![c]));
        if !s.contains('\n') && !s.contains('\r') {
            assert(!t.contains('\n') && !t.contains('\r')) by {
                if t.contains('\n') {
                    let k = choose|k: int| 0 <= k < t.len() && t[k] == '\n';
                    assert(s[k] == '\n');
                }
                if t.contains('\r') {
                    let k = choose|k: int| 0 <= k < t.len() && t[k] == '\r';
                    assert(s[k] == '\r');
                }
            }
            assert(c != '\n' && c != '\r') by {
                assert(s[s.len() - 1] == c);
            }
            let a = utf8(t);
            let b = utf8(seq![c]);
            assert forall|i: int| 0 <= i < (a + b).len() implies (a + b)[i] != 10 && (a + b)[i] != 13 by {
                if i >= a.len() {
                    assert((a + b)[i] == b[i - a.len()]);
                }
            }
        }
    } else {
        assert(escape_destination_chars(s) =~= Seq::<char>::empty());
    }
}

/// Scanning escaped bytes in angle brackets runs to the `>` after them.
proof fn lemma_angle_scan(pre: Seq<u8>, u: Seq<u8>, rest: Seq<u8>)
    requires
        no_line_break(u),
    ensures
        angle_url_end(pre + escape_destination_bytes(u) + seq![62u8] + rest, pre.len() as int) == Some(
            pre.len() + escape_destination_bytes(u).len() + 1int,
        ),
    decreases u.len(),
{
    let e = escape_destination_bytes(u);
    let b = pre + e + seq![62u8] + rest;
    if u.len() == 0 {
        assert(b[pre.len() as int] == 62);
    } else {
        let x = u[0];
        let tail = u.drop_first();
        assert(x != 10 && x != 13);
        assert(no_line_break(tail)) by {
            assert forall|i: int| 0 <= i < tail.len() implies tail[i] != 10 && tail[i] != 13 by {
                assert(tail[i] == u[i + 1]);
            }
        }
        let head = if x == 60 || x == 62 || x == 92 {
            seq![92u8, x]
        } else {
            seq![x]
        };
        assert(e == head + escape_destination_bytes(tail));
        lemma_angle_scan(pre + head, tail, rest);
        assert(pre + head + escape_destination_bytes(tail) + seq![62u8] + rest =~= b);
        assert(b[pre.len() as int] == head[0]);
    }
}

/// Removing the backslash escapes from escaped bytes gives them back.
proof fn lemma_unescape_escaped(u: Seq<u8>)
    requires
        no_line_break(u),
    ensures
        unescape_bytes(escape_destination_bytes(u)) == u,
    decreases u.len(),
{
    if u.len() > 0 {
        let x = u[0];
        let tail = u.drop_first();
        assert(no_line_break(tail)) by {
            assert forall|i: int| 0 <= i < tail.len() implies tail[i] != 10 && tail[i] != 13 by {
                assert(tail[i] == u[i + 1]);
            }
        }
        lemma_unescape_escaped(tail);
        let e = escape_destination_bytes(u);
        let et = escape_destination_bytes(tail);
        if x == 60 || x == 62 || x == 92 {
            assert(e == seq![92u8, x] + et);
            assert(e.subrange(2, e.len() as int) =~= et);
            assert(unescape_bytes(e) == seq![x] + unescape_bytes(et));
        } else {
            assert(e == seq![x] + et);
            assert(e.drop_first() =~= et);
            assert(unescape_bytes(e) == seq![x] + unescape_bytes(et));
        }
        assert(seq![x] + tail =~= u);
    }
}

/// An escaped link destination reads back as the URL, for a URL with no
/// line feed or carriage return: followed by more text, as in an inline
/// link, it is scanned as a destination in angle brackets that runs to its
/// closing `>`, and removing the backslash escapes from the text between
/// the brackets gives the URL's bytes.
pub proof fn lemma_escape_link_destination_reads_back(url: Seq<char>, rest: Seq<u8>)
    requires
        rest.len() > 0,
        !url.contains('\n'),
        !url.contains('\r'),
    ensures
        ({
            let d = utf8(seq!['<'] + escape_destination_chars(url) + seq!['>']);
            let b = d + rest;
            &&& link_url_spec(b) == Some((1int, d.len() - 1, d.len() as int))
            &&& unescape_bytes(b.subrange(1, d.len() - 1)) == utf8(url)
        }),
{
    let e = escape_destination_chars(url);
    lemma_escape_chars_bytes(url);
    let u = utf8(url);
    let eb = escape_destination_bytes(u);
    lemma_encode_concat(seq!['<'], e);
    lemma_encode_concat(seq!['<'] + e, seq!['>']);
    crate::text::lemma_encode_ascii_char('<');
    crate::text::lemma_encode_ascii_char('>');
    let d = utf8(seq!['<'] + e + seq!['>']);
    assert(d == seq![60u8] + eb + seq![62u8]);
    let b = d + rest;
    lemma_angle_scan(seq![60u8], u, rest);
    assert(seq![60u8] + eb + seq![62u8] + rest =~= b);
    assert(b[0] == 60);
    assert(b.subrange(1, d.len() - 1) =~= eb);
    lemma_unescape_escaped(u);
}



/// The length of the run of `ch` that ends just before position `k`.
pub open spec fn tail_run(b: Seq<u8>, ch: u8, k: int) -> nat
    decreases k,
{
    if k > 0 && k <= b.len() && b[k - 1] == ch {
        tail_run(b, ch, k - 1) + 1
    } else {
        0
    }
}

/// The longest run of `ch` ending at or before position `k`.
pub open spec fn longest_upto(b: Seq<u8>, ch: u8, k: int) -> nat
    decreases k,
{
    if k <= 0 {
        0
    } else {
        let prev = longest_upto(b, ch, k - 1);
        let cur = tail_run(b, ch, k);
        if cur > prev {
            cur
        } else {
            prev
        }
    }
}

/// A run of `ch` of length `m` ends just before position `k` and cannot
/// be extended.
pub open spec fn maximal_run_at(b: Seq<u8>, ch: u8, k: int, m: nat) -> bool {
    &&& 0 <= k <= b.len()
    &&& m > 0
    &&& tail_run(b, ch, k) == m
    &&& (k == b.len() || b[k] != ch)
}

/// The length of the longest run of `ch` in `buffer`.
pub fn longest_byte_sequence(buffer: &[u8], ch: u8) -> (r: usize)
    ensures
        r == longest_upto(buffer@, ch, buffer@.len() as int),
        forall|k: int| 0 <= k <= buffer@.len() ==> tail_run(buffer@, ch, k) <= r,
        r == 0 || exists|k: int| 0 <= k <= buffer@.len() && tail_run(buffer@, ch, k) == r,
{
    let ghost b = buffer@;
    let mut longest: usize = 0;
    let mut current: usize = 0;
    let mut k: usize = 0;
    while k < buffer.len()
        invariant
            b == buffer@,
            k <= b.len(),
            current == tail_run(b, ch, k as int),
            current <= k,
            longest == longest_upto(b, ch, k as int),
            longest <= k,
            forall|j: int| 0 <= j <= k ==> tail_run(b, ch, j) <= longest,
            longest == 0 || exists|j: int| 0 <= j <= k && tail_run(b, ch, j) == longest,
        decreases b.len() - k,
    {
        if buffer[k] == ch {
            current = current + 1;
        } else {
            current = 0;
        }
        k = k + 1;
        if current > longest {
            longest = current;
        }
    }
    longest
}

/// Some maximal run of `f` in `b` is `m` long.
pub open spec fn length_used(b: Seq<u8>, f: u8, m: nat) -> bool {
    exists|k: int| maximal_run_at(b, f, k, m)
}

/// The least positive length that no maximal run of `f` in `buffer` has:
/// the shortest fence of `f` that cannot be mistaken for one inside.
pub fn shortest_unused_sequence(buffer: &[u8], f: u8) -> (r: usize)
    requires
        buffer@.len() < usize::MAX,
    ensures
        r >= 1,
        !length_used(buffer@, f, r as nat),
        forall|m: nat| 1 <= m < r ==> #[trigger] length_used(buffer@, f, m),
{
    broadcast use vstd::std_specs::hash::group_hash_axioms;

    let ghost b = buffer@;
    let mut used: HashSet<usize> = HashSet::new();
    let mut current: usize = 0;
    let mut k: usize = 0;
    while k < buffer.len()
        invariant
            b == buffer@,
            k <= b.len(),
            current == tail_run(b, f, k as int),
            current <= k,
            forall|m: usize| #[trigger] used@.contains(m) <==> (m > 0 && exists|j: int| 0 <= j < k
                && maximal_run_at(b, f, j, m as nat)),
        decreases b.len() - k,
    {
        if buffer[k] == f {
            current = current + 1;
        } else {
            if current > 0 {
                used.insert(current);
            }
            current = 0;
        }
        proof {
            assert forall|m: usize| #[trigger] used@.contains(m) <==> (m > 0 && exists|j: int|
                0 <= j < k + 1 && maximal_run_at(b, f, j, m as nat)) by {
                if m > 0 && maximal_run_at(b, f, k as int, m as nat) {
                    assert(b[k as int] != f);
                }
            }
        }
        k = k + 1;
    }
    if current > 0 {
        used.insert(current);
    }
    proof {
        assert forall|m: usize| #[trigger] used@.contains(m) <==> (m > 0 && exists|j: int| 0 <= j
            <= b.len() && maximal_run_at(b, f, j, m as nat)) by {
            if m > 0 && maximal_run_at(b, f, b.len() as int, m as nat) {
                assert(current == m);
            }
        }
    }
    let mut i: usize = 1;
    while used.contains(&i)
        invariant
            1 <= i <= b.len() + 1,
            b.len() < usize::MAX,
            forall|m: usize| #[trigger] used@.contains(m) <==> (m > 0 && exists|j: int| 0 <= j <= b.len()
                && maximal_run_at(b, f, j, m as nat)),
            forall|m: nat| 1 <= m < i ==> #[trigger] length_used(b, f, m),
        decreases b.len() + 1 - i,
    {
        proof {
            let j = choose|j: int| 0 <= j <= b.len() && maximal_run_at(b, f, j, i as nat);
            lemma_tail_run_le(b, f, j);
            assert(length_used(b, f, i as nat));
        }
        i = i + 1;
    }
    proof {
        if length_used(b, f, i as nat) {
            let j = choose|j: int| maximal_run_at(b, f, j, i as nat);
            assert(used@.contains(i));
        }
    }
    i
}

/// A run ending before position `k` is at most `k` long.
pub proof fn lemma_tail_run_le(b: Seq<u8>, ch: u8, k: int)
    ensures
        tail_run(b, ch, k) <= if k > 0 {
            k
        } else {
            0
        },
    decreases k,
{
    if k > 0 && k <= b.len() && b[k - 1] == ch {
        lemma_tail_run_le(b, ch, k - 1);
    }
}

} // verus!
