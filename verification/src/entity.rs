//! Decoding of HTML character references (`&amp;`, `&#65;`, `&#x41;`).

use std::borrow::Cow;
use vstd::prelude::*;
use vstd::string::*;
use vstd::utf8::*;

use crate::ctype::{is_digit_byte, is_xdigit_byte, isdigit, isxdigit};
use crate::strings::lead;
use crate::text::{lemma_ascii_boundary, lemma_str_valid, push_ascii, push_char, push_str, substr, utf8};

verus! {

broadcast use vstd::utf8::group_utf8_lib;

/// The shortest named reference body that is looked up.
pub const ENTITY_MIN_LENGTH: usize = 2;

/// The longest named reference body that is looked up.
pub const ENTITY_MAX_LENGTH: usize = 32;

/// The characters the HTML5 named character reference `&name;` stands for,
/// given the bytes of `name`, as the table in the `entities` crate lists them;
/// `None` when the table has no such name.
pub uninterp spec fn html_entity(name: Seq<u8>) -> Option<Seq<char>>;

/// Whether the table entry `entity` (written `&name;`) names `text`.
fn entity_names(entity: &str, text: &str) -> (r: bool)
    ensures
        r == (entity.spec_bytes().len() >= 2 && entity.spec_bytes()[0] == 38
            && entity.spec_bytes()[entity.spec_bytes().len() - 1] == 59
            && entity.spec_bytes().subrange(1, entity.spec_bytes().len() - 1)
            == text.spec_bytes()),
{
    let e = entity.as_bytes();
    let t = text.as_bytes();
    if e.len() < 2 || e[0] != 38 || e[e.len() - 1] != 59 || e.len() - 2 != t.len() {
        proof {
            if e@.len() >= 2 && e@.subrange(1, e@.len() - 1) == t@ {
                assert(e@.subrange(1, e@.len() - 1).len() == t@.len());
            }
        }
        return false;
    }
    let mut i: usize = 0;
    while i < t.len()
        invariant
            e@ == entity.spec_bytes(),
            t@ == text.spec_bytes(),
            e@.len() == t@.len() + 2,
            i <= t@.len(),
            forall|k: int| 0 <= k < i ==> e@[k + 1] == t@[k],
        decreases t@.len() - i,
    {
        if e[i + 1] != t[i] {
            proof {
                assert(e@.subrange(1, e@.len() - 1)[i as int] == e@[i + 1]);
            }
            return false;
        }
        i += 1;
    }
    proof {
        assert(e@.subrange(1, e@.len() - 1) =~= t@);
    }
    true
}

/// Looks up a named character reference in the HTML5 table of the
/// `entities` crate: the characters of the first entry written `&text;`.
#[verifier::external_body]
fn lookup(text: &str) -> (r: Option<&'static str>)
    ensures
        r matches Some(c) ==> html_entity(text.spec_bytes()) == Some(c@),
        r is None <==> html_entity(text.spec_bytes()) is None,
{
    entities::ENTITIES.iter().find(|e| entity_names(e.entity, text)).map(|e| e.characters)
}

/// `char::from_u32`: the character with the given scalar value, if any.
#[verifier::external_body]
fn char_from_u32(v: u32) -> (r: Option<char>)
    ensures
        r is Some <==> is_scalar(v),
        r matches Some(c) ==> c as u32 == v,
{
    char::from_u32(v)
}

/// The value of a decimal or hexadecimal digit.
pub open spec fn digit_value(b: u8, hex: bool) -> int {
    if 48 <= b && b <= 57 {
        b - 48
    } else if 97 <= b && b <= 102 {
        b - 87
    } else if 65 <= b && b <= 70 {
        b - 55
    } else {
        0
    }
}

/// The value of the digits `b[lo..hi]` in the given base, saturating at
/// 0x110000 after each digit.
pub open spec fn numeric_value(b: Seq<u8>, lo: int, hi: int, base: int) -> int
    decreases hi - lo,
{
    if hi <= lo {
        0
    } else {
        let v = numeric_value(b, lo, hi - 1, base) * base + digit_value(b[hi - 1], base == 16);
        if v < 0x110000 {
            v
        } else {
            0x110000
        }
    }
}

/// Decimal digit, as a predicate.
pub open spec fn digit_pred() -> spec_fn(u8) -> bool {
    |c: u8| is_digit_byte(c)
}

/// Hexadecimal digit, as a predicate.
pub open spec fn xdigit_pred() -> spec_fn(u8) -> bool {
    |c: u8| is_xdigit_byte(c)
}

/// A numeric reference body (after `&`): where its digits end, how many there
/// are, and the code point they give.
pub open spec fn numeric_scan(b: Seq<u8>) -> (int, int, int) {
    if is_digit_byte(b[1]) {
        let i: int = 1 + lead(b.subrange(1, b.len() as int), digit_pred()) as int;
        (i, i - 1, numeric_value(b, 1, i, 10))
    } else if b[1] == 120 || b[1] == 88 {
        let i: int = 2 + lead(b.subrange(2, b.len() as int), xdigit_pred()) as int;
        (i, i - 2, numeric_value(b, 2, i, 16))
    } else {
        (0, 0, 0)
    }
}

/// The code point a numeric reference produces: invalid values and NUL
/// become U+FFFD.
pub open spec fn sanitize_codepoint(cp: int) -> int {
    if cp == 0 || (0xD800 <= cp && cp <= 0xE000) || cp >= 0x110000 {
        0xFFFD
    } else {
        cp
    }
}

/// Where a named reference body ends: the first space or `;` among the bytes
/// from index 2 up to 32.
pub open spec fn named_stop(b: Seq<u8>, i: int) -> Option<int>
    decreases 32 - i,
{
    let size = if b.len() < 32 { b.len() as int } else { 32 };
    if i < 2 || i >= size {
        None
    } else if b[i] == 32 || b[i] == 59 {
        Some(i)
    } else {
        named_stop(b, i + 1)
    }
}

/// Decoding of the character reference whose body (after `&`) starts `b`:
/// the characters it stands for and the number of bytes it takes, `;`
/// included.
pub open spec fn unescape_entity(b: Seq<u8>) -> Option<(Seq<char>, int)> {
    let numeric = b.len() >= 3 && b[0] == 35;
    let (i, nd, cp) = numeric_scan(b);
    if numeric && i < b.len() && b[i] == 59 && (((b[1] == 120 || b[1] == 88) && 1 <= nd <= 6)
        || (1 <= nd <= 7)) {
        Some((seq![sanitize_codepoint(cp) as u32 as char], i + 1))
    } else {
        match named_stop(b, 2) {
            Some(k) => if b[k] == 59 {
                match html_entity(b.subrange(0, k)) {
                    Some(cs) => Some((cs, k + 1)),
                    None => None,
                }
            } else {
                None
            },
            None => None,
        }
    }
}

/// A decoded character reference consumes at least one byte and no more
/// than there are.
pub proof fn lemma_unescape_len(b: Seq<u8>)
    ensures
        unescape_entity(b) matches Some((cs, n)) ==> 1 <= n <= b.len(),
{
    lemma_named_stop(b, 2);
}

proof fn lemma_named_stop(b: Seq<u8>, i: int)
    ensures
        named_stop(b, i) matches Some(k) ==> i <= k && 2 <= k < b.len() && k < 32 && (b[k] == 32
            || b[k] == 59),
    decreases 32 - i,
{
    let size = if b.len() < 32 { b.len() as int } else { 32 };
    if !(i < 2 || i >= size) && !(b[i] == 32 || b[i] == 59) {
        lemma_named_stop(b, i + 1);
    }
}

proof fn lemma_numeric_value_bound(b: Seq<u8>, lo: int, hi: int, base: int)
    requires
        base == 10 || base == 16,
        forall|k: int| lo <= k < hi ==> 0 <= digit_value(#[trigger] b[k], base == 16) < base,
    ensures
        0 <= numeric_value(b, lo, hi, base) <= 0x110000,
    decreases hi - lo,
{
    if hi > lo {
        lemma_numeric_value_bound(b, lo, hi - 1, base);
    }
}

/// Decodes the character reference whose body (the text after `&`) starts
/// `text`; returns the characters and the number of bytes consumed.
pub fn unescape(text: &str) -> (r: Option<(Cow<'static, str>, usize)>)
    ensures
        match unescape_entity(text.spec_bytes()) {
            None => r is None,
            Some((cs, n)) => r matches Some((c, m)) && c@ == cs && m == n,
        },
{
    let bytes = text.as_bytes();
    let len = bytes.len();
    if len >= 3 && bytes[0] == 35 {
        let mut codepoint: u32 = 0;
        let mut i: usize = 0;
        let is_x = bytes[1] == 120 || bytes[1] == 88;
        let num_digits: usize;
        if isdigit(bytes[1]) {
            i = 1;
            while i < len && isdigit(bytes[i])
                invariant
                    len == bytes@.len(),
                    1 <= i <= len,
                    forall|k: int| 1 <= k < i ==> is_digit_byte(#[trigger] bytes@[k]),
                    codepoint == numeric_value(bytes@, 1, i as int, 10),
                    codepoint <= 0x110000,
                decreases len - i,
            {
                let c = bytes[i];
                let v = codepoint * 10 + (c as u32 - 48);
                codepoint = if v < 0x110000 { v } else { 0x110000 };
                i += 1;
            }
            num_digits = i - 1;
            proof {
                let t = bytes@.subrange(1, len as int);
                assert forall|k: int| 0 <= k < i - 1 implies (#[trigger] digit_pred()(t[k])) by {
                    assert(t[k] == bytes@[k + 1]);
                }
                if i < len {
                    assert(t[i - 1] == bytes@[i as int]);
                }
                crate::strings::lemma_lead(t, digit_pred(), i - 1);
            }
        } else if is_x {
            i = 2;
            while i < len && isxdigit(bytes[i])
                invariant
                    len == bytes@.len(),
                    2 <= i <= len,
                    forall|k: int| 2 <= k < i ==> is_xdigit_byte(#[trigger] bytes@[k]),
                    codepoint == numeric_value(bytes@, 2, i as int, 16),
                    codepoint <= 0x110000,
                decreases len - i,
            {
                let c = bytes[i] as u32;
                let d: u32 = if c <= 57 {
                    c - 48
                } else if c >= 97 {
                    c - 87
                } else {
                    c - 55
                };
                let v = codepoint * 16 + d;
                codepoint = if v < 0x110000 { v } else { 0x110000 };
                i += 1;
            }
            num_digits = i - 2;
            proof {
                let t = bytes@.subrange(2, len as int);
                assert forall|k: int| 0 <= k < i - 2 implies (#[trigger] xdigit_pred()(t[k])) by {
                    assert(t[k] == bytes@[k + 2]);
                }
                if i < len {
                    assert(t[i - 2] == bytes@[i as int]);
                }
                crate::strings::lemma_lead(t, xdigit_pred(), i - 2);
            }
        } else {
            num_digits = 0;
        }
        if i < len && bytes[i] == 59 && ((is_x && 1 <= num_digits && num_digits <= 6) || (1
            <= num_digits && num_digits <= 7)) {
            if codepoint == 0 || (0xD800 <= codepoint && codepoint <= 0xE000) || codepoint
                >= 0x110000 {
                codepoint = 0xFFFD;
            }
            let oc = char_from_u32(codepoint);
            let c = match oc {
                Some(c) => c,
                None => '\u{FFFD}',
            };
            let mut s = String::new();
            push_char(&mut s, c);
            proof {
                assert(is_scalar(codepoint));
                assert(codepoint as int == sanitize_codepoint(numeric_scan(bytes@).2));
                assert(oc is Some);
                char_u32_cast(c, codepoint);
                assert((codepoint as char) == c);
                assert(s@ =~= seq![sanitize_codepoint(numeric_scan(bytes@).2) as u32 as char]);
            }
            return Some((Cow::Owned(s), i + 1));
        }
    }
    let size = if len < ENTITY_MAX_LENGTH {
        len
    } else {
        ENTITY_MAX_LENGTH
    };
    let mut i: usize = ENTITY_MIN_LENGTH;
    while i < size
        invariant
            len == bytes@.len(),
            bytes@ == text.spec_bytes(),
            size == if len < 32 { len } else { 32 },
            2 <= i,
            named_stop(bytes@, 2) == named_stop(bytes@, i as int),
            !(len >= 3 && bytes@[0] == 35 && numeric_scan(bytes@).0 < len && bytes@[numeric_scan(
                bytes@,
            ).0] == 59 && (((bytes@[1] == 120 || bytes@[1] == 88) && 1 <= numeric_scan(bytes@).1
                <= 6) || (1 <= numeric_scan(bytes@).1 <= 7))),
        decreases size - i,
    {
        if bytes[i] == 32 {
            return None;
        }
        if bytes[i] == 59 {
            proof {
                lemma_str_valid(text);
                lemma_ascii_boundary(bytes@, 0);
                lemma_ascii_boundary(bytes@, i as int);
            }
            let name = substr(text, 0, i);
            return match lookup(name) {
                Some(e) => Some((Cow::Borrowed(e), i + 1)),
                None => None,
            };
        }
        i += 1;
    }
    None
}


/// Every decoded reference takes at least one byte and ends with `;`.
pub proof fn lemma_unescape_entity_len(b: Seq<u8>)
    ensures
        unescape_entity(b) matches Some((cs, n)) ==> 1 <= n <= b.len() && b[n - 1] == 59,
{
    let numeric = b.len() >= 3 && b[0] == 35;
    if numeric {
        let (i, nd, cp) = numeric_scan(b);
        if is_digit_byte(b[1]) {
            crate::strings::lemma_lead_le_pub(b.subrange(1, b.len() as int), digit_pred());
        } else if b[1] == 120 || b[1] == 88 {
            crate::strings::lemma_lead_le_pub(b.subrange(2, b.len() as int), xdigit_pred());
        }
    }
    lemma_named_stop(b, 2);
}

/// HTML character references in `b`, from index `i` on, replaced by what
/// they stand for; an `&` that starts no reference stays.
pub open spec fn unescape_html_from(b: Seq<u8>, i: int) -> Seq<u8>
    decreases b.len() - i,
{
    if i < 0 || i >= b.len() {
        seq![]
    } else if b[i] != 38 {
        seq![b[i]] + unescape_html_from(b, i + 1)
    } else {
        match unescape_entity(b.subrange(i + 1, b.len() as int)) {
            Some((cs, n)) => {
                proof {
                    lemma_unescape_entity_len(b.subrange(i + 1, b.len() as int));
                }
                encode_utf8(cs) + unescape_html_from(b, i + 1 + n)
            },
            None => seq![38u8] + unescape_html_from(b, i + 1),
        }
    }
}

/// `src` with its HTML character references decoded.
pub open spec fn unescape_html_bytes(b: Seq<u8>) -> Seq<u8> {
    unescape_html_from(b, 0)
}

/// Decodes the HTML character references in `src`.
#[verifier::rlimit(40)]
#[verifier::spinoff_prover]
pub fn unescape_html(src: &str) -> (r: Cow<'_, str>)
    ensures
        utf8(r@) == unescape_html_bytes(src.spec_bytes()),
{
    let b = src.as_bytes();
    let size = b.len();
    let mut i: usize = 0;
    let mut v = String::new();
    proof {
        lemma_str_valid(src);
        assert(utf8(v@) =~= Seq::<u8>::empty());
        assert(Seq::<u8>::empty() + unescape_html_from(b@, 0) =~= unescape_html_from(b@, 0));
    }
    while i < size
        invariant
            b@ == src.spec_bytes(),
            valid_utf8(b@),
            size == b@.len(),
            i <= size,
            i == 0 || b@[i - 1] < 0x80,
            utf8(v@) + unescape_html_from(b@, i as int) == unescape_html_from(b@, 0),
            i == 0 ==> v@ == Seq::<char>::empty(),
        decreases size - i,
    {
        let org = i;
        while i < size && b[i] != 38
            invariant
                b@ == src.spec_bytes(),
                size == b@.len(),
                org <= i <= size,
                unescape_html_from(b@, org as int) == b@.subrange(org as int, i as int)
                    + unescape_html_from(b@, i as int),
            decreases size - i,
        {
            proof {
                assert(b@.subrange(org as int, i + 1) =~= b@.subrange(org as int, i as int)
                    + seq![b@[i as int]]);
            }
            i += 1;
        }
        if i > org {
            if org == 0 && i >= size {
                proof {
                    assert(unescape_html_from(b@, size as int) =~= Seq::<u8>::empty());
                    assert(b@.subrange(0, size as int) =~= b@);
                }
                return Cow::Borrowed(src);
            }
            proof {
                lemma_ascii_boundary(b@, org as int);
                lemma_ascii_boundary(b@, i as int);
            }
            let ghost before = utf8(v@);
            push_str(&mut v, substr(src, org, i));
            proof {
                assert(before + (b@.subrange(org as int, i as int) + unescape_html_from(
                    b@,
                    i as int,
                )) =~= utf8(v@) + unescape_html_from(b@, i as int));
            }
        } else {
            proof {
                assert(b@.subrange(org as int, i as int) =~= Seq::<u8>::empty());
                assert(Seq::<u8>::empty() + unescape_html_from(b@, i as int)
                    =~= unescape_html_from(b@, i as int));
            }
        }
        if i >= size {
            proof {
                assert(unescape_html_from(b@, i as int) =~= Seq::<u8>::empty());
                assert(utf8(v@) + Seq::<u8>::empty() =~= utf8(v@));
            }
            return Cow::Owned(v);
        }
        proof {
            lemma_ascii_boundary(b@, i + 1);
            lemma_ascii_boundary(b@, size as int);
        }
        let ghost amp = i as int;
        i += 1;
        let rest = substr(src, i, size);
        let ghost before = utf8(v@);
        match unescape(rest) {
            Some((chs, size2)) => {
                proof {
                    lemma_unescape_entity_len(rest.spec_bytes());
                    assert(rest.spec_bytes()[size2 - 1] == b@[i + size2 - 1]);
                }
                match chs {
                    Cow::Borrowed(t) => {
                        push_str(&mut v, t);
                    },
                    Cow::Owned(t) => {
                        push_str(&mut v, t.as_str());
                    },
                }
                i += size2;
            },
            None => {
                push_ascii(&mut v, '&');
            },
        }
    }
    proof {
        assert(unescape_html_from(b@, i as int) =~= Seq::<u8>::empty());
        assert(utf8(v@) + Seq::<u8>::empty() =~= utf8(v@));
    }
    Cow::Owned(v)
}


/// A hexadecimal digit: `0`-`9`, `a`-`f` or `A`-`F`.
pub open spec fn hex_digit(c: u8) -> bool {
    (48 <= c <= 57) || (97 <= c <= 102) || (65 <= c <= 70)
}

/// What a digit counts for in base 16 (and, for `0`-`9`, in base 10).
pub open spec fn digit_weight(c: u8) -> int {
    if 48 <= c <= 57 {
        c - 48
    } else if 97 <= c <= 102 {
        c - 97 + 10
    } else {
        c - 65 + 10
    }
}

/// The number the digits `d` write in `base`, most significant first.
pub open spec fn number_of(d: Seq<u8>, base: int) -> int
    decreases d.len(),
{
    if d.len() == 0 {
        0
    } else {
        number_of(d.drop_last(), base) * base + digit_weight(d.last())
    }
}

/// Whether `v` is a code point that a numeric reference gives as it is:
/// not NUL, not a surrogate (nor U+E000), within Unicode.
pub open spec fn plain_code_point(v: int) -> bool {
    0 < v < 0x110000 && !(0xD800 <= v <= 0xE000)
}

proof fn lemma_lead_digits(d: Seq<u8>, tail: Seq<u8>, p: spec_fn(u8) -> bool)
    requires
        forall|k: int| 0 <= k < d.len() ==> p(#[trigger] d[k]),
        tail.len() > 0,
        !p(tail[0]),
    ensures
        lead(d + tail, p) == d.len(),
    decreases d.len(),
{
    if d.len() == 0 {
        assert(d + tail =~= tail);
    } else {
        assert((d + tail).drop_first() =~= d.drop_first() + tail);
        lemma_lead_digits(d.drop_first(), tail, p);
    }
}

proof fn lemma_number_grows(d: Seq<u8>, k: int, base: int)
    requires
        0 <= k <= d.len(),
        base >= 1,
        forall|j: int| 0 <= j < d.len() ==> 0 <= digit_weight(#[trigger] d[j]) < base,
    ensures
        0 <= number_of(d.subrange(0, k), base) <= number_of(d, base),
    decreases d.len() - k,
{
    if k < d.len() {
        lemma_number_grows(d, k + 1, base);
        let p = d.subrange(0, k + 1);
        let q = d.subrange(0, k);
        assert forall|j: int| 0 <= j < q.len() implies 0 <= digit_weight(#[trigger] q[j]) < base by {
            assert(q[j] == d[j]);
        }
        lemma_number_nonneg(q, base);
        assert(p.drop_last() =~= d.subrange(0, k));
        assert(number_of(p, base) == number_of(d.subrange(0, k), base) * base + digit_weight(d[k]));
        assert(number_of(d.subrange(0, k), base) * base >= number_of(d.subrange(0, k), base)) by (nonlinear_arith)
            requires
                number_of(d.subrange(0, k), base) >= 0,
                base >= 1,
        ;
    } else {
        assert(d.subrange(0, k) =~= d);
        lemma_number_nonneg(d, base);
    }
}

proof fn lemma_number_nonneg(d: Seq<u8>, base: int)
    requires
        base >= 1,
        forall|j: int| 0 <= j < d.len() ==> 0 <= digit_weight(#[trigger] d[j]) < base,
    ensures
        number_of(d, base) >= 0,
    decreases d.len(),
{
    if d.len() > 0 {
        lemma_number_nonneg(d.drop_last(), base);
        assert(number_of(d.drop_last(), base) * base >= 0) by (nonlinear_arith)
            requires
                number_of(d.drop_last(), base) >= 0,
                base >= 1,
        ;
    }
}

proof fn lemma_numeric_value_is_number(b: Seq<u8>, lo: int, d: Seq<u8>, k: int, base: int)
    requires
        base == 10 || base == 16,
        0 <= lo,
        0 <= k <= d.len(),
        lo + d.len() <= b.len(),
        b.subrange(lo, lo + d.len()) == d,
        forall|j: int| 0 <= j < d.len() ==> 0 <= digit_weight(#[trigger] d[j]) < base && digit_value(d[j], base == 16) == digit_weight(d[j]),
    ensures
        numeric_value(b, lo, lo + k, base) == if number_of(d.subrange(0, k), base) < 0x110000 {
            number_of(d.subrange(0, k), base)
        } else {
            0x110000
        },
    decreases k,
{
    if k > 0 {
        lemma_numeric_value_is_number(b, lo, d, k - 1, base);
        lemma_number_grows(d, k, base);
        let p = d.subrange(0, k);
        let q = d.subrange(0, k - 1);
        assert(p.drop_last() =~= q);
        assert(b[lo + k - 1] == d[k - 1]);
        assert forall|j: int| 0 <= j < q.len() implies 0 <= digit_weight(#[trigger] q[j]) < base by {
            assert(q[j] == d[j]);
        }
        lemma_number_nonneg(q, base);
        let nq = number_of(q, base);
        let w = digit_weight(d[k - 1]);
        assert(number_of(p, base) == nq * base + w);
        if nq >= 0x110000 {
            assert(0x110000 * base + w >= 0x110000) by (nonlinear_arith)
                requires
                    base >= 1,
                    w >= 0,
            ;
            assert(nq * base + w >= 0x110000) by (nonlinear_arith)
                requires
                    nq >= 0x110000,
                    base >= 1,
                    w >= 0,
            ;
        }
    } else {
        assert(d.subrange(0, 0) =~= Seq::<u8>::empty());
    }
}

/// The code point a numeric reference numbering `v` stands for: `v` where
/// it is a plain code point, else U+FFFD.
pub open spec fn reference_code_point(v: int) -> int {
    if plain_code_point(v) {
        v
    } else {
        0xFFFD
    }
}

/// A hexadecimal character reference, `#x` or `#X` followed by one to six
/// hexadecimal digits and `;`, decodes to the character those digits
/// number (U+FFFD for NUL, a surrogate or a number past Unicode), taking
/// its bytes up to the `;`.
pub proof fn lemma_hex_reference_decodes(x: u8, d: Seq<u8>, rest: Seq<u8>)
    requires
        x == 120 || x == 88,
        1 <= d.len() <= 6,
        forall|k: int| 0 <= k < d.len() ==> hex_digit(#[trigger] d[k]),
    ensures
        unescape_entity(seq![35u8, x] + d + seq![59u8] + rest) == Some(
            (seq![reference_code_point(number_of(d, 16)) as u32 as char], d.len() + 3int),
        ),
{
    let b = seq![35u8, x] + d + seq![59u8] + rest;
    let t = b.subrange(2, b.len() as int);
    assert(t =~= d + (seq![59u8] + rest));
    lemma_lead_digits(d, seq![59u8] + rest, xdigit_pred());
    assert(b.subrange(2, 2 + d.len() as int) =~= d);
    assert(b[2 + d.len() as int] == 59);
    assert(!is_digit_byte(b[1]));
    lemma_numeric_value_is_number(b, 2, d, d.len() as int, 16);
    assert(d.subrange(0, d.len() as int) =~= d);
    lemma_number_nonneg(d, 16);
    assert(sanitize_codepoint(numeric_value(b, 2, 2 + d.len() as int, 16)) == reference_code_point(number_of(d, 16)));
}

/// A decimal character reference, `#` followed by one to seven decimal
/// digits and `;`, decodes to the character those digits number (U+FFFD
/// for NUL, a surrogate or a number past Unicode), taking its bytes up to
/// the `;`.
pub proof fn lemma_decimal_reference_decodes(d: Seq<u8>, rest: Seq<u8>)
    requires
        1 <= d.len() <= 7,
        forall|k: int| 0 <= k < d.len() ==> 48 <= #[trigger] d[k] <= 57,
    ensures
        unescape_entity(seq![35u8] + d + seq![59u8] + rest) == Some(
            (seq![reference_code_point(number_of(d, 10)) as u32 as char], d.len() + 2int),
        ),
{
    let b = seq![35u8] + d + seq![59u8] + rest;
    let t = b.subrange(1, b.len() as int);
    assert(t =~= d + (seq![59u8] + rest));
    lemma_lead_digits(d, seq![59u8] + rest, digit_pred());
    assert(b.subrange(1, 1 + d.len() as int) =~= d);
    assert(b[1 + d.len() as int] == 59);
    assert(b[1] == d[0]);
    lemma_numeric_value_is_number(b, 1, d, d.len() as int, 10);
    assert(d.subrange(0, d.len() as int) =~= d);
    lemma_number_nonneg(d, 10);
    assert(sanitize_codepoint(numeric_value(b, 1, 1 + d.len() as int, 10)) == reference_code_point(number_of(d, 10)));
}


proof fn lemma_unescape_plain_from(b: Seq<u8>, i: int)
    requires
        0 <= i <= b.len(),
        forall|k: int| 0 <= k < b.len() ==> b[k] != 38,
    ensures
        unescape_html_from(b, i) == b.subrange(i, b.len() as int),
    decreases b.len() - i,
{
    if i < b.len() {
        lemma_unescape_plain_from(b, i + 1);
        assert(b.subrange(i, b.len() as int) =~= seq![b[i]] + b.subrange(i + 1, b.len() as int));
    } else {
        assert(b.subrange(i, b.len() as int) =~= Seq::<u8>::empty());
    }
}

/// Text with no `&` in it has no character references, and decoding
/// leaves it as it is.
pub proof fn lemma_unescape_html_without_ampersand(b: Seq<u8>)
    requires
        forall|k: int| 0 <= k < b.len() ==> b[k] != 38,
    ensures
        unescape_html_bytes(b) == b,
{
    lemma_unescape_plain_from(b, 0);
    assert(b.subrange(0, b.len() as int) =~= b);
}

} // verus!
