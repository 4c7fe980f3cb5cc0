//! Extended autolinks of GitHub Flavored Markdown: `www.` links, URLs with a
//! scheme, and email addresses found in plain text.

use finl_unicode::categories::CharacterCategories;
use vstd::prelude::*;
use vstd::slice::slice_subrange;
use vstd::string::*;
use vstd::utf8::*;

use crate::ctype::{is_alnum_byte, is_alpha_byte, is_space_byte};
use crate::scanners::{count_byte, opt_int};
use crate::strings::starts_with_bytes;
use crate::strings::{is_white_space, is_white_space_char};
use crate::text::{lemma_ascii_boundary, lemma_encode_ascii_seq, lemma_encode_concat, lemma_str_valid, push_str, str_chars, substr, utf8};

verus! {

/// Bytes that are dropped from the end of an autolink: `?!.,:*_~'"`.
pub open spec fn link_end_trimmed(c: u8) -> bool {
    c == 63 || c == 33 || c == 46 || c == 44 || c == 58 || c == 42 || c == 95 || c == 126 || c
        == 39 || c == 34
}

/// The first `<` among the first `n` bytes of `b` from `k` on, or `n`.
pub open spec fn lt_cut(b: Seq<u8>, k: int, n: int) -> int
    decreases n - k,
{
    if k >= n {
        n
    } else if b[k] == 60 {
        k
    } else {
        lt_cut(b, k + 1, n)
    }
}

/// Going back from `k` over ASCII letters, stopping at position 0.
pub open spec fn alpha_back_to(b: Seq<u8>, k: int) -> int
    decreases k,
{
    if k > 0 && is_alpha_byte(b[k]) {
        alpha_back_to(b, k - 1)
    } else {
        k
    }
}

/// Going back over letters stays within the start and `k`.
pub proof fn lemma_alpha_back_bounds(b: Seq<u8>, k: int)
    requires
        k >= 0,
    ensures
        0 <= alpha_back_to(b, k) <= k,
    decreases k,
{
    if k > 0 && is_alpha_byte(b[k]) {
        lemma_alpha_back_bounds(b, k - 1);
    }
}

/// The closing counts that the trimming may still give up, and the opening
/// counts it weighs them against.
pub struct BracketCounts {
    pub paren_open: int,
    pub paren_close: int,
    pub bracket_open: int,
    pub bracket_close: int,
    pub brace_open: int,
    pub brace_close: int,
}

/// How the end of an autolink is trimmed from `le` back: trailing
/// punctuation goes, an entity such as `&amp;` at the end goes, a closing
/// `)` (and, when relaxed, `]` or `}`) goes while it has no partner, and a
/// trailing U+2069 goes.  `None` where the scan would read before the start
/// of `b`.
pub open spec fn delim_trim(b: Seq<u8>, le: int, k: BracketCounts, relaxed: bool) -> Option<int>
    decreases le,
{
    if le <= 0 || le > b.len() {
        Some(le)
    } else {
        let c = b[le - 1];
        if link_end_trimmed(c) {
            delim_trim(b, le - 1, k, relaxed)
        } else if c == 59 {
            if le < 2 {
                None
            } else {
                let ne = alpha_back_to(b, le - 2);
                proof {
                    lemma_alpha_back_bounds(b, le - 2);
                }
                if ne < le - 2 && b[ne] == 38 {
                    delim_trim(b, ne, k, relaxed)
                } else {
                    delim_trim(b, le - 1, k, relaxed)
                }
            }
        } else if c == 41 {
            if k.paren_close <= k.paren_open {
                Some(le)
            } else {
                delim_trim(b, le - 1, BracketCounts { paren_close: k.paren_close - 1, ..k }, relaxed)
            }
        } else if c == 93 && relaxed {
            if k.bracket_close <= k.bracket_open {
                Some(le)
            } else {
                delim_trim(
                    b,
                    le - 1,
                    BracketCounts { bracket_close: k.bracket_close - 1, ..k },
                    relaxed,
                )
            }
        } else if c == 125 && relaxed {
            if k.brace_close <= k.brace_open {
                Some(le)
            } else {
                delim_trim(b, le - 1, BracketCounts { brace_close: k.brace_close - 1, ..k }, relaxed)
            }
        } else if c == 0xa9 {
            if le < 3 {
                None
            } else if b[le - 3] == 0xe2 && b[le - 2] == 0x81 {
                Some(le - 3)
            } else {
                Some(le)
            }
        } else {
            Some(le)
        }
    }
}

/// The bracket counts of the first `n` bytes of `b`.
pub open spec fn counts_of(b: Seq<u8>, n: int) -> BracketCounts {
    let p = b.subrange(0, n);
    BracketCounts {
        paren_open: count_byte(p, 40) as int,
        paren_close: count_byte(p, 41) as int,
        bracket_open: count_byte(p, 91) as int,
        bracket_close: count_byte(p, 93) as int,
        brace_open: count_byte(p, 123) as int,
        brace_close: count_byte(p, 125) as int,
    }
}

/// Where an autolink of `b` that was scanned up to `n` really ends: cut at
/// the first `<`, then trimmed by `delim_trim`.
pub open spec fn autolink_delim_spec(b: Seq<u8>, n: int, relaxed: bool) -> Option<int> {
    let cut = lt_cut(b, 0, n);
    delim_trim(b, cut, counts_of(b, cut), relaxed)
}

/// Trims the end of an autolink; see `autolink_delim_spec`.
pub fn autolink_delim(data: &[u8], link_end: usize, relaxed_autolinks: bool) -> (r: usize)
    requires
        link_end <= data@.len(),
        autolink_delim_spec(data@, link_end as int, relaxed_autolinks) is Some,
    ensures
        autolink_delim_spec(data@, link_end as int, relaxed_autolinks) == Some(r as int),
        r <= link_end,
{
    let b = data;
    let mut po: usize = 0;
    let mut pc: usize = 0;
    let mut bo: usize = 0;
    let mut bc: usize = 0;
    let mut co: usize = 0;
    let mut cc: usize = 0;
    let mut i: usize = 0;
    let mut cut = link_end;
    proof {
        assert(b@.subrange(0, 0) =~= Seq::<u8>::empty());
    }
    while i < link_end
        invariant_except_break
            cut == link_end,
        invariant
            link_end <= b@.len(),
            i <= link_end,
            lt_cut(b@, i as int, link_end as int) == lt_cut(b@, 0, link_end as int),
            po == count_byte(b@.subrange(0, i as int), 40),
            pc == count_byte(b@.subrange(0, i as int), 41),
            bo == count_byte(b@.subrange(0, i as int), 91),
            bc == count_byte(b@.subrange(0, i as int), 93),
            co == count_byte(b@.subrange(0, i as int), 123),
            cc == count_byte(b@.subrange(0, i as int), 125),
            po <= i && pc <= i && bo <= i && bc <= i && co <= i && cc <= i,
        ensures
            cut == lt_cut(b@, 0, link_end as int),
            cut <= link_end,
            po == count_byte(b@.subrange(0, cut as int), 40),
            pc == count_byte(b@.subrange(0, cut as int), 41),
            bo == count_byte(b@.subrange(0, cut as int), 91),
            bc == count_byte(b@.subrange(0, cut as int), 93),
            co == count_byte(b@.subrange(0, cut as int), 123),
            cc == count_byte(b@.subrange(0, cut as int), 125),
        decreases link_end - i,
    {
        let c = b[i];
        if c == 60 {
            cut = i;
            break;
        }
        proof {
            assert(b@.subrange(0, i + 1).drop_last() =~= b@.subrange(0, i as int));
        }
        if c == 40 {
            po = po + 1;
        } else if c == 41 {
            pc = pc + 1;
        } else if c == 91 {
            bo = bo + 1;
        } else if c == 93 {
            bc = bc + 1;
        } else if c == 123 {
            co = co + 1;
        } else if c == 125 {
            cc = cc + 1;
        }
        i = i + 1;
    }
    let ghost k0 = counts_of(b@, cut as int);
    let mut le = cut;
    loop
        invariant
            b@ == data@,
            le <= cut <= link_end <= b@.len(),
            po == k0.paren_open && bo == k0.bracket_open && co == k0.brace_open,
            delim_trim(
                b@,
                le as int,
                BracketCounts {
                    paren_close: pc as int,
                    bracket_close: bc as int,
                    brace_close: cc as int,
                    ..k0
                },
                relaxed_autolinks,
            ) == autolink_delim_spec(b@, link_end as int, relaxed_autolinks),
            autolink_delim_spec(b@, link_end as int, relaxed_autolinks) is Some,
        decreases le,
    {
        if le == 0 {
            return le;
        }
        let c = b[le - 1];
        if c == 63 || c == 33 || c == 46 || c == 44 || c == 58 || c == 42 || c == 95 || c == 126
            || c == 39 || c == 34 {
            le = le - 1;
        } else if c == 59 {
            let mut ne = le - 2;
            while ne > 0 && is_alpha(b[ne])
                invariant
                    ne <= le - 2,
                    le <= b@.len(),
                    alpha_back_to(b@, ne as int) == alpha_back_to(b@, le - 2),
                decreases ne,
            {
                ne = ne - 1;
            }
            if ne < le - 2 && b[ne] == 38 {
                le = ne;
            } else {
                le = le - 1;
            }
        } else if c == 41 {
            if pc <= po {
                return le;
            }
            pc = pc - 1;
            le = le - 1;
        } else if c == 93 && relaxed_autolinks {
            if bc <= bo {
                return le;
            }
            bc = bc - 1;
            le = le - 1;
        } else if c == 125 && relaxed_autolinks {
            if cc <= co {
                return le;
            }
            cc = cc - 1;
            le = le - 1;
        } else if c == 0xa9 {
            if b[le - 3] == 0xe2 && b[le - 2] == 0x81 {
                return le - 3;
            }
            return le;
        } else {
            return le;
        }
    }
}

fn is_alpha(c: u8) -> (r: bool)
    ensures
        r == is_alpha_byte(c),
{
    (65 <= c && c <= 90) || (97 <= c && c <= 122)
}

/// Whether a character is Unicode punctuation (general category P), as the
/// tables of `finl_unicode` have it.
pub uninterp spec fn unicode_punctuation(c: char) -> bool;

/// Whether a character is a Unicode symbol (general category S), as the
/// tables of `finl_unicode` have it.
pub uninterp spec fn unicode_symbol(c: char) -> bool;

/// `finl_unicode`'s `CharacterCategories::is_punctuation`: a lookup of the
/// character's general category.
#[verifier::external_body]
fn char_is_punctuation(c: char) -> (r: bool)
    ensures
        r == unicode_punctuation(c),
{
    c.is_punctuation()
}

/// `finl_unicode`'s `CharacterCategories::is_symbol`: a lookup of the
/// character's general category.
#[verifier::external_body]
fn char_is_symbol(c: char) -> (r: bool)
    ensures
        r == unicode_symbol(c),
{
    c.is_symbol()
}

/// A character that may stand in a host name: not whitespace, punctuation
/// or a symbol.
pub open spec fn valid_hostchar(c: char) -> bool {
    !(is_white_space_char(c) || unicode_punctuation(c) || unicode_symbol(c))
}

fn is_valid_hostchar(c: char) -> (r: bool)
    ensures
        r == valid_hostchar(c),
{
    !(is_white_space(c) || char_is_punctuation(c) || char_is_symbol(c))
}

/// The counts that `check_domain` keeps: periods, and underscores in the
/// last label but one and in the last label.
pub struct DomainCounts {
    pub periods: int,
    pub uscore1: int,
    pub uscore2: int,
}

/// How `check_domain` goes on from the character at `k` of `cs` (whose
/// encoding takes `total` bytes): where the domain ends, in bytes, or
/// `None` if it is not a valid domain.
pub open spec fn domain_scan(
    cs: Seq<char>,
    k: int,
    total: int,
    st: DomainCounts,
    allow_short: bool,
) -> Option<int>
    decreases cs.len() - k,
{
    if k < 0 || k >= cs.len() {
        if (st.uscore1 > 0 || st.uscore2 > 0) && st.periods <= 10 {
            None
        } else if allow_short || st.periods > 0 {
            Some(total)
        } else {
            None
        }
    } else {
        let c = cs[k];
        let i = utf8(cs.take(k)).len() as int;
        if c == '\\' && i < total - 1 {
            domain_scan(cs, k + 1, total, st, allow_short)
        } else if c == '_' {
            domain_scan(cs, k + 1, total, DomainCounts { uscore2: st.uscore2 + 1, ..st }, allow_short)
        } else if c == '.' {
            domain_scan(
                cs,
                k + 1,
                total,
                DomainCounts { periods: st.periods + 1, uscore1: st.uscore2, uscore2: 0 },
                allow_short,
            )
        } else if !valid_hostchar(c) && c != '-' {
            if st.uscore1 == 0 && st.uscore2 == 0 && (allow_short || st.periods > 0) {
                Some(i)
            } else {
                None
            }
        } else {
            domain_scan(cs, k + 1, total, st, allow_short)
        }
    }
}

/// Where the domain at the start of `cs` ends, in bytes: it runs to the
/// first character that is not allowed in a host name, needs a period
/// unless `allow_short`, and may not have an underscore in its last two
/// labels (unless it has more than ten periods and runs to the end).
pub open spec fn check_domain_spec(cs: Seq<char>, allow_short: bool) -> Option<int> {
    domain_scan(
        cs,
        0,
        utf8(cs).len() as int,
        DomainCounts { periods: 0, uscore1: 0, uscore2: 0 },
        allow_short,
    )
}

/// The number of bytes that encode `c`.
fn char_len(c: char) -> (r: usize)
    ensures
        r == utf8(seq![c]).len(),
        1 <= r <= 4,
{
    let v = c as u32;
    proof {
        reveal_with_fuel(encode_utf8, 2);
        assert(seq![c].drop_first() =~= Seq::<char>::empty());
        assert(seq![c][0] == c);
        assert(utf8(seq![c]) =~= encode_scalar(c as u32));
    }
    if v <= 0x7f {
        1
    } else if v <= 0x7ff {
        2
    } else if v <= 0xffff {
        3
    } else {
        4
    }
}

/// Checks the domain at the start of `data`; see `check_domain_spec`.
pub fn check_domain(data: &str, allow_short: bool) -> (r: Option<usize>)
    ensures
        opt_int(r) == check_domain_spec(data@, allow_short),
        r matches Some(d) ==> d <= data.spec_bytes().len(),
{
    let cs = str_chars(data);
    let total = data.as_bytes().len();
    let mut np: usize = 0;
    let mut uscore1: usize = 0;
    let mut uscore2: usize = 0;
    let mut k: usize = 0;
    let mut off: usize = 0;
    proof {
        assert(cs@.take(0) =~= Seq::<char>::empty());
    }
    while k < cs.len()
        invariant
            cs@ == data@,
            total == utf8(cs@).len(),
            k <= cs@.len(),
            off == utf8(cs@.take(k as int)).len(),
            np <= k && uscore1 <= k && uscore2 <= k,
            domain_scan(
                cs@,
                k as int,
                total as int,
                DomainCounts { periods: np as int, uscore1: uscore1 as int, uscore2: uscore2 as int },
                allow_short,
            ) == check_domain_spec(data@, allow_short),
        decreases cs@.len() - k,
    {
        let c = cs[k];
        proof {
            lemma_encode_concat(cs@.take(k as int), seq![c]);
            assert(cs@.take(k + 1) =~= cs@.take(k as int) + seq![c]);
            lemma_encode_concat(cs@.take(k + 1), cs@.skip(k + 1));
            assert(cs@ =~= cs@.take(k + 1) + cs@.skip(k + 1));
        }
        let cl = char_len(c);
        if c == '\\' && off + 1 < total {
        } else if c == '_' {
            uscore2 = uscore2 + 1;
        } else if c == '.' {
            uscore1 = uscore2;
            uscore2 = 0;
            np = np + 1;
        } else if !is_valid_hostchar(c) && c != '-' {
            if uscore1 == 0 && uscore2 == 0 && (allow_short || np > 0) {
                return Some(off);
            }
            return None;
        }
        off = off + cl;
        k = k + 1;
    }
    if (uscore1 > 0 || uscore2 > 0) && np <= 10 {
        None
    } else if allow_short || np > 0 {
        Some(total)
    } else {
        None
    }
}

/// A position that the trimming of an autolink stops at is a character
/// boundary when the scan started at one.
pub proof fn lemma_delim_trim_boundary(b: Seq<u8>, le: int, k: BracketCounts, relaxed: bool)
    requires
        valid_utf8(b),
        0 <= le <= b.len(),
        is_char_boundary(b, le),
    ensures
        delim_trim(b, le, k, relaxed) matches Some(e) ==> 0 <= e <= le && is_char_boundary(b, e),
    decreases le,
{
    if le > 0 {
        let c = b[le - 1];
        lemma_ascii_boundary_if(b, le - 1);
        if link_end_trimmed(c) {
            lemma_delim_trim_boundary(b, le - 1, k, relaxed);
        } else if c == 59 {
            if le >= 2 {
                let ne = alpha_back_to(b, le - 2);
                lemma_alpha_back_bounds(b, le - 2);
                if ne < le - 2 && b[ne] == 38 {
                    lemma_ascii_boundary(b, ne);
                    lemma_delim_trim_boundary(b, ne, k, relaxed);
                } else {
                    lemma_delim_trim_boundary(b, le - 1, k, relaxed);
                }
            }
        } else if c == 41 {
            lemma_delim_trim_boundary(
                b,
                le - 1,
                BracketCounts { paren_close: k.paren_close - 1, ..k },
                relaxed,
            );
        } else if c == 93 && relaxed {
            lemma_delim_trim_boundary(
                b,
                le - 1,
                BracketCounts { bracket_close: k.bracket_close - 1, ..k },
                relaxed,
            );
        } else if c == 125 && relaxed {
            lemma_delim_trim_boundary(
                b,
                le - 1,
                BracketCounts { brace_close: k.brace_close - 1, ..k },
                relaxed,
            );
        } else if c == 0xa9 && le >= 3 && b[le - 3] == 0xe2 && b[le - 2] == 0x81 {
            is_char_boundary_iff_not_is_continuation_byte(b, le - 3);
        }
    }
}

/// A position before an ASCII byte is a character boundary.
proof fn lemma_ascii_boundary_if(b: Seq<u8>, i: int)
    requires
        valid_utf8(b),
        0 <= i < b.len(),
    ensures
        b[i] < 0x80 ==> is_char_boundary(b, i),
{
    if b[i] < 0x80 {
        lemma_ascii_boundary(b, i);
    }
}

/// The first `<` cut stays on a character boundary.
proof fn lemma_lt_cut(b: Seq<u8>, k: int, n: int)
    requires
        valid_utf8(b),
        0 <= k <= n <= b.len(),
        is_char_boundary(b, n),
    ensures
        k <= lt_cut(b, k, n) <= n,
        is_char_boundary(b, lt_cut(b, k, n)),
    decreases n - k,
{
    if k < n {
        if b[k] == 60 {
            lemma_ascii_boundary(b, k);
        } else {
            lemma_lt_cut(b, k + 1, n);
        }
    }
}

/// Where an autolink ends after trimming is a character boundary.
pub proof fn lemma_autolink_delim_boundary(b: Seq<u8>, n: int, relaxed: bool)
    requires
        valid_utf8(b),
        0 <= n <= b.len(),
        is_char_boundary(b, n),
    ensures
        autolink_delim_spec(b, n, relaxed) matches Some(e) ==> 0 <= e <= n && is_char_boundary(b, e),
{
    lemma_lt_cut(b, 0, n);
    let cut = lt_cut(b, 0, n);
    lemma_delim_trim_boundary(b, cut, counts_of(b, cut), relaxed);
}

/// Whether two byte strings are equal.
fn eq_bytes(a: &[u8], b: &[u8]) -> (r: bool)
    ensures
        r == (a@ == b@),
{
    if a.len() != b.len() {
        return false;
    }
    let mut k: usize = 0;
    while k < a.len()
        invariant
            a@.len() == b@.len(),
            k <= a@.len(),
            forall|j: int| 0 <= j < k ==> a@[j] == b@[j],
        decreases a@.len() - k,
    {
        if a[k] != b[k] {
            return false;
        }
        k += 1;
    }
    proof {
        assert(a@ =~= b@);
    }
    true
}

/// The ASCII letters right before `i`, counted from `r` on.
pub open spec fn alpha_rewind(b: Seq<u8>, i: int, r: int) -> int
    decreases i - r,
{
    if 0 <= r < i && i <= b.len() && is_alpha_byte(b[i - r - 1]) {
        alpha_rewind(b, i, r + 1)
    } else {
        r
    }
}

proof fn lemma_alpha_rewind(b: Seq<u8>, i: int, r: int)
    requires
        0 <= r <= i <= b.len(),
    ensures
        r <= alpha_rewind(b, i, r) <= i,
        forall|k: int| i - alpha_rewind(b, i, r) <= k < i - r ==> is_alpha_byte(#[trigger] b[k]),
    decreases i - r,
{
    if r < i && is_alpha_byte(b[i - r - 1]) {
        lemma_alpha_rewind(b, i, r + 1);
    }
}

/// How an autolink's text goes on from `i + le`: up to whitespace or the
/// end; `None` when, relaxed, a `](` shows the text is a Markdown link.
pub open spec fn url_scan(b: Seq<u8>, i: int, le: int, relaxed: bool) -> Option<int>
    decreases b.len() - i - le,
{
    if 0 <= i + le < b.len() && !is_space_byte(b[i + le]) {
        if relaxed && le > 0 && b[i + le - 1] == 93 && b[i + le] == 40 {
            None
        } else {
            url_scan(b, i, le + 1, relaxed)
        }
    } else {
        Some(le)
    }
}

fn url_scan_exec(b: &[u8], i: usize, le: usize, relaxed: bool) -> (r: Option<usize>)
    requires
        i + le <= b@.len(),
    ensures
        opt_int(r) == url_scan(b@, i as int, le as int, relaxed),
        r matches Some(e) ==> le <= e && i + e <= b@.len() && (i + e == b@.len() || is_space_byte(
            b@[i + e],
        )),
{
    let len = b.len();
    let mut e = le;
    while i + e < len && !crate::ctype::isspace(b[i + e])
        invariant
            len == b@.len(),
            le <= e,
            i + e <= len,
            url_scan(b@, i as int, e as int, relaxed) == url_scan(b@, i as int, le as int, relaxed),
        decreases len - i - e,
    {
        if relaxed && e > 0 && b[i + e - 1] == 93 && b[i + e] == 40 {
            return None;
        }
        e = e + 1;
    }
    Some(e)
}

/// Where a URL autolink at `i` (the `:` after its scheme) has been scanned
/// to before trimming: `//` must follow, the scheme must be `http`,
/// `https` or `ftp` unless relaxed, and a valid domain must come next.
pub open spec fn url_scanned(b: Seq<u8>, i: int, relaxed: bool) -> Option<int> {
    if i < 0 || i + 4 > b.len() || b[i + 1] != 47 || b[i + 2] != 47 {
        None
    } else {
        let rw = alpha_rewind(b, i, 0);
        let scheme = b.subrange(i - rw, i);
        if !relaxed && !(scheme == utf8("http"@) || scheme == utf8("https"@) || scheme == utf8(
            "ftp"@,
        )) {
            None
        } else {
            match check_domain_spec(decode_utf8(b.subrange(i + 3, b.len() as int)), relaxed) {
                None => None,
                Some(d) => url_scan(b, i, d + 3, relaxed),
            }
        }
    }
}

/// What `url_match` finds: how far the link reaches back before `i` and
/// where it ends after `i`.
pub open spec fn url_match_spec(b: Seq<u8>, i: int, relaxed: bool) -> Option<(int, int)> {
    match url_scanned(b, i, relaxed) {
        None => None,
        Some(le) => match autolink_delim_spec(b.subrange(i, b.len() as int), le, relaxed) {
            Some(e) => Some((alpha_rewind(b, i, 0), e)),
            None => None,
        },
    }
}

/// When `url_match` can run on `b` at `i` without failing: `i` is a
/// character boundary when the text after it looks like `://`, and the
/// trimming does not run off the start.
pub open spec fn url_match_ok(b: Seq<u8>, i: int, relaxed: bool) -> bool {
    &&& 0 <= i <= b.len()
    &&& (i + 4 <= b.len() && b[i + 1] == 47 && b[i + 2] == 47) ==> is_char_boundary(b, i)
    &&& url_scanned(b, i, relaxed) matches Some(le) ==> autolink_delim_spec(
        b.subrange(i, b.len() as int),
        le,
        relaxed,
    ) is Some
}

#[verifier::rlimit(40)]
/// Recognises a URL autolink around the `:` at `i` of `input`: gives the
/// URL, how many bytes it reaches back before `i`, and how many it spans in
/// all.
pub fn url_match(input: &str, i: usize, relaxed_autolinks: bool) -> (r: Option<(String, usize, usize)>)
    requires
        url_match_ok(input.spec_bytes(), i as int, relaxed_autolinks),
    ensures
        url_match_spec(input.spec_bytes(), i as int, relaxed_autolinks) is None ==> r is None,
        url_match_spec(input.spec_bytes(), i as int, relaxed_autolinks) matches Some((rw, e)) ==> (
        r matches Some((url, back, span)) && back == rw && span == rw + e && utf8(url@)
            == input.spec_bytes().subrange(i - rw, i + e)),
{
    let b = input.as_bytes();
    let size = b.len();
    if size - i < 4 || b[i + 1] != 47 || b[i + 2] != 47 {
        return None;
    }
    proof {
        lemma_str_valid(input);
    }
    let mut rewind: usize = 0;
    while rewind < i && is_alpha(b[i - rewind - 1])
        invariant
            i <= size == b@.len(),
            rewind <= i,
            alpha_rewind(b@, i as int, rewind as int) == alpha_rewind(b@, i as int, 0),
        decreases i - rewind,
    {
        rewind = rewind + 1;
    }
    proof {
        lemma_alpha_rewind(b@, i as int, 0);
        if rewind > 0 {
            lemma_ascii_boundary(b@, i - rewind);
        }
        lemma_ascii_boundary(b@, i + 3);
        lemma_ascii_boundary(b@, size as int);
    }
    let scheme = substr(input, i - rewind, i);
    if !relaxed_autolinks {
        let sb = scheme.as_bytes();
        if !(eq_bytes(sb, "http".as_bytes()) || eq_bytes(sb, "https".as_bytes()) || eq_bytes(
            sb,
            "ftp".as_bytes(),
        )) {
            return None;
        }
    }
    let rest = substr(input, i + 3, size);
    proof {
        encode_utf8_decode_utf8(rest@);
        assert(rest.spec_bytes() == b@.subrange(i + 3, b@.len() as int));
        assert(rest@ == decode_utf8(b@.subrange(i + 3, b@.len() as int)));
    }
    let d = match check_domain(rest, relaxed_autolinks) {
        Some(d) => d,
        None => {
            return None;
        },
    };
    let le = match url_scan_exec(b, i, d + 3, relaxed_autolinks) {
        Some(le) => le,
        None => {
            return None;
        },
    };
    let tail = substr(input, i, size);
    let tb = tail.as_bytes();
    proof {
        assert(tb@ == b@.subrange(i as int, size as int));
        lemma_str_valid(tail);
        if le < tb@.len() {
            assert(tb@[le as int] == b@[i + le]);
            lemma_ascii_boundary(tb@, le as int);
        } else {
            lemma_ascii_boundary(tb@, le as int);
        }
        lemma_autolink_delim_boundary(tb@, le as int, relaxed_autolinks);
        lemma_ascii_boundary(tb@, 0);
    }
    let e = autolink_delim(tb, le, relaxed_autolinks);
    let mut url = scheme.to_owned();
    push_str(&mut url, substr(tail, 0, e));
    proof {
        assert(b@.subrange(i - rewind, i + e) =~= b@.subrange(i - rewind, i as int) + tb@.subrange(
            0,
            e as int,
        ));
    }
    Some((url, rewind, rewind + e))
}

/// Bytes before which a `www.` autolink may start: `*_~([`.
pub open spec fn www_delim(c: u8) -> bool {
    c == 42 || c == 95 || c == 126 || c == 40 || c == 91
}

/// Where a `www.` autolink at `i` has been scanned to before trimming: it
/// must follow whitespace or one of `*_~([` (or start the text), and a
/// valid domain must follow `www.`.
pub open spec fn www_scanned(b: Seq<u8>, i: int, relaxed: bool) -> Option<int> {
    if i < 0 || i > b.len() {
        None
    } else if i > 0 && !is_space_byte(b[i - 1]) && !www_delim(b[i - 1]) {
        None
    } else if !starts_with_bytes(b.subrange(i, b.len() as int), utf8("www."@)) {
        None
    } else {
        match check_domain_spec(decode_utf8(b.subrange(i + 4, b.len() as int)), relaxed) {
            None => None,
            Some(d) => url_scan(b, i, d + 4, relaxed),
        }
    }
}

/// Where a `www.` autolink at `i` ends, after trimming.
pub open spec fn www_match_spec(b: Seq<u8>, i: int, relaxed: bool) -> Option<int> {
    match www_scanned(b, i, relaxed) {
        None => None,
        Some(le) => autolink_delim_spec(b.subrange(i, b.len() as int), le, relaxed),
    }
}

/// When `www_match` can run on `b` at `i` without failing.
pub open spec fn www_match_ok(b: Seq<u8>, i: int, relaxed: bool) -> bool {
    &&& 0 <= i <= b.len()
    &&& !(i > 0 && !is_space_byte(b[i - 1]) && !www_delim(b[i - 1])) ==> is_char_boundary(b, i)
    &&& www_scanned(b, i, relaxed) matches Some(le) ==> autolink_delim_spec(
        b.subrange(i, b.len() as int),
        le,
        relaxed,
    ) is Some
}

/// Recognises a `www.` autolink at `i` of `input`: gives its URL, with
/// `http://` put in front, and its length.
pub fn www_match(input: &str, i: usize, relaxed_autolinks: bool) -> (r: Option<(String, usize, usize)>)
    requires
        www_match_ok(input.spec_bytes(), i as int, relaxed_autolinks),
    ensures
        www_match_spec(input.spec_bytes(), i as int, relaxed_autolinks) is None ==> r is None,
        www_match_spec(input.spec_bytes(), i as int, relaxed_autolinks) matches Some(e) ==> (
        r matches Some((url, back, span)) && back == 0 && span == e && utf8(url@) == utf8(
            "http://"@,
        ) + input.spec_bytes().subrange(i as int, i + e)),
{
    let b = input.as_bytes();
    let size = b.len();
    if i > 0 && !crate::ctype::isspace(b[i - 1]) && !(b[i - 1] == 42 || b[i - 1] == 95 || b[i
        - 1] == 126 || b[i - 1] == 40 || b[i - 1] == 91) {
        return None;
    }
    proof {
        lemma_str_valid(input);
        lemma_ascii_boundary(b@, size as int);
    }
    let tail = substr(input, i, size);
    let tb = tail.as_bytes();
    let www = "www.";
    proof {
        reveal_strlit("www.");
        lemma_encode_ascii_seq(www@);
    }
    if !crate::scanners::starts_with_exec(tb, www.as_bytes()) {
        return None;
    }
    proof {
        assert(www@[3] == '.');
        assert(tb@.subrange(0, 4) == www.spec_bytes());
        assert(tb@[3] == tb@.subrange(0, 4)[3]);
        assert(tb@[3] == b@[i + 3]);
        lemma_ascii_boundary(b@, i + 4);
    }
    let rest = substr(input, i + 4, size);
    proof {
        encode_utf8_decode_utf8(rest@);
        assert(rest.spec_bytes() == b@.subrange(i + 4, b@.len() as int));
    }
    let d = match check_domain(rest, relaxed_autolinks) {
        Some(d) => d,
        None => {
            return None;
        },
    };
    let le = match url_scan_exec(b, i, d + 4, relaxed_autolinks) {
        Some(le) => le,
        None => {
            return None;
        },
    };
    proof {
        assert(tb@ == b@.subrange(i as int, size as int));
        lemma_str_valid(tail);
        if le < tb@.len() {
            assert(tb@[le as int] == b@[i + le]);
        }
        lemma_ascii_boundary(tb@, le as int);
        lemma_autolink_delim_boundary(tb@, le as int, relaxed_autolinks);
        lemma_ascii_boundary(tb@, 0);
    }
    let e = autolink_delim(tb, le, relaxed_autolinks);
    let mut url = "http://".to_owned();
    push_str(&mut url, substr(tail, 0, e));
    proof {
        assert(tb@.subrange(0, e as int) =~= b@.subrange(i as int, i + e));
    }
    Some((url, 0, e))
}

/// Bytes that an email address may hold besides letters and digits:
/// `.+-_`.
pub open spec fn email_ok(c: u8) -> bool {
    c == 46 || c == 43 || c == 45 || c == 95
}

/// Whether the letters right before the `:` at `cursor` spell `p`.
pub open spec fn validate_protocol_spec(p: Seq<u8>, b: Seq<u8>, cursor: int) -> bool {
    let rw = alpha_rewind(b, cursor, 0);
    b.len() - cursor + rw >= p.len() && b.subrange(cursor - rw, cursor) == p
}

fn validate_protocol(protocol: &[u8], contents: &[u8], cursor: usize) -> (r: bool)
    requires
        cursor <= contents@.len(),
    ensures
        r == validate_protocol_spec(protocol@, contents@, cursor as int),
{
    let size = contents.len();
    let mut rewind: usize = 0;
    while rewind < cursor && is_alpha(contents[cursor - rewind - 1])
        invariant
            cursor <= size == contents@.len(),
            rewind <= cursor,
            alpha_rewind(contents@, cursor as int, rewind as int) == alpha_rewind(
                contents@,
                cursor as int,
                0,
            ),
        decreases cursor - rewind,
    {
        rewind = rewind + 1;
    }
    size - cursor + rewind >= protocol.len() && eq_bytes(
        slice_subrange(contents, cursor - rewind, cursor),
        protocol,
    )
}

/// How far an email address reaches back from the `@` at `i`, and whether
/// it needs `mailto:` (it does unless it reaches back over `mailto:` or
/// `xmpp:`), and whether it is an XMPP address.
pub open spec fn email_back(b: Seq<u8>, i: int, r: int, auto: bool, xmpp: bool) -> (int, bool, bool)
    decreases i - r,
{
    if 0 <= r < i && i <= b.len() {
        let c = b[i - r - 1];
        if is_alnum_byte(c) || email_ok(c) {
            email_back(b, i, r + 1, auto, xmpp)
        } else if c == 58 && validate_protocol_spec(utf8("mailto"@), b, i - r - 1) {
            email_back(b, i, r + 1, false, xmpp)
        } else if c == 58 && validate_protocol_spec(utf8("xmpp"@), b, i - r - 1) {
            email_back(b, i, r + 1, false, true)
        } else {
            (r, auto, xmpp)
        }
    } else {
        (r, auto, xmpp)
    }
}

/// How an email address goes on after the `@` at `i` from `le` on: its
/// length and the number of periods that a letter or digit follows, or
/// `None` at a second `@`.
pub open spec fn email_fwd(b: Seq<u8>, i: int, le: int, np: int, xmpp: bool) -> Option<(int, int)>
    decreases b.len() - i - le,
{
    if 0 <= i + le < b.len() {
        let c = b[i + le];
        if is_alnum_byte(c) {
            email_fwd(b, i, le + 1, np, xmpp)
        } else if c == 64 {
            None
        } else if c == 46 && i + le + 1 < b.len() && is_alnum_byte(b[i + le + 1]) {
            email_fwd(b, i, le + 1, np + 1, xmpp)
        } else if c == 47 && xmpp {
            email_fwd(b, i, le + 1, np, xmpp)
        } else if c != 45 && c != 95 {
            Some((le, np))
        } else {
            email_fwd(b, i, le + 1, np, xmpp)
        }
    } else {
        Some((le, np))
    }
}

/// An email address around the `@` at `i` before trimming: how far it
/// reaches back, whether it needs `mailto:`, and how far it goes on.
pub open spec fn email_scanned(b: Seq<u8>, i: int) -> Option<(int, bool, int)> {
    let back = email_back(b, i, 0, true, false);
    if back.0 == 0 {
        None
    } else {
        match email_fwd(b, i, 1, 0, back.2) {
            None => None,
            Some((le, np)) => if le < 2 || np == 0 || (!is_alpha_byte(b[i + le - 1]) && b[i + le
                - 1] != 46) {
                None
            } else {
                Some((back.0, back.1, le))
            },
        }
    }
}

/// An email autolink around the `@` at `i`: how far it reaches back,
/// whether it needs `mailto:`, and where it ends after trimming.
pub open spec fn email_match_spec(b: Seq<u8>, i: int, relaxed: bool) -> Option<(int, bool, int)> {
    match email_scanned(b, i) {
        None => None,
        Some((rw, auto, le)) => match autolink_delim_spec(
            b.subrange(i, b.len() as int),
            le,
            relaxed,
        ) {
            Some(e) => if e == 0 {
                None
            } else {
                Some((rw, auto, e))
            },
            None => None,
        },
    }
}

/// When `email_match` can run at `i` without failing.
pub open spec fn email_match_ok(b: Seq<u8>, i: int, relaxed: bool) -> bool {
    &&& 0 <= i <= b.len()
    &&& email_scanned(b, i) matches Some((rw, auto, le)) ==> autolink_delim_spec(
        b.subrange(i, b.len() as int),
        le,
        relaxed,
    ) is Some
}

proof fn lemma_email_back(b: Seq<u8>, i: int, r: int, auto: bool, xmpp: bool)
    requires
        0 <= r <= i <= b.len(),
    ensures
        r <= email_back(b, i, r, auto, xmpp).0 <= i,
        forall|k: int|
            i - email_back(b, i, r, auto, xmpp).0 <= k < i - r ==> #[trigger] b[k] < 0x80,
    decreases i - r,
{
    if r < i {
        let c = b[i - r - 1];
        if is_alnum_byte(c) || email_ok(c) || (c == 58 && validate_protocol_spec(
            utf8("mailto"@),
            b,
            i - r - 1,
        )) {
            lemma_email_back(b, i, r + 1, if is_alnum_byte(c) || email_ok(c) {
                auto
            } else {
                false
            }, xmpp);
        } else if c == 58 && validate_protocol_spec(utf8("xmpp"@), b, i - r - 1) {
            lemma_email_back(b, i, r + 1, false, true);
        }
    }
}

proof fn lemma_email_fwd(b: Seq<u8>, i: int, le: int, np: int, xmpp: bool)
    requires
        0 <= i,
        1 <= le,
        i + le <= b.len(),
        np <= le,
        forall|k: int| i + 1 <= k < i + le ==> #[trigger] b[k] < 0x80,
    ensures
        email_fwd(b, i, le, np, xmpp) matches Some((e, n)) ==> le <= e && i + e <= b.len() && n
            <= e && forall|k: int| i + 1 <= k < i + e ==> #[trigger] b[k] < 0x80,
    decreases b.len() - i - le,
{
    if i + le < b.len() {
        let c = b[i + le];
        if is_alnum_byte(c) || (c == 47 && xmpp) || c == 45 || c == 95 {
            lemma_email_fwd(b, i, le + 1, np, xmpp);
        } else if c == 46 && i + le + 1 < b.len() && is_alnum_byte(b[i + le + 1]) {
            lemma_email_fwd(b, i, le + 1, np + 1, xmpp);
        }
    }
}

/// Recognises an email autolink around the `@` at `i` of `contents`: gives
/// the URL (with `mailto:` in front unless the address has a `mailto:` or
/// `xmpp:` of its own), how far it reaches back before `i`, and how many
/// bytes it spans in all.
pub fn email_match(contents: &str, i: usize, relaxed_autolinks: bool) -> (r: Option<
    (String, usize, usize),
>)
    requires
        email_match_ok(contents.spec_bytes(), i as int, relaxed_autolinks),
    ensures
        email_match_spec(contents.spec_bytes(), i as int, relaxed_autolinks) is None ==> r is None,
        email_match_spec(contents.spec_bytes(), i as int, relaxed_autolinks) matches Some(
            (rw, auto, e),
        ) ==> (r matches Some((url, back, span)) && back == rw && span == rw + e && utf8(url@) == (
        if auto {
            utf8("mailto:"@)
        } else {
            seq![]
        }) + contents.spec_bytes().subrange(i - rw, i + e)),
{
    let b = contents.as_bytes();
    let size = b.len();
    let mut auto_mailto = true;
    let mut is_xmpp = false;
    let mut rewind: usize = 0;
    loop
        invariant
            i <= size == b@.len(),
            rewind <= i,
            email_back(b@, i as int, rewind as int, auto_mailto, is_xmpp) == email_back(
                b@,
                i as int,
                0,
                true,
                false,
            ),
        ensures
            rewind <= i,
            email_back(b@, i as int, 0, true, false) == (rewind as int, auto_mailto, is_xmpp),
        decreases i - rewind,
    {
        if rewind >= i {
            break;
        }
        let c = b[i - rewind - 1];
        if crate::ctype::isalnum(c) || c == 46 || c == 43 || c == 45 || c == 95 {
            rewind = rewind + 1;
            continue;
        }
        if c == 58 {
            if validate_protocol("mailto".as_bytes(), b, i - rewind - 1) {
                auto_mailto = false;
                rewind = rewind + 1;
                continue;
            }
            if validate_protocol("xmpp".as_bytes(), b, i - rewind - 1) {
                is_xmpp = true;
                auto_mailto = false;
                rewind = rewind + 1;
                continue;
            }
        }
        break;
    }
    if rewind == 0 {
        return None;
    }
    proof {
        lemma_email_back(b@, i as int, 0, true, false);
    }
    let mut link_end: usize = 1;
    let mut np: usize = 0;
    if size - i < 1 {
        return None;
    }
    loop
        invariant
            i < size == b@.len(),
            b@ == contents.spec_bytes(),
            1 <= link_end <= size - i,
            np <= link_end,
            rewind > 0,
            email_back(b@, i as int, 0, true, false) == (rewind as int, auto_mailto, is_xmpp),
            email_fwd(b@, i as int, link_end as int, np as int, is_xmpp) == email_fwd(
                b@,
                i as int,
                1,
                0,
                is_xmpp,
            ),
        ensures
            1 <= link_end <= size - i,
            email_fwd(b@, i as int, 1, 0, is_xmpp) == Some((link_end as int, np as int)),
        decreases size - i - link_end,
    {
        if link_end >= size - i {
            break;
        }
        let c = b[i + link_end];
        if crate::ctype::isalnum(c) {
        } else if c == 64 {
            return None;
        } else if c == 46 && link_end < size - i - 1 && crate::ctype::isalnum(b[i + link_end + 1]) {
            np = np + 1;
        } else if c == 47 && is_xmpp {
        } else if c != 45 && c != 95 {
            break;
        }
        link_end = link_end + 1;
    }
    if link_end < 2 || np == 0 || (!is_alpha(b[i + link_end - 1]) && b[i + link_end - 1] != 46) {
        return None;
    }
    proof {
        lemma_str_valid(contents);
        lemma_email_fwd(b@, i as int, 1, 0, is_xmpp);
        lemma_ascii_boundary(b@, i as int);
        lemma_ascii_boundary(b@, size as int);
        assert(b@[i - rewind] < 0x80);
        lemma_ascii_boundary(b@, i - rewind);
    }
    let tail = substr(contents, i, size);
    let tb = tail.as_bytes();
    proof {
        assert(tb@ == b@.subrange(i as int, size as int));
        lemma_str_valid(tail);
        assert(tb@[link_end - 1] == b@[i + link_end - 1]);
        lemma_ascii_boundary(tb@, link_end as int);
        lemma_autolink_delim_boundary(tb@, link_end as int, relaxed_autolinks);
        lemma_ascii_boundary(tb@, 0);
    }
    let e = autolink_delim(tb, link_end, relaxed_autolinks);
    if e == 0 {
        return None;
    }
    let mut url = if auto_mailto {
        "mailto:".to_owned()
    } else {
        String::new()
    };
    proof {
        assert(utf8(url@) =~= if auto_mailto {
            utf8("mailto:"@)
        } else {
            seq![]
        });
    }
    push_str(&mut url, substr(contents, i - rewind, i));
    push_str(&mut url, substr(tail, 0, e));
    proof {
        assert(b@.subrange(i - rewind, i + e) =~= b@.subrange(i - rewind, i as int) + tb@.subrange(
            0,
            e as int,
        ));
    }
    Some((url, rewind, rewind + e))
}

/// The first email autolink from `i` on, with `opens` and `closes` the
/// square brackets seen so far: unless relaxed, text inside brackets is
/// skipped.  Gives the position of its `@` and what `email_match_spec`
/// finds there.
pub open spec fn find_email(b: Seq<u8>, i: int, opens: int, closes: int, relaxed: bool) -> Option<
    (int, (int, bool, int)),
>
    decreases b.len() - i,
{
    if i < 0 || i >= b.len() {
        None
    } else {
        let o = if !relaxed && b[i] == 91 {
            opens + 1
        } else {
            opens
        };
        let c = if !relaxed && b[i] == 93 {
            closes + 1
        } else {
            closes
        };
        if !relaxed && o > c {
            find_email(b, i + 1, o, c, relaxed)
        } else if b[i] == 64 && email_match_spec(b, i, relaxed) is Some {
            Some((i, email_match_spec(b, i, relaxed)->0))
        } else {
            find_email(b, i + 1, o, c, relaxed)
        }
    }
}

/// When the search for an email autolink from `i` on runs without failing:
/// every `@` it tries is one `email_match` can handle.
pub open spec fn find_email_ok(b: Seq<u8>, i: int, opens: int, closes: int, relaxed: bool) -> bool
    decreases b.len() - i,
{
    if i < 0 || i >= b.len() {
        true
    } else {
        let o = if !relaxed && b[i] == 91 {
            opens + 1
        } else {
            opens
        };
        let c = if !relaxed && b[i] == 93 {
            closes + 1
        } else {
            closes
        };
        if !relaxed && o > c {
            find_email_ok(b, i + 1, o, c, relaxed)
        } else if b[i] == 64 {
            email_match_ok(b, i, relaxed) && (email_match_spec(b, i, relaxed) is Some
                || find_email_ok(b, i + 1, o, c, relaxed))
        } else {
            find_email_ok(b, i + 1, o, c, relaxed)
        }
    }
}

/// Finds the first email autolink in `contents`: gives its URL, the length
/// of the text before it, and its length.
pub fn find_email_autolink(contents: &str, relaxed_autolinks: bool) -> (r: Option<
    (String, usize, usize),
>)
    requires
        find_email_ok(contents.spec_bytes(), 0, 0, 0, relaxed_autolinks),
    ensures
        find_email(contents.spec_bytes(), 0, 0, 0, relaxed_autolinks) is None ==> r is None,
        find_email(contents.spec_bytes(), 0, 0, 0, relaxed_autolinks) matches Some(
            (at, (rw, auto, e)),
        ) ==> (r matches Some((url, before, span)) && before == at - rw && span == rw + e && utf8(
            url@,
        ) == (if auto {
            utf8("mailto:"@)
        } else {
            seq![]
        }) + contents.spec_bytes().subrange(at - rw, at + e)),
{
    let b = contents.as_bytes();
    let len = b.len();
    let mut i: usize = 0;
    let mut opens: usize = 0;
    let mut closes: usize = 0;
    while i < len
        invariant
            b@ == contents.spec_bytes(),
            len == b@.len(),
            i <= len,
            opens <= i && closes <= i,
            find_email(b@, i as int, opens as int, closes as int, relaxed_autolinks) == find_email(
                b@,
                0,
                0,
                0,
                relaxed_autolinks,
            ),
            find_email_ok(b@, i as int, opens as int, closes as int, relaxed_autolinks),
        decreases len - i,
    {
        if !relaxed_autolinks {
            if b[i] == 91 {
                opens = opens + 1;
            } else if b[i] == 93 {
                closes = closes + 1;
            }
            if opens > closes {
                i = i + 1;
                continue;
            }
        }
        if b[i] == 64 {
            match email_match(contents, i, relaxed_autolinks) {
                Some((url, reverse, skip)) => {
                    proof {
                        lemma_email_match_bounds(b@, i as int, relaxed_autolinks);
                    }
                    return Some((url, i - reverse, skip));
                },
                None => {},
            }
        }
        i = i + 1;
    }
    None
}

proof fn lemma_email_match_bounds(b: Seq<u8>, i: int, relaxed: bool)
    requires
        0 <= i <= b.len(),
    ensures
        email_match_spec(b, i, relaxed) matches Some((rw, auto, e)) ==> 0 <= rw <= i,
{
    lemma_email_back(b, i, 0, true, false);
}


/// Whether `c` is one of `?!.,:*_~'"`, the punctuation that GFM leaves off
/// the end of an extended autolink.
pub open spec fn trailing_punctuation(c: u8) -> bool {
    c == 0x3f || c == 0x21 || c == 0x2e || c == 0x2c || c == 0x3a || c == 0x2a || c == 0x5f || c
        == 0x7e || c == 0x27 || c == 0x22
}

/// Whether the bytes from `r` on are the UTF-8 encoding of U+2069, the pop
/// directional isolate, all before `le`.
pub open spec fn isolate_at(b: Seq<u8>, r: int, le: int) -> bool {
    r + 3 <= le && b[r] == 0xe2 && b[r + 1] == 0x81 && b[r + 2] == 0xa9
}

proof fn lemma_lt_cut_bounds(b: Seq<u8>, k: int, n: int)
    requires
        0 <= k <= n,
    ensures
        k <= lt_cut(b, k, n) <= n,
    decreases n - k,
{
    if k < n && b[k] != 60 {
        lemma_lt_cut_bounds(b, k + 1, n);
    }
}

proof fn lemma_delim_trim_end(b: Seq<u8>, le: int, k: BracketCounts, relaxed: bool)
    requires
        0 <= le <= b.len(),
    ensures
        delim_trim(b, le, k, relaxed) matches Some(r) ==> 0 <= r <= le && (r > 0 ==> !trailing_punctuation(
            b[r - 1],
        ) || isolate_at(b, r, le)),
    decreases le,
{
    if le > 0 {
        let c = b[le - 1];
        if link_end_trimmed(c) {
            lemma_delim_trim_end(b, le - 1, k, relaxed);
        } else if c == 59 {
            if le >= 2 {
                let ne = alpha_back_to(b, le - 2);
                lemma_alpha_back_bounds(b, le - 2);
                if ne < le - 2 && b[ne] == 38 {
                    lemma_delim_trim_end(b, ne, k, relaxed);
                } else {
                    lemma_delim_trim_end(b, le - 1, k, relaxed);
                }
            }
        } else if c == 41 {
            if k.paren_close > k.paren_open {
                lemma_delim_trim_end(b, le - 1, BracketCounts { paren_close: k.paren_close - 1, ..k }, relaxed);
            }
        } else if c == 93 && relaxed {
            if k.bracket_close > k.bracket_open {
                lemma_delim_trim_end(b, le - 1, BracketCounts { bracket_close: k.bracket_close - 1, ..k }, relaxed);
            }
        } else if c == 125 && relaxed {
            if k.brace_close > k.brace_open {
                lemma_delim_trim_end(b, le - 1, BracketCounts { brace_close: k.brace_close - 1, ..k }, relaxed);
            }
        }
    }
}

/// An extended autolink never ends in trailing punctuation `?!.,:*_~'"`:
/// where the trimmed link ends, the byte before is no such punctuation,
/// unless a U+2069 right after it was what got trimmed.  So a scanned link
/// whose last byte is such punctuation always loses it, and trimming never
/// lengthens a link.
pub proof fn lemma_autolink_end_not_punctuation(b: Seq<u8>, n: int, relaxed: bool)
    requires
        0 <= n <= b.len(),
    ensures
        autolink_delim_spec(b, n, relaxed) matches Some(r) ==> 0 <= r <= n && (r > 0 ==> !trailing_punctuation(
            b[r - 1],
        ) || isolate_at(b, r, n)),
        n > 0 && trailing_punctuation(b[n - 1]) ==> (autolink_delim_spec(b, n, relaxed) matches Some(r) ==> r < n),
{
    let cut = lt_cut(b, 0, n);
    lemma_lt_cut_bounds(b, 0, n);
    lemma_delim_trim_end(b, cut, counts_of(b, cut), relaxed);
}


proof fn lemma_alpha_back_letters(b: Seq<u8>, k: int)
    requires
        k >= 0,
    ensures
        forall|j: int| alpha_back_to(b, k) < j <= k ==> is_alpha_byte(#[trigger] b[j]),
    decreases k,
{
    if k > 0 && is_alpha_byte(b[k]) {
        lemma_alpha_back_letters(b, k - 1);
    }
}

proof fn lemma_count_unchanged(b: Seq<u8>, lo: int, hi: int, c: u8)
    requires
        0 <= lo <= hi <= b.len(),
        forall|j: int| lo <= j < hi ==> b[j] != c,
    ensures
        count_byte(b.subrange(0, lo), c) == count_byte(b.subrange(0, hi), c),
    decreases hi - lo,
{
    if lo < hi {
        lemma_count_unchanged(b, lo, hi - 1, c);
        assert(b.subrange(0, hi).drop_last() =~= b.subrange(0, hi - 1));
    }
}

/// Whether the counts `k` agree with the parentheses of the first `le`
/// bytes of `b`.
pub open spec fn parens_counted(b: Seq<u8>, le: int, k: BracketCounts) -> bool {
    &&& k.paren_open == count_byte(b.subrange(0, le), 40)
    &&& k.paren_close == count_byte(b.subrange(0, le), 41)
}

proof fn lemma_delim_trim_parens(b: Seq<u8>, le: int, k: BracketCounts, relaxed: bool)
    requires
        0 <= le <= b.len(),
        parens_counted(b, le, k),
    ensures
        delim_trim(b, le, k, relaxed) matches Some(r) ==> (r > 0 && b[r - 1] == 41 && !isolate_at(b, r, le)
            ==> count_byte(b.subrange(0, r), 41) <= count_byte(b.subrange(0, r), 40)),
    decreases le,
{
    if le > 0 {
        let c = b[le - 1];
        let p = b.subrange(0, le);
        assert(p.drop_last() =~= b.subrange(0, le - 1));
        if link_end_trimmed(c) {
            lemma_delim_trim_parens(b, le - 1, k, relaxed);
            lemma_delim_trim_end(b, le - 1, k, relaxed);
        } else if c == 59 {
            if le >= 2 {
                let ne = alpha_back_to(b, le - 2);
                lemma_alpha_back_bounds(b, le - 2);
                if ne < le - 2 && b[ne] == 38 {
                    lemma_alpha_back_letters(b, le - 2);
                    assert forall|j: int| ne <= j < le implies b[j] != 40 && b[j] != 41 by {
                        if ne < j <= le - 2 {
                            assert(is_alpha_byte(b[j]));
                        }
                    }
                    lemma_count_unchanged(b, ne, le, 40);
                    lemma_count_unchanged(b, ne, le, 41);
                    lemma_delim_trim_parens(b, ne, k, relaxed);
                    lemma_delim_trim_end(b, ne, k, relaxed);
                } else {
                    lemma_delim_trim_parens(b, le - 1, k, relaxed);
                    lemma_delim_trim_end(b, le - 1, k, relaxed);
                }
            }
        } else if c == 41 {
            if k.paren_close > k.paren_open {
                let k2 = BracketCounts { paren_close: k.paren_close - 1, ..k };
                lemma_delim_trim_parens(b, le - 1, k2, relaxed);
                lemma_delim_trim_end(b, le - 1, k2, relaxed);
            }
        } else if c == 93 && relaxed {
            if k.bracket_close > k.bracket_open {
                let k2 = BracketCounts { bracket_close: k.bracket_close - 1, ..k };
                lemma_delim_trim_parens(b, le - 1, k2, relaxed);
                lemma_delim_trim_end(b, le - 1, k2, relaxed);
            }
        } else if c == 125 && relaxed {
            if k.brace_close > k.brace_open {
                let k2 = BracketCounts { brace_close: k.brace_close - 1, ..k };
                lemma_delim_trim_parens(b, le - 1, k2, relaxed);
                lemma_delim_trim_end(b, le - 1, k2, relaxed);
            }
        }
    }
}

/// An extended autolink that ends in `)` has its parentheses balanced or
/// more of them opened than closed: a closing parenthesis with no partner
/// is trimmed off (unless a U+2069 after it was what got trimmed).
pub proof fn lemma_autolink_closing_paren_balanced(b: Seq<u8>, n: int, relaxed: bool)
    requires
        0 <= n <= b.len(),
    ensures
        autolink_delim_spec(b, n, relaxed) matches Some(r) ==> (r > 0 && b[r - 1] == 41 && !isolate_at(b, r, n)
            ==> count_byte(b.subrange(0, r), 41) <= count_byte(b.subrange(0, r), 40)),
{
    let cut = lt_cut(b, 0, n);
    lemma_lt_cut_bounds(b, 0, n);
    lemma_delim_trim_parens(b, cut, counts_of(b, cut), relaxed);
}


/// A `www.` autolink starts with `www.`, at the start of the text or after
/// whitespace or one of `*_~([`.
pub proof fn lemma_www_autolink_shape(b: Seq<u8>, i: int, relaxed: bool)
    requires
        0 <= i <= b.len(),
    ensures
        www_match_spec(b, i, relaxed) is Some ==> {
            &&& starts_with_bytes(b.subrange(i, b.len() as int), seq![0x77u8, 0x77u8, 0x77u8, 0x2eu8])
            &&& (i == 0 || is_space_byte(b[i - 1]) || b[i - 1] == 0x2a || b[i - 1] == 0x5f || b[i - 1]
                == 0x7e || b[i - 1] == 0x28 || b[i - 1] == 0x5b)
        },
{
    reveal_strlit("www.");
    lemma_encode_ascii_seq("www."@);
    assert(utf8("www."@) =~= seq![0x77u8, 0x77u8, 0x77u8, 0x2eu8]);
}

/// Outside relaxed mode, a URL autolink's scheme, the letters right
/// before its `://`, is `http`, `https` or `ftp`.
pub proof fn lemma_url_autolink_scheme(b: Seq<u8>, i: int)
    requires
        0 <= i <= b.len(),
    ensures
        url_match_spec(b, i, false) matches Some((rw, e)) ==> {
            let scheme = b.subrange(i - rw, i);
            &&& scheme == utf8("http"@) || scheme == utf8("https"@) || scheme == utf8("ftp"@)
            &&& b[i + 1] == 0x2f && b[i + 2] == 0x2f
        },
{
}

} // verus!
