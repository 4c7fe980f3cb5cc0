//! HTML output helpers: text and URL escaping, dangerous-URL detection,
//! opening tags, and the tag filter of GitHub Flavored Markdown.

pub mod anchorizer;
pub mod context;
pub mod render;

use vstd::prelude::*;
use vstd::slice::slice_subrange;
use vstd::string::*;
use vstd::utf8::*;

use crate::ctype::is_space_byte;
use crate::scanners;
use crate::scanners::{dangerous_url_spec, starts_with_ci, starts_with_ci_exec, starts_with_exec};
use crate::strings::{lead, lemma_lead, starts_with_bytes};
use crate::text::{lemma_ascii_boundary, lemma_encode_ascii_seq, lemma_str_valid, push_ascii, push_str, substr, utf8};

verus! {

broadcast use vstd::utf8::group_utf8_lib;

/// Returned by a node formatter to say whether the children of a node are
/// rendered as full HTML, as plain text, or skipped.
#[derive(Debug, Clone, Copy, PartialEq, Eq, Structural)]
pub enum ChildRendering {
    /// Children are rendered in full HTML as usual.
    HTML,
    /// Children are rendered in "plain" mode.
    Plain,
    /// Children are skipped.
    Skip,
}

/// How `escape` renders one byte.
pub open spec fn escape_byte(c: u8) -> Seq<u8> {
    if c == 34 {
        utf8("&quot;"@)
    } else if c == 38 {
        utf8("&amp;"@)
    } else if c == 60 {
        utf8("&lt;"@)
    } else if c == 62 {
        utf8("&gt;"@)
    } else {
        seq![c]
    }
}

/// Text escaped for HTML: `"`, `&`, `<` and `>` become entities, all else
/// passes through.
pub open spec fn escape_bytes(b: Seq<u8>) -> Seq<u8>
    decreases b.len(),
{
    if b.len() == 0 {
        seq![]
    } else {
        escape_bytes(b.drop_last()) + escape_byte(b.last())
    }
}

/// Escapes `buffer` so that nothing in it can be read as an HTML tag:
/// U+0022 becomes `&quot;`, U+0026 `&amp;`, U+003C `&lt;`, U+003E `&gt;`,
/// and everything else passes through unchanged.
///
/// This is appropriate for free text, not for URLs in attributes; see
/// `escape_href`.
pub fn escape(buffer: &str) -> (r: String)
    ensures
        utf8(r@) == escape_bytes(buffer.spec_bytes()),
{
    let bytes = buffer.as_bytes();
    let len = bytes.len();
    let mut out = String::new();
    let mut offset: usize = 0;
    let mut i: usize = 0;
    proof {
        lemma_str_valid(buffer);
        assert(utf8(out@) =~= Seq::<u8>::empty());
        assert(bytes@.subrange(0, 0) =~= Seq::<u8>::empty());
    }
    while i < len
        invariant
            bytes@ == buffer.spec_bytes(),
            valid_utf8(bytes@),
            len == bytes@.len(),
            offset <= i <= len,
            offset == 0 || bytes@[offset - 1] < 0x80,
            utf8(out@) + bytes@.subrange(offset as int, i as int) == escape_bytes(
                bytes@.subrange(0, i as int),
            ),
        decreases len - i,
    {
        let c = bytes[i];
        proof {
            assert(bytes@.subrange(0, i + 1).drop_last() =~= bytes@.subrange(0, i as int));
            assert(bytes@.subrange(0, i + 1).last() == c);
        }
        if c == 34 || c == 38 || c == 60 || c == 62 {
            proof {
                lemma_ascii_boundary(bytes@, offset as int);
                lemma_ascii_boundary(bytes@, i as int);
            }
            push_str(&mut out, substr(buffer, offset, i));
            if c == 34 {
                push_str(&mut out, "&quot;");
            } else if c == 38 {
                push_str(&mut out, "&amp;");
            } else if c == 60 {
                push_str(&mut out, "&lt;");
            } else {
                push_str(&mut out, "&gt;");
            }
            offset = i + 1;
            proof {
                assert(bytes@.subrange(offset as int, i + 1) =~= Seq::<u8>::empty());
                assert(utf8(out@) + Seq::<u8>::empty() =~= utf8(out@));
            }
        } else {
            proof {
                assert(bytes@.subrange(offset as int, i + 1) =~= bytes@.subrange(
                    offset as int,
                    i as int,
                ) + seq![c]);
            }
        }
        i += 1;
    }
    proof {
        lemma_ascii_boundary(bytes@, offset as int);
        lemma_ascii_boundary(bytes@, len as int);
        assert(bytes@.subrange(0, len as int) =~= bytes@);
    }
    push_str(&mut out, substr(buffer, offset, len));
    out
}

/// Bytes that `escape_href` passes through: ASCII letters, digits and
/// `-_.+!*(),%#@?=;:/,+$~`.
pub open spec fn href_safe(c: u8) -> bool {
    (97 <= c && c <= 122) || (65 <= c && c <= 90) || (48 <= c && c <= 57) || c == 45 || c == 95
        || c == 46 || c == 43 || c == 33 || c == 42 || c == 40 || c == 41 || c == 44 || c == 37
        || c == 35 || c == 64 || c == 63 || c == 61 || c == 59 || c == 58 || c == 47 || c == 36
        || c == 126
}

fn is_href_safe(c: u8) -> (r: bool)
    ensures
        r == href_safe(c),
{
    (97 <= c && c <= 122) || (65 <= c && c <= 90) || (48 <= c && c <= 57) || c == 45 || c == 95
        || c == 46 || c == 43 || c == 33 || c == 42 || c == 40 || c == 41 || c == 44 || c == 37
        || c == 35 || c == 64 || c == 63 || c == 61 || c == 59 || c == 58 || c == 47 || c == 36
        || c == 126
}

/// An upper-case hexadecimal digit.
pub open spec fn hex_digit_upper(d: u8) -> u8 {
    if d < 10 {
        (48 + d) as u8
    } else {
        (55 + d) as u8
    }
}

/// How `escape_href` renders one byte.
pub open spec fn escape_href_byte(c: u8) -> Seq<u8> {
    if href_safe(c) {
        seq![c]
    } else if c == 38 {
        utf8("&amp;"@)
    } else if c == 39 {
        utf8("&#x27;"@)
    } else {
        seq![37u8, hex_digit_upper(c / 16), hex_digit_upper(c % 16)]
    }
}

/// A URL escaped byte by byte for an HTML attribute.
pub open spec fn escape_href_bytes(b: Seq<u8>) -> Seq<u8>
    decreases b.len(),
{
    if b.len() == 0 {
        seq![]
    } else {
        escape_href_bytes(b.drop_last()) + escape_href_byte(b.last())
    }
}

/// Bytes allowed between the brackets of an IPv6 host: hexadecimal digits,
/// `:` and `.`.
pub open spec fn ipv6_byte(c: u8) -> bool {
    (48 <= c && c <= 57) || (97 <= c && c <= 102) || (65 <= c && c <= 70) || c == 58 || c == 46
}

/// A scheme character after the first: letter, digit, `+`, `-` or `.`.
pub open spec fn scheme_tail_byte(c: u8) -> bool {
    (97 <= c && c <= 122) || (65 <= c && c <= 90) || (48 <= c && c <= 57) || c == 43 || c == 45
        || c == 46
}

/// `scheme_tail_byte` as a predicate.
pub open spec fn scheme_tail_pred() -> spec_fn(u8) -> bool {
    |c: u8| scheme_tail_byte(c)
}

/// `ipv6_byte` as a predicate.
pub open spec fn ipv6_pred() -> spec_fn(u8) -> bool {
    |c: u8| ipv6_byte(c)
}

/// Where the scheme of `b` ends, if `b` opens with `scheme://`; with
/// `relaxed` any scheme counts, otherwise only `http` and `https`.
pub open spec fn url_scheme_end_spec(b: Seq<u8>, relaxed: bool) -> Option<int> {
    if relaxed {
        if b.len() > 0 && ((97 <= b[0] && b[0] <= 122) || (65 <= b[0] && b[0] <= 90)) {
            let n: int = 1 + lead(b.subrange(1, b.len() as int), scheme_tail_pred()) as int;
            if starts_with_bytes(b.subrange(n, b.len() as int), utf8("://"@)) {
                Some(n + 3)
            } else {
                None
            }
        } else {
            None
        }
    } else if starts_with_bytes(b, utf8("http://"@)) {
        Some(7)
    } else if starts_with_bytes(b, utf8("https://"@)) {
        Some(8)
    } else {
        None
    }
}

/// The length of an opening `scheme://[ipv6]` of `b`: the scheme as
/// `url_scheme_end_spec` allows it, then `[`, one or more hexadecimal digits,
/// colons and dots, and `]`.
pub open spec fn ipv6_url_start_spec(b: Seq<u8>, relaxed: bool) -> Option<int> {
    match url_scheme_end_spec(b, relaxed) {
        None => None,
        Some(s) => if s < b.len() && b[s] == 91 {
            let k = lead(b.subrange(s + 1, b.len() as int), ipv6_pred());
            if k > 0 && s + 1 + k < b.len() && b[s + 1 + k] == 93 {
                Some(s + 2 + k)
            } else {
                None
            }
        } else {
            None
        },
    }
}

fn url_scheme_end(b: &[u8], relaxed: bool) -> (r: Option<usize>)
    ensures
        r matches Some(n) ==> url_scheme_end_spec(b@, relaxed) == Some(n as int),
        r is None ==> url_scheme_end_spec(b@, relaxed) is None,
{
    if relaxed {
        if b.len() > 0 && ((97 <= b[0] && b[0] <= 122) || (65 <= b[0] && b[0] <= 90)) {
            let mut n: usize = 1;
            while n < b.len() && ((97 <= b[n] && b[n] <= 122) || (65 <= b[n] && b[n] <= 90) || (48
                <= b[n] && b[n] <= 57) || b[n] == 43 || b[n] == 45 || b[n] == 46)
                invariant
                    1 <= n <= b@.len(),
                    forall|k: int| 1 <= k < n ==> scheme_tail_byte(#[trigger] b@[k]),
                decreases b@.len() - n,
            {
                n += 1;
            }
            proof {
                let t = b@.subrange(1, b@.len() as int);
                assert forall|k: int| 0 <= k < n - 1 implies scheme_tail_pred()(#[trigger] t[k]) by {
                    assert(t[k] == b@[k + 1]);
                }
                if n < b@.len() {
                    assert(t[n - 1] == b@[n as int]);
                }
                lemma_lead(t, scheme_tail_pred(), n - 1);
            }
            let rest = slice_subrange(b, n, b.len());
            let sep = "://";
            proof {
                reveal_strlit("://");
                lemma_encode_ascii_seq(sep@);
            }
            if starts_with_exec(rest, sep.as_bytes()) {
                Some(n + 3)
            } else {
                None
            }
        } else {
            None
        }
    } else if starts_with_exec(b, "http://".as_bytes()) {
        Some(7)
    } else if starts_with_exec(b, "https://".as_bytes()) {
        Some(8)
    } else {
        None
    }
}

/// The length of an opening `scheme://[ipv6]` of `buffer`, if any.
fn ipv6_url_start(buffer: &str, relaxed: bool) -> (r: Option<usize>)
    ensures
        r matches Some(n) ==> ipv6_url_start_spec(buffer.spec_bytes(), relaxed) == Some(n as int),
        r is None ==> ipv6_url_start_spec(buffer.spec_bytes(), relaxed) is None,
{
    let b = buffer.as_bytes();
    match url_scheme_end(b, relaxed) {
        None => None,
        Some(s) => {
            if s < b.len() && b[s] == 91 {
                let mut k: usize = s + 1;
                while k < b.len() && ((48 <= b[k] && b[k] <= 57) || (97 <= b[k] && b[k] <= 102) || (
                65 <= b[k] && b[k] <= 70) || b[k] == 58 || b[k] == 46)
                    invariant
                        s < b@.len(),
                        s + 1 <= k <= b@.len(),
                        forall|j: int| s + 1 <= j < k ==> ipv6_byte(#[trigger] b@[j]),
                    decreases b@.len() - k,
                {
                    k += 1;
                }
                proof {
                    let t = b@.subrange(s + 1, b@.len() as int);
                    assert forall|j: int| 0 <= j < k - s - 1 implies ipv6_pred()(#[trigger] t[j]) by {
                        assert(t[j] == b@[j + s + 1]);
                    }
                    if k < b@.len() {
                        assert(t[k - s - 1] == b@[k as int]);
                    }
                    lemma_lead(t, ipv6_pred(), k - s - 1);
                }
                if k > s + 1 && k < b.len() && b[k] == 93 {
                    Some(k + 1)
                } else {
                    None
                }
            } else {
                None
            }
        },
    }
}

/// A URL escaped for an HTML attribute: an opening `scheme://[ipv6]` host
/// (see `ipv6_url_start_spec`) is kept as it is, and every later byte is
/// rendered by `escape_href_byte`.
pub open spec fn escape_href_spec(b: Seq<u8>, relaxed_ipv6: bool) -> Seq<u8> {
    match ipv6_url_start_spec(b, relaxed_ipv6) {
        Some(e) => b.subrange(0, e) + escape_href_bytes(b.subrange(e, b.len() as int)),
        None => escape_href_bytes(b),
    }
}

fn hex_char(d: u8) -> (c: char)
    requires
        d < 16,
    ensures
        (c as u32) < 0x80,
        c as u8 == hex_digit_upper(d),
{
    if d < 10 {
        (48 + d) as char
    } else {
        (55 + d) as char
    }
}

/// The end of the run of `href_safe` bytes of `b` that starts at `i`.
fn href_safe_run(b: &[u8], i: usize) -> (j: usize)
    requires
        i <= b@.len(),
    ensures
        i <= j <= b@.len(),
        forall|k: int| i <= k < j ==> href_safe(#[trigger] b@[k]),
        j == b@.len() || !href_safe(b@[j as int]),
{
    let mut j = i;
    while j < b.len() && is_href_safe(b[j])
        invariant
            i <= j <= b@.len(),
            forall|k: int| i <= k < j ==> href_safe(#[trigger] b@[k]),
        decreases b@.len() - j,
    {
        j += 1;
    }
    j
}

/// `escape_href_bytes` of a run of safe bytes is the run itself.
proof fn lemma_escape_href_safe_run(b: Seq<u8>, start: int, org: int, j: int)
    requires
        0 <= start <= org <= j <= b.len(),
        forall|k: int| org <= k < j ==> href_safe(#[trigger] b[k]),
    ensures
        escape_href_bytes(b.subrange(start, j)) == escape_href_bytes(b.subrange(start, org))
            + b.subrange(org, j),
    decreases j - org,
{
    if j > org {
        lemma_escape_href_safe_run(b, start, org, j - 1);
        assert(b.subrange(start, j).drop_last() =~= b.subrange(start, j - 1));
        assert(b.subrange(org, j) =~= b.subrange(org, j - 1) + seq![b[j - 1]]);
    } else {
        assert(b.subrange(org, j) =~= Seq::<u8>::empty());
    }
}

/// Appends the escape of one byte that `href_safe` refuses.
fn push_href_escaped(out: &mut String, c: u8)
    requires
        !href_safe(c),
    ensures
        utf8(final(out)@) == utf8(old(out)@) + escape_href_byte(c),
{
    let ghost before = utf8(out@);
    if c == 38 {
        push_str(out, "&amp;");
    } else if c == 39 {
        push_str(out, "&#x27;");
    } else {
        push_ascii(out, '%');
        push_ascii(out, hex_char(c / 16));
        push_ascii(out, hex_char(c % 16));
        proof {
            assert(utf8(out@) =~= before + seq![37u8, hex_digit_upper(c / 16), hex_digit_upper(
                c % 16,
            )]);
        }
    }
}

/// Escapes `buffer` for use as a URL in an HTML attribute: `&` becomes
/// `&amp;`, `'` becomes `&#x27;`, ASCII letters and digits and
/// `-_.+!*(),%#@?=;:/,+$~` pass through, and every other byte is
/// percent-encoded.  `%` is passed through, so a URL that is already
/// percent-encoded is not encoded twice.
///
/// Square brackets are left unescaped only around what appears to be an
/// IPv6 address in the host part of the URL: after `http://` or `https://`,
/// or after any scheme when `relaxed_ipv6` holds.
pub fn escape_href(buffer: &str, relaxed_ipv6: bool) -> (r: String)
    ensures
        utf8(r@) == escape_href_spec(buffer.spec_bytes(), relaxed_ipv6),
{
    let bytes = buffer.as_bytes();
    let size = bytes.len();
    let mut out = String::new();
    let mut i: usize = 0;
    let ghost mut prefix: Seq<u8> = Seq::empty();
    proof {
        lemma_str_valid(buffer);
        assert(utf8(out@) =~= Seq::<u8>::empty());
    }
    match ipv6_url_start(buffer, relaxed_ipv6) {
        Some(end) => {
            proof {
                assert(bytes@[end - 1] == 93);
                lemma_ascii_boundary(bytes@, 0);
                lemma_ascii_boundary(bytes@, end as int);
            }
            push_str(&mut out, substr(buffer, 0, end));
            i = end;
            proof {
                prefix = bytes@.subrange(0, end as int);
                assert(utf8(Seq::<char>::empty()) =~= Seq::<u8>::empty());
                assert(utf8(out@) =~= prefix);
            }
        },
        None => {},
    }
    let start = i;
    proof {
        assert(bytes@.subrange(start as int, start as int) =~= Seq::<u8>::empty());
        assert(prefix + Seq::<u8>::empty() =~= prefix);
    }
    while i < size
        invariant
            bytes@ == buffer.spec_bytes(),
            valid_utf8(bytes@),
            size == bytes@.len(),
            start <= i <= size,
            utf8(out@) == prefix + escape_href_bytes(bytes@.subrange(start as int, i as int)),
        decreases size - i,
    {
        let org = i;
        i = href_safe_run(bytes, org);
        proof {
            lemma_escape_href_safe_run(bytes@, start as int, org as int, i as int);
        }
        if i > org {
            proof {
                assert(bytes@[org as int] < 0x80);
                assert(bytes@[i - 1] < 0x80);
                lemma_ascii_boundary(bytes@, org as int);
                lemma_ascii_boundary(bytes@, i as int);
            }
            push_str(&mut out, substr(buffer, org, i));
        }
        proof {
            assert(utf8(out@) =~= prefix + escape_href_bytes(
                bytes@.subrange(start as int, i as int),
            ));
        }
        if i < size {
            let c = bytes[i];
            push_href_escaped(&mut out, c);
            proof {
                assert(bytes@.subrange(start as int, i + 1).drop_last() =~= bytes@.subrange(
                    start as int,
                    i as int,
                ));
                assert(utf8(out@) =~= prefix + escape_href_bytes(
                    bytes@.subrange(start as int, i + 1),
                ));
            }
            i += 1;
        }
    }
    proof {
        if start == 0 {
            assert(prefix =~= Seq::<u8>::empty());
            assert(bytes@.subrange(0, size as int) =~= bytes@);
            assert(prefix + escape_href_bytes(bytes@) =~= escape_href_bytes(bytes@));
        }
    }
    out
}

/// An opening HTML tag with the given attributes, values escaped.
pub open spec fn opening_tag_bytes(tag: Seq<u8>, attrs: Seq<(Seq<u8>, Seq<u8>)>) -> Seq<u8>
    decreases attrs.len(),
{
    if attrs.len() == 0 {
        seq![60u8] + tag + seq![62u8]
    } else {
        let prev = opening_tag_bytes(tag, attrs.drop_last());
        let (k, v) = attrs.last();
        prev.subrange(0, prev.len() - 1) + seq![32u8] + k + seq![61u8, 34u8] + escape_bytes(v)
            + seq![34u8, 62u8]
    }
}

/// The bytes of the attribute list.
pub open spec fn attr_bytes(attrs: Seq<(&str, &str)>) -> Seq<(Seq<u8>, Seq<u8>)> {
    attrs.map_values(|a: (&str, &str)| (a.0.spec_bytes(), a.1.spec_bytes()))
}

/// Writes an opening HTML tag `<tag a="v" ...>`; attribute values are
/// escaped with `escape`.
pub fn write_opening_tag(tag: &str, attributes: &[(&str, &str)]) -> (r: String)
    ensures
        utf8(r@) == opening_tag_bytes(tag.spec_bytes(), attr_bytes(attributes@)),
{
    let mut out = String::new();
    push_ascii(&mut out, '<');
    push_str(&mut out, tag);
    let mut i: usize = 0;
    proof {
        assert(utf8(Seq::<char>::empty()) =~= Seq::<u8>::empty());
        assert(attr_bytes(attributes@).subrange(0, 0) =~= Seq::<(Seq<u8>, Seq<u8>)>::empty());
        assert(utf8(out@) + seq![62u8] =~= opening_tag_bytes(tag.spec_bytes(), Seq::empty()));
    }
    while i < attributes.len()
        invariant
            i <= attributes@.len(),
            utf8(out@) + seq![62u8] == opening_tag_bytes(
                tag.spec_bytes(),
                attr_bytes(attributes@).subrange(0, i as int),
            ),
        decreases attributes@.len() - i,
    {
        let (attr, val) = attributes[i];
        let ghost before = utf8(out@);
        push_ascii(&mut out, ' ');
        push_str(&mut out, attr);
        push_ascii(&mut out, '=');
        push_ascii(&mut out, '"');
        let e = escape(val);
        push_str(&mut out, e.as_str());
        push_ascii(&mut out, '"');
        proof {
            let sub = attr_bytes(attributes@).subrange(0, i + 1);
            assert(sub.drop_last() =~= attr_bytes(attributes@).subrange(0, i as int));
            assert(sub.last() == (attr.spec_bytes(), val.spec_bytes()));
            let prev = opening_tag_bytes(tag.spec_bytes(), sub.drop_last());
            assert(prev.subrange(0, prev.len() - 1) =~= before);
            assert(utf8(out@) + seq![62u8] =~= before + seq![32u8] + attr.spec_bytes() + seq![
                61u8,
                34u8,
            ] + escape_bytes(val.spec_bytes()) + seq![34u8, 62u8]);
        }
        i += 1;
    }
    push_ascii(&mut out, '>');
    proof {
        assert(attr_bytes(attributes@).subrange(0, attributes@.len() as int) =~= attr_bytes(
            attributes@,
        ));
    }
    out
}

/// Whether a URL is one that rendering refuses: see
/// `crate::scanners::dangerous_url_spec`.
pub fn dangerous_url(input: &str) -> (r: bool)
    ensures
        r == dangerous_url_spec(input.spec_bytes()) is Some,
{
    scanners::dangerous_url(input.as_bytes()).is_some()
}

/// The tag name of the tag filter's list that `b` opens with, if any: one
/// of `title`, `textarea`, `style`, `xmp`, `iframe`, `noembed`, `noframes`,
/// `script`, `plaintext`, in any case.
pub open spec fn filtered_name(b: Seq<u8>) -> Option<Seq<u8>> {
    if starts_with_ci(b, utf8("title"@)) {
        Some(utf8("title"@))
    } else if starts_with_ci(b, utf8("textarea"@)) {
        Some(utf8("textarea"@))
    } else if starts_with_ci(b, utf8("style"@)) {
        Some(utf8("style"@))
    } else if starts_with_ci(b, utf8("xmp"@)) {
        Some(utf8("xmp"@))
    } else if starts_with_ci(b, utf8("iframe"@)) {
        Some(utf8("iframe"@))
    } else if starts_with_ci(b, utf8("noembed"@)) {
        Some(utf8("noembed"@))
    } else if starts_with_ci(b, utf8("noframes"@)) {
        Some(utf8("noframes"@))
    } else if starts_with_ci(b, utf8("script"@)) {
        Some(utf8("script"@))
    } else if starts_with_ci(b, utf8("plaintext"@)) {
        Some(utf8("plaintext"@))
    } else {
        None
    }
}

fn filtered_name_exec(b: &[u8]) -> (r: Option<&'static str>)
    ensures
        r matches Some(t) ==> filtered_name(b@) == Some(t.spec_bytes()),
        r is None ==> filtered_name(b@) is None,
{
    if starts_with_ci_exec(b, "title".as_bytes()) {
        Some("title")
    } else if starts_with_ci_exec(b, "textarea".as_bytes()) {
        Some("textarea")
    } else if starts_with_ci_exec(b, "style".as_bytes()) {
        Some("style")
    } else if starts_with_ci_exec(b, "xmp".as_bytes()) {
        Some("xmp")
    } else if starts_with_ci_exec(b, "iframe".as_bytes()) {
        Some("iframe")
    } else if starts_with_ci_exec(b, "noembed".as_bytes()) {
        Some("noembed")
    } else if starts_with_ci_exec(b, "noframes".as_bytes()) {
        Some("noframes")
    } else if starts_with_ci_exec(b, "script".as_bytes()) {
        Some("script")
    } else if starts_with_ci_exec(b, "plaintext".as_bytes()) {
        Some("plaintext")
    } else {
        None
    }
}

/// Where the tag name of a tag at the start of `b` begins: after `<` or
/// `</`.
pub open spec fn tag_name_start(b: Seq<u8>) -> int {
    if b[1] == 47 {
        2
    } else {
        1
    }
}

/// Whether the tag filter can judge `b`: a name of its list at the start of
/// a tag is followed by at least one byte.
pub open spec fn tagfilter_defined(b: Seq<u8>) -> bool {
    b.len() >= 3 && b[0] == 60 ==> match filtered_name(
        b.subrange(tag_name_start(b), b.len() as int),
    ) {
        Some(t) => tag_name_start(b) + t.len() < b.len(),
        None => true,
    }
}

/// Whether `b` opens with a tag that the GitHub tag filter disallows: `<`
/// or `</`, a name of its list, then whitespace, `>` or `/>`.
pub open spec fn tagfilter_spec(b: Seq<u8>) -> bool {
    if b.len() < 3 || b[0] != 60 {
        false
    } else {
        let i = tag_name_start(b);
        match filtered_name(b.subrange(i, b.len() as int)) {
            Some(t) => {
                let j = i + t.len();
                is_space_byte(b[j]) || b[j] == 62 || (b[j] == 47 && b.len() >= j + 2 && b[j + 1]
                    == 62)
            },
            None => false,
        }
    }
}

pub fn tagfilter(b: &[u8]) -> (r: bool)
    requires
        tagfilter_defined(b@),
    ensures
        r == tagfilter_spec(b@),
{
    let len = b.len();
    if len < 3 || b[0] != 60 {
        return false;
    }
    let i: usize = if b[1] == 47 {
        2
    } else {
        1
    };
    match filtered_name_exec(slice_subrange(b, i, len)) {
        Some(t) => {
            let j = i + t.as_bytes().len();
            crate::ctype::isspace(b[j]) || b[j] == 62 || (b[j] == 47 && j + 1 < len && b[j + 1]
                == 62)
        },
        None => false,
    }
}

/// How `tagfilter_block` writes the byte at `k` of `b`.
pub open spec fn tagfilter_piece(b: Seq<u8>, k: int) -> Seq<u8> {
    if b[k] == 60 {
        if tagfilter_spec(b.subrange(k, b.len() as int)) {
            utf8("&lt;"@)
        } else {
            seq![60u8]
        }
    } else {
        seq![b[k]]
    }
}

/// The first `n` bytes of `b` as `tagfilter_block` writes them.
pub open spec fn tagfilter_bytes(b: Seq<u8>, n: int) -> Seq<u8>
    decreases n,
{
    if n <= 0 {
        seq![]
    } else {
        tagfilter_bytes(b, n - 1) + tagfilter_piece(b, n - 1)
    }
}

/// Whether the tag filter can judge every tag in `b`.
pub open spec fn tagfilter_block_defined(b: Seq<u8>) -> bool {
    forall|k: int| 0 <= k < b.len() && b[k] == 60 ==> tagfilter_defined(#[trigger] b.subrange(k, b.len() as int))
}

/// Applies the GitHub tag filter to raw HTML: the `<` of every disallowed
/// tag (see `tagfilter_spec`) becomes `&lt;`, and all else is kept.
pub fn tagfilter_block(buffer: &str) -> (r: String)
    requires
        tagfilter_block_defined(buffer.spec_bytes()),
    ensures
        utf8(r@) == tagfilter_bytes(buffer.spec_bytes(), buffer.spec_bytes().len() as int),
{
    let bytes = buffer.as_bytes();
    let len = bytes.len();
    let mut out = String::new();
    let mut offset: usize = 0;
    let mut i: usize = 0;
    proof {
        lemma_str_valid(buffer);
        assert(utf8(out@) =~= Seq::<u8>::empty());
        assert(bytes@.subrange(0, 0) =~= Seq::<u8>::empty());
    }
    while i < len
        invariant
            bytes@ == buffer.spec_bytes(),
            valid_utf8(bytes@),
            len == bytes@.len(),
            tagfilter_block_defined(bytes@),
            offset <= i <= len,
            offset == 0 || bytes@[offset - 1] == 60,
            utf8(out@) + bytes@.subrange(offset as int, i as int) == tagfilter_bytes(bytes@, i as int),
        decreases len - i,
    {
        if bytes[i] == 60 {
            proof {
                lemma_ascii_boundary(bytes@, offset as int);
                lemma_ascii_boundary(bytes@, i as int);
            }
            push_str(&mut out, substr(buffer, offset, i));
            let rest = slice_subrange(bytes, i, len);
            proof {
                assert(tagfilter_defined(bytes@.subrange(i as int, len as int)));
            }
            if tagfilter(rest) {
                push_str(&mut out, "&lt;");
            } else {
                push_ascii(&mut out, '<');
            }
            offset = i + 1;
            proof {
                assert(bytes@.subrange(offset as int, i + 1) =~= Seq::<u8>::empty());
                assert(utf8(out@) + Seq::<u8>::empty() =~= utf8(out@));
            }
        } else {
            proof {
                assert(bytes@.subrange(offset as int, i + 1) =~= bytes@.subrange(
                    offset as int,
                    i as int,
                ) + seq![bytes@[i as int]]);
            }
        }
        i += 1;
    }
    proof {
        lemma_ascii_boundary(bytes@, offset as int);
        lemma_ascii_boundary(bytes@, len as int);
    }
    push_str(&mut out, substr(buffer, offset, len));
    out
}

} // verus!
