//! String helpers: trimming, blank-line handling, newline counting, label and
//! code-span normalisation, URL and title cleaning, front matter.

use std::borrow::Cow;
use vstd::prelude::*;
use vstd::slice::slice_subrange;
use vstd::string::*;
use vstd::utf8::*;

use crate::ctype::{is_punct_byte, is_space_byte, ispunct, isspace};
use crate::entity::{unescape_html, unescape_html_bytes};
use crate::parser::AutolinkType;
use crate::text::{
    lemma_ascii_boundary, lemma_str_valid, push_ascii, push_char, push_str, split_off_string, str_chars,
    substr, truncate_string, utf8,
};

verus! {

broadcast use vstd::utf8::group_utf8_lib;

/// Whether a label is normalised with or without case folding.
#[derive(PartialEq, Eq, Structural, Clone, Copy, Debug)]
pub enum Case {
    /// Keep the case of the label.
    Preserve,
    /// Case-fold the label.
    Fold,
}

/// The number of leading bytes of `b` that satisfy `p`.
pub open spec fn lead(b: Seq<u8>, p: spec_fn(u8) -> bool) -> nat
    decreases b.len(),
{
    if b.len() > 0 && p(b[0]) {
        1 + lead(b.drop_first(), p)
    } else {
        0
    }
}

/// The number of trailing bytes of `b` that satisfy `p`.
pub open spec fn trail(b: Seq<u8>, p: spec_fn(u8) -> bool) -> nat
    decreases b.len(),
{
    if b.len() > 0 && p(b.last()) {
        1 + trail(b.drop_last(), p)
    } else {
        0
    }
}

/// `lead` is the length of the longest prefix satisfying `p`.
pub proof fn lemma_lead(b: Seq<u8>, p: spec_fn(u8) -> bool, k: int)
    requires
        0 <= k <= b.len(),
        forall|i: int| 0 <= i < k ==> p(#[trigger] b[i]),
        k == b.len() || !p(b[k]),
    ensures
        lead(b, p) == k,
    decreases k,
{
    if k > 0 {
        assert(p(b[0]));
        let t = b.drop_first();
        assert forall|i: int| 0 <= i < k - 1 implies p(#[trigger] t[i]) by {
            assert(t[i] == b[i + 1]);
        }
        if k < b.len() {
            assert(t[k - 1] == b[k]);
        }
        lemma_lead(t, p, k - 1);
    }
}

/// `trail` is the length of the longest suffix satisfying `p`.
pub proof fn lemma_trail(b: Seq<u8>, p: spec_fn(u8) -> bool, k: int)
    requires
        0 <= k <= b.len(),
        forall|i: int| k <= i < b.len() ==> p(#[trigger] b[i]),
        k == 0 || !p(b[k - 1]),
    ensures
        trail(b, p) == b.len() - k,
    decreases b.len() - k,
{
    if k < b.len() {
        assert(p(b.last()));
        let t = b.drop_last();
        assert forall|i: int| k <= i < t.len() implies p(#[trigger] t[i]) by {
            assert(t[i] == b[i]);
        }
        if k > 0 {
            assert(t[k - 1] == b[k - 1]);
        }
        lemma_trail(t, p, k);
    }
}

/// CommonMark whitespace, as a predicate.
pub open spec fn space_pred() -> spec_fn(u8) -> bool {
    |c: u8| is_space_byte(c)
}

/// The number of leading whitespace bytes.
pub open spec fn ltrim_len(b: Seq<u8>) -> nat {
    lead(b, space_pred())
}

/// The number of trailing whitespace bytes.
pub open spec fn rtrim_len(b: Seq<u8>) -> nat {
    trail(b, space_pred())
}

/// `b` without its leading whitespace.
pub open spec fn ltrim_bytes(b: Seq<u8>) -> Seq<u8> {
    b.subrange(ltrim_len(b) as int, b.len() as int)
}

/// `b` without its trailing whitespace.
pub open spec fn rtrim_bytes(b: Seq<u8>) -> Seq<u8> {
    b.subrange(0, b.len() - rtrim_len(b))
}

/// `b` without leading or trailing whitespace.
pub open spec fn trim_bytes(b: Seq<u8>) -> Seq<u8> {
    rtrim_bytes(ltrim_bytes(b))
}

/// `lead` never exceeds the length.
pub proof fn lemma_lead_le_pub(b: Seq<u8>, p: spec_fn(u8) -> bool)
    ensures
        lead(b, p) <= b.len(),
{
    lemma_lead_le(b, p);
}

/// The bytes `lead` counts satisfy `p`, and the byte after them does not.
pub proof fn lemma_lead_facts(b: Seq<u8>, p: spec_fn(u8) -> bool)
    ensures
        lead(b, p) <= b.len(),
        forall|i: int| 0 <= i < lead(b, p) ==> p(#[trigger] b[i]),
        lead(b, p) < b.len() ==> !p(b[lead(b, p) as int]),
    decreases b.len(),
{
    if b.len() > 0 && p(b[0]) {
        let t = b.drop_first();
        lemma_lead_facts(t, p);
        assert forall|i: int| 0 <= i < lead(b, p) implies p(#[trigger] b[i]) by {
            if i > 0 {
                assert(b[i] == t[i - 1]);
            }
        }
        if lead(b, p) < b.len() {
            assert(b[lead(b, p) as int] == t[lead(t, p) as int]);
        }
    }
}

proof fn lemma_lead_le(b: Seq<u8>, p: spec_fn(u8) -> bool)
    ensures
        lead(b, p) <= b.len(),
    decreases b.len(),
{
    if b.len() > 0 && p(b[0]) {
        lemma_lead_le(b.drop_first(), p);
    }
}

proof fn lemma_trail_le(b: Seq<u8>, p: spec_fn(u8) -> bool)
    ensures
        trail(b, p) <= b.len(),
    decreases b.len(),
{
    if b.len() > 0 && p(b.last()) {
        lemma_trail_le(b.drop_last(), p);
    }
}

/// Line feed or carriage return.
pub open spec fn is_line_end_byte(ch: u8) -> bool {
    ch == 10 || ch == 13
}

/// Space or tab.
pub open spec fn is_space_or_tab_byte(ch: u8) -> bool {
    ch == 9 || ch == 32
}

/// Whether `ch` ends a line.
pub fn is_line_end_char(ch: u8) -> (r: bool)
    ensures
        r == is_line_end_byte(ch),
{
    ch == 10 || ch == 13
}

/// Whether `ch` is a space or a tab.
pub fn is_space_or_tab(ch: u8) -> (r: bool)
    ensures
        r == is_space_or_tab_byte(ch),
{
    ch == 9 || ch == 32
}

/// The number of leading whitespace bytes of `line`.
pub fn ltrim_count(line: &str) -> (r: usize)
    ensures
        r == ltrim_len(line.spec_bytes()),
{
    let b = line.as_bytes();
    let mut i: usize = 0;
    while i < b.len() && isspace(b[i])
        invariant
            i <= b@.len(),
            forall|j: int| 0 <= j < i ==> is_space_byte(#[trigger] b@[j]),
        decreases b@.len() - i,
    {
        i += 1;
    }
    proof {
        lemma_lead(b@, space_pred(), i as int);
    }
    i
}

/// The number of trailing whitespace bytes of `line`.
fn rtrim_count(line: &str) -> (r: usize)
    ensures
        r == rtrim_len(line.spec_bytes()),
{
    let b = line.as_bytes();
    let mut i: usize = b.len();
    while i > 0 && isspace(b[i - 1])
        invariant
            i <= b@.len(),
            forall|j: int| i <= j < b@.len() ==> is_space_byte(#[trigger] b@[j]),
        decreases i,
    {
        i -= 1;
    }
    proof {
        lemma_trail(b@, space_pred(), i as int);
    }
    b.len() - i
}

/// `line` without its leading whitespace.
pub fn ltrim_slice(line: &str) -> (r: &str)
    ensures
        r.spec_bytes() == ltrim_bytes(line.spec_bytes()),
{
    let k = ltrim_count(line);
    let n = line.as_bytes().len();
    proof {
        let b = line.spec_bytes();
        lemma_lead_le(b, space_pred());
        lemma_str_valid(line);
        if 0 < k < n {
            lemma_lead_prefix(b, space_pred(), k as int - 1);
        }
        lemma_ascii_boundary(b, k as int);
        lemma_ascii_boundary(b, n as int);
    }
    substr(line, k, n)
}

/// Every byte before `lead` satisfies `p`.
proof fn lemma_lead_prefix(b: Seq<u8>, p: spec_fn(u8) -> bool, i: int)
    requires
        0 <= i < lead(b, p),
    ensures
        p(b[i]),
    decreases b.len(),
{
    lemma_lead_le(b, p);
    assert(b.len() > 0 && p(b[0]));
    if i > 0 {
        assert(b.drop_first()[i - 1] == b[i]);
        lemma_lead_prefix(b.drop_first(), p, i - 1);
    }
}

/// Every byte after the last `trail` bytes satisfies `p`.
proof fn lemma_trail_suffix(b: Seq<u8>, p: spec_fn(u8) -> bool, i: int)
    requires
        b.len() - trail(b, p) <= i < b.len(),
    ensures
        p(b[i]),
    decreases b.len(),
{
    lemma_trail_le(b, p);
    assert(b.len() > 0 && p(b.last()));
    if i < b.len() - 1 {
        assert(b.drop_last()[i] == b[i]);
        lemma_trail_suffix(b.drop_last(), p, i);
    }
}

/// `line` without its trailing whitespace.
pub fn rtrim_slice(line: &str) -> (r: &str)
    ensures
        r.spec_bytes() == rtrim_bytes(line.spec_bytes()),
{
    let k = rtrim_count(line);
    let n = line.as_bytes().len();
    proof {
        let b = line.spec_bytes();
        lemma_trail_le(b, space_pred());
        lemma_str_valid(line);
        if 0 < k {
            lemma_trail_suffix(b, space_pred(), n - k);
        }
        lemma_ascii_boundary(b, 0);
        lemma_ascii_boundary(b, n - k);
    }
    substr(line, 0, n - k)
}

/// `line` without leading or trailing whitespace.
pub fn trim_slice(line: &str) -> (r: &str)
    ensures
        r.spec_bytes() == trim_bytes(line.spec_bytes()),
{
    rtrim_slice(ltrim_slice(line))
}

/// Removes the first `n` bytes of `s`; `n` must fall on a character boundary.
pub fn remove_from_start(s: &mut String, n: usize)
    requires
        n <= utf8(old(s)@).len(),
        is_char_boundary(utf8(old(s)@), n as int),
    ensures
        utf8(final(s)@) == utf8(old(s)@).subrange(n as int, utf8(old(s)@).len() as int),
{
    if n == 0 {
        proof {
            assert(utf8(s@).subrange(0, utf8(s@).len() as int) =~= utf8(s@));
        }
        return;
    }
    let rest = split_off_string(s, n);
    *s = rest;
}

/// Removes trailing whitespace from `line`; returns how many bytes went.
pub fn rtrim(line: &mut String) -> (r: usize)
    ensures
        r == rtrim_len(utf8(old(line)@)),
        utf8(final(line)@) == rtrim_bytes(utf8(old(line)@)),
{
    let k = rtrim_count(line.as_str());
    let n = line.as_str().as_bytes().len();
    proof {
        let b = utf8(line@);
        lemma_trail_le(b, space_pred());
        encode_utf8_valid_utf8(line@);
        if 0 < k {
            lemma_trail_suffix(b, space_pred(), n - k);
        }
        lemma_ascii_boundary(b, n - k);
    }
    truncate_string(line, n - k);
    k
}

/// Removes leading whitespace from `line`; returns how many bytes went.
pub fn ltrim(line: &mut String) -> (r: usize)
    ensures
        r == ltrim_len(utf8(old(line)@)),
        utf8(final(line)@) == ltrim_bytes(utf8(old(line)@)),
{
    let k = ltrim_count(line.as_str());
    proof {
        let b = utf8(line@);
        lemma_lead_le(b, space_pred());
        encode_utf8_valid_utf8(line@);
        if 0 < k && k < b.len() {
            lemma_lead_prefix(b, space_pred(), k - 1);
        }
        lemma_ascii_boundary(b, k as int);
    }
    remove_from_start(line, k);
    k
}

/// Removes leading and trailing whitespace from `line`.
pub fn trim(line: &mut String)
    ensures
        utf8(final(line)@) == trim_bytes(utf8(old(line)@)),
{
    ltrim(line);
    rtrim(line);
}

/// Removes trailing whitespace from a borrowed or owned string; a borrowed
/// string is cut down in place, not copied.
pub fn rtrim_cow(s: &mut Cow<str>)
    ensures
        utf8(final(s)@) == rtrim_bytes(utf8(old(s)@)),
        *old(s) is Borrowed ==> *final(s) is Borrowed,
        *old(s) is Owned ==> *final(s) is Owned,
{
    match s {
        Cow::Borrowed(st) => {
            let t: &str = *st;
            *s = Cow::Borrowed(rtrim_slice(t));
        },
        Cow::Owned(string) => {
            rtrim(string);
        },
    }
}

/// Removes leading and trailing whitespace from a borrowed or owned
/// string; a borrowed string is cut down in place, not copied.
pub fn trim_cow(s: &mut Cow<str>)
    ensures
        utf8(final(s)@) == trim_bytes(utf8(old(s)@)),
        *old(s) is Borrowed ==> *final(s) is Borrowed,
        *old(s) is Owned ==> *final(s) is Owned,
{
    match s {
        Cow::Borrowed(st) => {
            let t: &str = *st;
            *s = Cow::Borrowed(trim_slice(t));
        },
        Cow::Owned(string) => {
            trim(string);
        },
    }
}


/// Space or tab, as a predicate.
pub open spec fn space_or_tab_pred() -> spec_fn(u8) -> bool {
    |c: u8| is_space_or_tab_byte(c)
}

/// Space, tab, line feed or carriage return, as a predicate.
pub open spec fn blank_pred() -> spec_fn(u8) -> bool {
    |c: u8| is_space_or_tab_byte(c) || is_line_end_byte(c)
}

/// Any byte that does not end a line, as a predicate.
pub open spec fn not_line_end_pred() -> spec_fn(u8) -> bool {
    |c: u8| !is_line_end_byte(c)
}

/// A line is blank when only spaces and tabs come before its end.
pub open spec fn is_blank_bytes(b: Seq<u8>) -> bool {
    let k = lead(b, space_or_tab_pred());
    k == b.len() || is_line_end_byte(b[k as int])
}

/// Whether `s` is blank up to its first line end.
pub fn is_blank(s: &str) -> (r: bool)
    ensures
        r == is_blank_bytes(s.spec_bytes()),
{
    let b = s.as_bytes();
    let mut i: usize = 0;
    while i < b.len()
        invariant
            b@ == s.spec_bytes(),
            i <= b@.len(),
            forall|j: int| 0 <= j < i ==> is_space_or_tab_byte(#[trigger] b@[j]),
        decreases b@.len() - i,
    {
        let c = b[i];
        if c == 10 || c == 13 {
            proof {
                lemma_lead(b@, space_or_tab_pred(), i as int);
            }
            return true;
        } else if c == 32 || c == 9 {
        } else {
            proof {
                lemma_lead(b@, space_or_tab_pred(), i as int);
            }
            return false;
        }
        i += 1;
    }
    proof {
        lemma_lead(b@, space_or_tab_pred(), i as int);
    }
    true
}

/// Whether the byte at `i` ends a line: a line feed, or a carriage return
/// not followed by a line feed.
pub open spec fn ends_line_at(b: Seq<u8>, i: int) -> bool {
    b[i] == 10 || (b[i] == 13 && !(i + 1 < b.len() && b[i + 1] == 10))
}

/// The number of line endings among the first `n` bytes, a CR LF pair
/// counting once.
pub open spec fn line_endings(b: Seq<u8>, n: int) -> nat
    decreases n,
{
    if n <= 0 {
        0
    } else {
        line_endings(b, n - 1) + if ends_line_at(b, n - 1) { 1nat } else { 0nat }
    }
}

/// Where the last line starts among the first `n` bytes: just after the last
/// line feed or carriage return, or 0.
pub open spec fn last_line_start(b: Seq<u8>, n: int) -> int
    decreases n,
{
    if n <= 0 {
        0
    } else if is_line_end_byte(b[n - 1]) {
        n
    } else {
        last_line_start(b, n - 1)
    }
}

/// The last line starts between the start and `n`.
pub proof fn lemma_last_line_start_le(b: Seq<u8>, n: int)
    ensures
        0 <= last_line_start(b, n) <= if n < 0 { 0 } else { n },
    decreases n,
{
    if n > 0 {
        lemma_last_line_start_le(b, n - 1);
    }
}

/// Counts the line endings of `input` and the length of its last line.
pub fn count_newlines(input: &str) -> (r: (usize, usize))
    ensures
        r.0 == line_endings(input.spec_bytes(), input.spec_bytes().len() as int),
        r.1 == input.spec_bytes().len() - last_line_start(
            input.spec_bytes(),
            input.spec_bytes().len() as int,
        ),
{
    let bytes = input.as_bytes();
    let len = bytes.len();
    let mut num_lines: usize = 0;
    let mut last: usize = 0;
    let mut i: usize = 0;
    while i < len
        invariant
            len == bytes@.len(),
            i <= len,
            num_lines == line_endings(bytes@, i as int),
            last == last_line_start(bytes@, i as int),
            num_lines <= i,
            i > 0 ==> !(bytes@[i - 1] == 13 && i < len && bytes@[i as int] == 10),
        decreases len - i,
    {
        let c = bytes[i];
        if c == 13 && i + 1 < len && bytes[i + 1] == 10 {
            i += 1;
            num_lines += 1;
            last = i + 1;
            proof {
                assert(!ends_line_at(bytes@, i - 1));
                assert(ends_line_at(bytes@, i as int));
                assert(line_endings(bytes@, i as int) == line_endings(bytes@, i - 1));
            }
        } else if c == 13 || c == 10 {
            num_lines += 1;
            last = i + 1;
        }
        i += 1;
    }
    proof {
        lemma_last_line_start_le(bytes@, len as int);
    }
    (num_lines, len - last)
}

/// The number of bytes of the line ending that closes `s`: 2 for CR LF, 1 for
/// a lone CR or LF, otherwise 0.
pub open spec fn newlines_of_bytes(b: Seq<u8>) -> nat {
    if b.len() >= 2 && b[b.len() - 2] == 13 && b[b.len() - 1] == 10 {
        2
    } else if b.len() >= 1 && (b[b.len() - 1] == 13 || b[b.len() - 1] == 10) {
        1
    } else {
        0
    }
}

/// The length of the line ending that closes `s`.
pub fn newlines_of(s: &str) -> (r: usize)
    ensures
        r == newlines_of_bytes(s.spec_bytes()),
{
    let b = s.as_bytes();
    let n = b.len();
    if n >= 2 && b[n - 2] == 13 && b[n - 1] == 10 {
        2
    } else if n >= 1 && (b[n - 1] == 13 || b[n - 1] == 10) {
        1
    } else {
        0
    }
}

/// Where trailing blank lines begin: after the last byte that is not blank,
/// at the first line end that follows it (or at the end of the text); 0 when
/// the whole text is blank.
pub open spec fn trailing_blank_lines_start(b: Seq<u8>) -> int {
    let t = trail(b, blank_pred());
    if t == b.len() {
        0
    } else {
        let i = b.len() - 1 - t;
        i + lead(b.subrange(i, b.len() as int), not_line_end_pred())
    }
}

proof fn lemma_trailing_blank_lines_start(b: Seq<u8>)
    ensures
        0 <= trailing_blank_lines_start(b) <= b.len(),
        trailing_blank_lines_start(b) == 0 || trailing_blank_lines_start(b) == b.len()
            || is_line_end_byte(b[trailing_blank_lines_start(b)]),
{
    lemma_trail_le(b, blank_pred());
    let t = trail(b, blank_pred());
    if t < b.len() {
        let i = b.len() - 1 - t;
        let rest = b.subrange(i, b.len() as int);
        lemma_lead_le(rest, not_line_end_pred());
        let k = lead(rest, not_line_end_pred());
        if i + k < b.len() {
            lemma_lead_stop(rest, not_line_end_pred());
            assert(rest[k as int] == b[i + k]);
        }
    }
}

/// The byte just past `lead` does not satisfy the predicate.
proof fn lemma_lead_stop(b: Seq<u8>, p: spec_fn(u8) -> bool)
    ensures
        lead(b, p) < b.len() ==> !p(b[lead(b, p) as int]),
    decreases b.len(),
{
    if b.len() > 0 && p(b[0]) {
        lemma_lead_stop(b.drop_first(), p);
        if lead(b, p) < b.len() {
            assert(b.drop_first()[lead(b.drop_first(), p) as int] == b[lead(b, p) as int]);
        }
    }
}

/// The byte just before the last `trail` bytes does not satisfy the predicate.
proof fn lemma_trail_stop(b: Seq<u8>, p: spec_fn(u8) -> bool)
    ensures
        trail(b, p) < b.len() ==> !p(b[b.len() - 1 - trail(b, p)]),
    decreases b.len(),
{
    if b.len() > 0 && p(b.last()) {
        lemma_trail_stop(b.drop_last(), p);
        if trail(b, p) < b.len() {
            assert(b.drop_last()[b.len() - 1 - trail(b, p)] == b[b.len() - 1 - trail(b, p)]);
        }
    }
}

fn remove_trailing_blank_lines_ix(line: &str) -> (r: usize)
    requires
        line.spec_bytes().len() > 0,
    ensures
        r == trailing_blank_lines_start(line.spec_bytes()),
{
    let b = line.as_bytes();
    let len = b.len();
    let mut i: usize = len - 1;
    loop
        invariant
            b@ == line.spec_bytes(),
            len == b@.len(),
            i < len,
            forall|j: int| i < j < len ==> (#[trigger] blank_pred()(b@[j])),
        ensures
            i < len,
            !blank_pred()(b@[i as int]),
            forall|j: int| i < j < len ==> (#[trigger] blank_pred()(b@[j])),
        decreases i,
    {
        let c = b[i];
        if c != 32 && c != 9 && !is_line_end_char(c) {
            break;
        }
        if i == 0 {
            proof {
                lemma_trail(b@, blank_pred(), 0);
            }
            return 0;
        }
        i -= 1;
    }
    proof {
        lemma_trail(b@, blank_pred(), i + 1);
    }
    let mut j: usize = i;
    while j < len && !is_line_end_char(b[j])
        invariant
            len == b@.len(),
            i <= j <= len,
            forall|k: int| i <= k < j ==> !is_line_end_byte(#[trigger] b@[k]),
        decreases len - j,
    {
        j += 1;
    }
    proof {
        let rest = b@.subrange(i as int, len as int);
        assert forall|k: int| 0 <= k < j - i implies (#[trigger] not_line_end_pred()(rest[k])) by {
            assert(rest[k] == b@[i + k]);
        }
        if j < len {
            assert(rest[j - i] == b@[j as int]);
        }
        lemma_lead(rest, not_line_end_pred(), j - i);
    }
    j
}

/// Removes blank lines at the end of `line`, keeping the line end after its
/// last content.
pub fn remove_trailing_blank_lines(line: &mut String)
    requires
        utf8(old(line)@).len() > 0,
    ensures
        utf8(final(line)@) == utf8(old(line)@).subrange(
            0,
            trailing_blank_lines_start(utf8(old(line)@)),
        ),
{
    let ix = remove_trailing_blank_lines_ix(line.as_str());
    proof {
        let b = utf8(line@);
        encode_utf8_valid_utf8(line@);
        lemma_trailing_blank_lines_start(b);
        lemma_ascii_boundary(b, ix as int);
    }
    truncate_string(line, ix);
}

/// `line` without its trailing blank lines.
pub fn remove_trailing_blank_lines_slice(line: &str) -> (r: &str)
    requires
        line.spec_bytes().len() > 0,
    ensures
        r.spec_bytes() == line.spec_bytes().subrange(
            0,
            trailing_blank_lines_start(line.spec_bytes()),
        ),
{
    let ix = remove_trailing_blank_lines_ix(line);
    proof {
        let b = line.spec_bytes();
        lemma_str_valid(line);
        lemma_trailing_blank_lines_start(b);
        lemma_ascii_boundary(b, 0);
        lemma_ascii_boundary(b, ix as int);
    }
    substr(line, 0, ix)
}

/// The `#` byte, as a predicate.
pub open spec fn hash_pred() -> spec_fn(u8) -> bool {
    |c: u8| c == 35
}

/// An ATX heading line with any closing `#` sequence removed, and whether one
/// was removed: the closing sequence must be preceded by a space or tab.
pub open spec fn chop_trailing_hashes_spec(b: Seq<u8>) -> (Seq<u8>, bool) {
    let t = rtrim_bytes(b);
    let h = trail(t, hash_pred());
    if h == t.len() {
        (t, false)
    } else if h > 0 && is_space_or_tab_byte(t[t.len() - 1 - h]) {
        (rtrim_bytes(t.subrange(0, t.len() - 1 - h)), true)
    } else {
        (t, false)
    }
}

/// Chop any trailing sequence of `#` characters from an ATX heading line.
///
/// Returns the possibly-chopped line and a boolean indicating whether
/// trailing hashes were removed (i.e. the heading had a closing sequence).
pub fn chop_trailing_hashes(line: &str) -> (r: (&str, bool))
    requires
        rtrim_bytes(line.spec_bytes()).len() > 0,
    ensures
        (r.0.spec_bytes(), r.1) == chop_trailing_hashes_spec(line.spec_bytes()),
{
    let t = rtrim_slice(line);
    let bytes = t.as_bytes();
    let orig_n = bytes.len() - 1;
    let mut n = orig_n;
    while bytes[n] == 35
        invariant
            bytes@ == rtrim_bytes(line.spec_bytes()),
            bytes@ == t.spec_bytes(),
            orig_n + 1 == bytes@.len(),
            n <= orig_n,
            forall|j: int| n < j < bytes@.len() ==> (#[trigger] hash_pred()(bytes@[j])),
        decreases n,
    {
        if n == 0 {
            proof {
                lemma_trail(bytes@, hash_pred(), 0);
            }
            return (t, false);
        }
        n -= 1;
    }
    proof {
        lemma_trail(bytes@, hash_pred(), n + 1);
    }
    if n != orig_n && is_space_or_tab(bytes[n]) {
        proof {
            lemma_str_valid(t);
            lemma_ascii_boundary(bytes@, 0);
            lemma_ascii_boundary(bytes@, n as int);
        }
        (rtrim_slice(substr(t, 0, n)), true)
    } else {
        (t, false)
    }
}

/// Where a valid text starts with a valid text, the end of that start is
/// a character boundary.
proof fn lemma_prefix_boundary(b: Seq<u8>, k: int)
    requires
        valid_utf8(b),
        0 <= k <= b.len(),
        valid_utf8(b.subrange(0, k)),
    ensures
        is_char_boundary(b, k),
{
    is_char_boundary_start_end_of_seq(b);
    if 0 < k < b.len() {
        let rest = b.subrange(k, b.len() as int);
        if !valid_utf8(rest) {
            partial_valid_partial_invalid_utf8(b, k);
        }
        assert(valid_first_scalar(rest));
        assert(rest[0] == b[k]);
        assert(!is_continuation_byte(b[k]));
        is_char_boundary_iff_not_is_continuation_byte(b, k);
    }
}

/// `s` without `pat` when `s` starts with it (`str::strip_prefix`).
fn strip_prefix<'s>(s: &'s str, pat: &str) -> (r: Option<&'s str>)
    ensures
        r is Some <==> starts_with_bytes(s.spec_bytes(), pat.spec_bytes()),
        r matches Some(t) ==> t.spec_bytes() == trim_start_match_bytes(s.spec_bytes(), pat.spec_bytes()),
{
    let sb = s.as_bytes();
    let pb = pat.as_bytes();
    let n = pb.len();
    if n > sb.len() {
        return None;
    }
    let mut i: usize = 0;
    while i < n
        invariant
            n == pb@.len(),
            n <= sb@.len(),
            i <= n,
            sb@ == s.spec_bytes(),
            pb@ == pat.spec_bytes(),
            forall|j: int| 0 <= j < i ==> sb@[j] == pb@[j],
        decreases n - i,
    {
        if sb[i] != pb[i] {
            proof {
                assert(sb@.subrange(0, n as int)[i as int] != pb@[i as int]);
            }
            return None;
        }
        i = i + 1;
    }
    proof {
        assert(sb@.subrange(0, n as int) =~= pb@);
        lemma_str_valid(s);
        lemma_str_valid(pat);
        lemma_prefix_boundary(sb@, n as int);
        is_char_boundary_start_end_of_seq(sb@);
    }
    Some(substr(s, n, sb.len()))
}

/// Whether `p` is a prefix of `b`.
pub open spec fn starts_with_bytes(b: Seq<u8>, p: Seq<u8>) -> bool {
    p.len() <= b.len() && b.subrange(0, p.len() as int) == p
}

/// `s` without the prefix `pat`, when it has that prefix.
pub open spec fn trim_start_match_bytes(b: Seq<u8>, p: Seq<u8>) -> Seq<u8> {
    if starts_with_bytes(b, p) {
        b.subrange(p.len() as int, b.len() as int)
    } else {
        b
    }
}

/// Removes `pat` from the start of `s` if it is there.
pub fn trim_start_match<'s>(s: &'s str, pat: &str) -> (r: &'s str)
    ensures
        r.spec_bytes() == trim_start_match_bytes(s.spec_bytes(), pat.spec_bytes()),
{
    match strip_prefix(s, pat) {
        Some(t) => t,
        None => s,
    }
}


/// Moves the bytes of `buf` from position `n` on to its start; the last `n`
/// bytes keep their values.
pub fn shift_buf_left(buf: &mut [u8], n: usize)
    requires
        n <= old(buf)@.len(),
    ensures
        final(buf)@ == old(buf)@.subrange(n as int, old(buf)@.len() as int) + old(
            buf,
        )@.subrange(old(buf)@.len() - n, old(buf)@.len() as int),
{
    let len = buf.len();
    let keep = len - n;
    let mut i: usize = 0;
    while i < keep
        invariant
            keep + n == len,
            len == buf@.len(),
            len == old(buf)@.len(),
            i <= keep,
            forall|k: int| 0 <= k < i ==> buf@[k] == old(buf)@[k + n],
            forall|k: int| i <= k < len ==> buf@[k] == old(buf)@[k],
        decreases keep - i,
    {
        let b = buf[i + n];
        buf[i] = b;
        i += 1;
    }
    proof {
        assert(buf@ =~= old(buf)@.subrange(n as int, len as int) + old(buf)@.subrange(
            len - n,
            len as int,
        ));
    }
}

/// Backslash escapes resolved: a backslash before ASCII punctuation is
/// dropped and the punctuation kept; an escaped backslash is not itself an
/// escape.
pub open spec fn unescape_bytes(b: Seq<u8>) -> Seq<u8>
    decreases b.len(),
{
    if b.len() == 0 {
        seq![]
    } else if b[0] == 92 && b.len() > 1 && is_punct_byte(b[1]) {
        seq![b[1]] + unescape_bytes(b.subrange(2, b.len() as int))
    } else {
        seq![b[0]] + unescape_bytes(b.drop_first())
    }
}

/// Resolves backslash escapes in `s` in place.
pub fn unescape(s: &mut String)
    ensures
        utf8(final(s)@) == unescape_bytes(utf8(old(s)@)),
{
    let mut out = String::new();
    {
        let src = s.as_str();
        let b = src.as_bytes();
        let len = b.len();
        let mut start: usize = 0;
        let mut i: usize = 0;
        proof {
            lemma_str_valid(src);
            assert(b@.subrange(0, len as int) =~= b@);
            assert(utf8(out@) =~= Seq::<u8>::empty());
            assert(b@.subrange(0, 0) =~= Seq::<u8>::empty());
        }
        while i < len
            invariant
                b@ == src.spec_bytes(),
                valid_utf8(b@),
                len == b@.len(),
                start <= i <= len,
                start == 0 || b@[start - 1] < 0x80,
                utf8(out@) + b@.subrange(start as int, i as int) + unescape_bytes(
                    b@.subrange(i as int, len as int),
                ) == unescape_bytes(b@),
            decreases len - i,
        {
            let ghost rest = b@.subrange(i as int, len as int);
            if b[i] == 92 && i + 1 < len && ispunct(b[i + 1]) {
                proof {
                    lemma_ascii_boundary(b@, start as int);
                    lemma_ascii_boundary(b@, i as int);
                }
                let piece = substr(src, start, i);
                let ghost before = utf8(out@);
                push_str(&mut out, piece);
                proof {
                    assert(rest.subrange(2, rest.len() as int) =~= b@.subrange(i + 2, len as int));
                    assert(b@.subrange(i + 1, i + 2) =~= seq![b@[i + 1]]);
                    assert(before + b@.subrange(start as int, i as int) + seq![b@[i + 1]]
                        + unescape_bytes(b@.subrange(i + 2, len as int)) =~= before
                        + b@.subrange(start as int, i as int) + unescape_bytes(rest));
                }
                start = i + 1;
                i = i + 2;
            } else {
                proof {
                    assert(rest.drop_first() =~= b@.subrange(i + 1, len as int));
                    assert(b@.subrange(start as int, i + 1) =~= b@.subrange(start as int, i as int)
                        + seq![b@[i as int]]);
                    assert(utf8(out@) + b@.subrange(start as int, i + 1) + unescape_bytes(
                        b@.subrange(i + 1, len as int),
                    ) =~= utf8(out@) + b@.subrange(start as int, i as int) + unescape_bytes(rest));
                }
                i = i + 1;
            }
        }
        proof {
            lemma_ascii_boundary(b@, start as int);
            lemma_ascii_boundary(b@, len as int);
            assert(b@.subrange(len as int, len as int) =~= Seq::<u8>::empty());
            assert(utf8(out@) + b@.subrange(start as int, len as int) + Seq::<u8>::empty()
                =~= utf8(out@) + b@.subrange(start as int, len as int));
        }
        let piece = substr(src, start, len);
        push_str(&mut out, piece);
    }
    *s = out;
}

/// A line end inside a code span: a line feed or a carriage return.
pub open spec fn code_line_end_at(b: Seq<u8>, i: int) -> bool {
    b[i] == 10 || b[i] == 13
}

/// What byte `i` of a code span becomes: a carriage return just before a
/// line feed becomes nothing, any other line end a space, so that every
/// line ending (CR, LF or CRLF) turns into one space.
pub open spec fn code_piece(b: Seq<u8>, i: int) -> Seq<u8> {
    if b[i] == 13 && i + 1 < b.len() && b[i + 1] == 10 {
        Seq::<u8>::empty()
    } else if code_line_end_at(b, i) {
        seq![32u8]
    } else {
        seq![b[i]]
    }
}

/// The first `n` bytes of a code span with its line endings turned into
/// spaces.
pub open spec fn code_prefix(b: Seq<u8>, n: int) -> Seq<u8>
    decreases n,
{
    if n <= 0 {
        Seq::<u8>::empty()
    } else {
        code_prefix(b, n - 1) + code_piece(b, n - 1)
    }
}

/// The bytes of a code span with each line ending turned into a space.
pub open spec fn code_map(b: Seq<u8>) -> Seq<u8> {
    code_prefix(b, b.len() as int)
}

/// Whether a code span holds anything but spaces and line ends.
pub open spec fn has_nonspace(b: Seq<u8>) -> bool {
    exists|i: int| 0 <= i < b.len() && b[i] != 32 && b[i] != 10 && b[i] != 13
}

/// A normalised code span: line endings become spaces, and one space is
/// stripped from each side when both sides have one and the span is not all
/// spaces.
pub open spec fn normalize_code_bytes(b: Seq<u8>) -> Seq<u8> {
    let m = code_map(b);
    if has_nonspace(b) && m[0] == 32 && m[m.len() - 1] == 32 {
        m.subrange(1, m.len() - 1)
    } else {
        m
    }
}

/// A byte that is not a line end keeps its value somewhere in the mapped
/// prefix that covers it.
proof fn lemma_prefix_keeps(b: Seq<u8>, n: int, i: int)
    requires
        0 <= i < n <= b.len(),
        !code_line_end_at(b, i),
    ensures
        exists|p: int| 0 <= p < code_prefix(b, n).len() && #[trigger] code_prefix(b, n)[p] == b[i],
    decreases n,
{
    if i == n - 1 {
        let m = code_prefix(b, n);
        let p = code_prefix(b, n - 1).len() as int;
        assert(m[p] == b[i]);
    } else {
        lemma_prefix_keeps(b, n - 1, i);
        let p = choose|p: int|
            0 <= p < code_prefix(b, n - 1).len() && #[trigger] code_prefix(b, n - 1)[p] == b[i];
        assert(code_prefix(b, n)[p] == b[i]);
    }
}

/// A prefix without line ends maps to itself.
proof fn lemma_prefix_plain(b: Seq<u8>, n: int)
    requires
        0 <= n <= b.len(),
        forall|j: int| 0 <= j < n ==> !code_line_end_at(b, j),
    ensures
        code_prefix(b, n) == b.subrange(0, n),
    decreases n,
{
    if n > 0 {
        lemma_prefix_plain(b, n - 1);
        assert(!code_line_end_at(b, n - 1));
        assert(code_piece(b, n - 1) == seq![b[n - 1]]);
        assert(b.subrange(0, n) =~= b.subrange(0, n - 1) + seq![b[n - 1]]);
    } else {
        assert(b.subrange(0, n) =~= Seq::<u8>::empty());
    }
}

proof fn lemma_nonspace_len(b: Seq<u8>)
    requires
        has_nonspace(b),
        code_map(b).len() > 0,
        code_map(b)[0] == 32,
        code_map(b)[code_map(b).len() - 1] == 32,
    ensures
        code_map(b).len() >= 3,
{
    let i = choose|i: int| 0 <= i < b.len() && b[i] != 32 && b[i] != 10 && b[i] != 13;
    lemma_prefix_keeps(b, b.len() as int, i);
}

/// Normalises the content of an inline code span.
pub fn normalize_code(v: &str) -> (r: Cow<'_, str>)
    ensures
        utf8(r@) == normalize_code_bytes(v.spec_bytes()),
{
    let b = v.as_bytes();
    let len = b.len();
    let mut out = String::new();
    let mut offset: usize = 0;
    let mut i: usize = 0;
    let mut contains_nonspace = false;
    proof {
        lemma_str_valid(v);
        assert(utf8(out@) =~= Seq::<u8>::empty());
    }
    while i < len
        invariant
            b@ == v.spec_bytes(),
            valid_utf8(b@),
            len == b@.len(),
            offset <= i <= len,
            offset == 0 || b@[offset - 1] < 0x80,
            utf8(out@) + b@.subrange(offset as int, i as int) == code_prefix(b@, i as int),
            offset == 0 ==> utf8(out@) == Seq::<u8>::empty(),
            offset == 0 ==> forall|j: int| 0 <= j < i ==> !code_line_end_at(b@, j),
            contains_nonspace <==> exists|j: int|
                0 <= j < i && b@[j] != 32 && b@[j] != 10 && b@[j] != 13,
        decreases len - i,
    {
        let c = b[i];
        let ghost before = utf8(out@);
        if c == 13 && i + 1 < len && b[i + 1] == 10 {
            proof {
                lemma_ascii_boundary(b@, offset as int);
                lemma_ascii_boundary(b@, i as int);
            }
            let piece = substr(v, offset, i);
            push_str(&mut out, piece);
            proof {
                assert(code_prefix(b@, i + 1) =~= code_prefix(b@, i as int));
                assert(utf8(out@) + b@.subrange(i + 1, i + 1) =~= before + b@.subrange(
                    offset as int,
                    i as int,
                ));
            }
            offset = i + 1;
        } else if c == 13 || c == 10 {
            proof {
                lemma_ascii_boundary(b@, offset as int);
                lemma_ascii_boundary(b@, i as int);
            }
            let piece = substr(v, offset, i);
            push_str(&mut out, piece);
            push_ascii(&mut out, ' ');
            proof {
                assert(code_prefix(b@, i + 1) =~= code_prefix(b@, i as int) + seq![32u8]);
                assert(utf8(out@) + b@.subrange(i + 1, i + 1) =~= before + b@.subrange(
                    offset as int,
                    i as int,
                ) + seq![32u8]);
            }
            offset = i + 1;
        } else {
            proof {
                assert(!code_line_end_at(b@, i as int));
                assert(code_prefix(b@, i + 1) =~= code_prefix(b@, i as int) + seq![b@[i as int]]);
                assert(b@.subrange(offset as int, i + 1) =~= b@.subrange(offset as int, i as int)
                    + seq![b@[i as int]]);
            }
        }
        if c != 32 && c != 13 && c != 10 {
            contains_nonspace = true;
        }
        i += 1;
    }
    if offset == 0 {
        proof {
            assert(b@.subrange(0, len as int) =~= b@);
            lemma_prefix_plain(b@, len as int);
            assert(code_map(b@) == b@);
        }
        if contains_nonspace && b[0] == 32 && b[len - 1] == 32 {
            proof {
                lemma_nonspace_len(b@);
                lemma_ascii_boundary(b@, 1);
                lemma_ascii_boundary(b@, len - 1);
            }
            return Cow::Borrowed(substr(v, 1, len - 1));
        } else {
            return Cow::Borrowed(v);
        }
    }
    proof {
        lemma_ascii_boundary(b@, offset as int);
        lemma_ascii_boundary(b@, len as int);
    }
    let piece = substr(v, offset, len);
    push_str(&mut out, piece);
    let olen = out.as_str().as_bytes().len();
    proof {
        encode_utf8_valid_utf8(out@);
    }
    if contains_nonspace && out.as_str().as_bytes()[0] == 32 && out.as_str().as_bytes()[olen - 1]
        == 32 {
        proof {
            let m = utf8(out@);
            lemma_nonspace_len(b@);
            lemma_ascii_boundary(m, 1);
            lemma_ascii_boundary(m, olen - 1);
        }
        let ghost m = utf8(out@);
        truncate_string(&mut out, olen - 1);
        proof {
            encode_utf8_valid_utf8(out@);
            lemma_ascii_boundary(utf8(out@), 1);
        }
        remove_from_start(&mut out, 1);
        proof {
            assert(utf8(out@) =~= m.subrange(1, m.len() - 1));
        }
    }
    Cow::Owned(out)
}


/// Unicode `White_Space`: the characters `char::is_whitespace` accepts.
pub open spec fn is_white_space_char(c: char) -> bool {
    ('\u{9}' <= c && c <= '\u{d}') || c == ' ' || c == '\u{85}' || c == '\u{a0}'
        || c == '\u{1680}' || ('\u{2000}' <= c && c <= '\u{200a}') || c == '\u{2028}'
        || c == '\u{2029}' || c == '\u{202f}' || c == '\u{205f}' || c == '\u{3000}'
}

/// Whether `c` is Unicode whitespace.
pub fn is_white_space(c: char) -> (r: bool)
    ensures
        r == is_white_space_char(c),
{
    ('\u{9}' <= c && c <= '\u{d}') || c == ' ' || c == '\u{85}' || c == '\u{a0}' || c
        == '\u{1680}' || ('\u{2000}' <= c && c <= '\u{200a}') || c == '\u{2028}' || c
        == '\u{2029}' || c == '\u{202f}' || c == '\u{205f}' || c == '\u{3000}'
}

/// Each run of whitespace replaced by one space; `last_ws` says whether a
/// run is already open.
pub open spec fn collapse_ws(cs: Seq<char>, last_ws: bool) -> Seq<char>
    decreases cs.len(),
{
    if cs.len() == 0 {
        seq![]
    } else if is_white_space_char(cs[0]) {
        if last_ws {
            collapse_ws(cs.drop_first(), true)
        } else {
            seq![' '] + collapse_ws(cs.drop_first(), true)
        }
    } else {
        seq![cs[0]] + collapse_ws(cs.drop_first(), false)
    }
}

/// The full Unicode default case folding of a character sequence, as
/// `caseless::default_case_fold_str` computes it.
pub uninterp spec fn case_fold(s: Seq<char>) -> Seq<char>;

/// `caseless::default_case_fold_str`: the default case folding of `s`.
#[verifier::external_body]
fn default_case_fold_str(s: &str) -> (r: String)
    ensures
        r@ == case_fold(s@),
{
    caseless::default_case_fold_str(s)
}

/// A link label normalised for matching: trimmed, inner whitespace runs
/// collapsed to one space, and case-folded when asked.
pub open spec fn normalize_label_chars(b: Seq<u8>, casing: Case) -> Seq<char> {
    let c = collapse_ws(decode_utf8(trim_bytes(b)), false);
    if casing == Case::Fold {
        case_fold(c)
    } else {
        c
    }
}

/// Normalises a link label.
pub fn normalize_label(i: &str, casing: Case) -> (r: String)
    ensures
        r@ == normalize_label_chars(i.spec_bytes(), casing),
{
    let t = trim_slice(i);
    let cs = str_chars(t);
    let mut v = String::new();
    let mut last_was_whitespace = false;
    let mut k: usize = 0;
    proof {
        encode_utf8_decode_utf8(t@);
        assert(cs@.subrange(0, cs@.len() as int) =~= cs@);
        assert(v@ + cs@ =~= cs@);
    }
    while k < cs.len()
        invariant
            v@ + collapse_ws(cs@.subrange(k as int, cs@.len() as int), last_was_whitespace)
                == collapse_ws(cs@, false),
            k <= cs@.len(),
        decreases cs@.len() - k,
    {
        let c = cs[k];
        let ghost rest = cs@.subrange(k as int, cs@.len() as int);
        proof {
            assert(rest.drop_first() =~= cs@.subrange(k + 1, cs@.len() as int));
        }
        if is_white_space(c) {
            if !last_was_whitespace {
                last_was_whitespace = true;
                let ghost before = v@;
                push_char(&mut v, ' ');
                proof {
                    assert(before + (seq![' '] + collapse_ws(rest.drop_first(), true)) =~= v@
                        + collapse_ws(rest.drop_first(), true));
                }
            }
        } else {
            last_was_whitespace = false;
            let ghost before = v@;
            push_char(&mut v, c);
            proof {
                assert(before + (seq![c] + collapse_ws(rest.drop_first(), false)) =~= v@
                    + collapse_ws(rest.drop_first(), false));
            }
        }
        k += 1;
    }
    proof {
        assert(cs@.subrange(k as int, cs@.len() as int) =~= Seq::<char>::empty());
        assert(v@ + Seq::<char>::empty() =~= v@);
    }
    if casing == Case::Fold {
        default_case_fold_str(v.as_str())
    } else {
        v
    }
}

/// Whether `n` occurs in `h` at `i`.
pub open spec fn occurs_at(h: Seq<u8>, n: Seq<u8>, i: int) -> bool {
    0 <= i && i + n.len() <= h.len() && h.subrange(i, i + n.len()) == n
}

/// The first occurrence of `n` in `h` at or after `i`.
pub open spec fn find_from(h: Seq<u8>, n: Seq<u8>, i: int) -> Option<int>
    decreases h.len() + 1 - i,
{
    if i < 0 || i + n.len() > h.len() {
        None
    } else if occurs_at(h, n, i) {
        Some(i)
    } else {
        find_from(h, n, i + 1)
    }
}

/// Whether `n` occurs in `h` at `i`.
pub fn occurs_at_exec(h: &[u8], n: &[u8], i: usize) -> (r: bool)
    requires
        i + n@.len() <= h@.len(),
    ensures
        r == occurs_at(h@, n@, i as int),
{
    let hl = h.len();
    let mut j: usize = 0;
    while j < n.len()
        invariant
            hl == h@.len(),
            i + n@.len() <= h@.len(),
            j <= n@.len(),
            forall|k: int| 0 <= k < j ==> h@[i + k] == n@[k],
        decreases n@.len() - j,
    {
        if h[i + j] != n[j] {
            proof {
                assert(h@.subrange(i as int, i + n@.len())[j as int] != n@[j as int]);
            }
            return false;
        }
        j += 1;
    }
    proof {
        assert(h@.subrange(i as int, i + n@.len()) =~= n@);
    }
    true
}

/// The first occurrence of `n` in `h`, searching from `start`.
pub fn find_bytes_from(h: &[u8], n: &[u8], start: usize) -> (r: Option<usize>)
    ensures
        r matches Some(k) ==> find_from(h@, n@, start as int) == Some(k as int),
        r is None ==> find_from(h@, n@, start as int) is None,
{
    let hl = h.len();
    if n.len() > hl || start > hl - n.len() {
        return None;
    }
    let last = hl - n.len();
    let mut i = start;
    loop
        invariant
            hl == h@.len(),
            last + n@.len() == hl,
            start <= i <= last,
            find_from(h@, n@, start as int) == find_from(h@, n@, i as int),
        decreases last - i,
    {
        if occurs_at_exec(h, n, i) {
            return Some(i);
        }
        if i == last {
            return None;
        }
        i += 1;
    }
}

/// The length of the line end at `i`: 1 for LF, 2 for CR LF, otherwise 0.
pub open spec fn nl_len(b: Seq<u8>, i: int) -> int {
    if 0 <= i < b.len() && b[i] == 10 {
        1
    } else if 0 <= i && i + 1 < b.len() && b[i] == 13 && b[i + 1] == 10 {
        2
    } else {
        0
    }
}

fn nl_len_exec(b: &[u8], i: usize) -> (r: usize)
    ensures
        r == nl_len(b@, i as int),
{
    if i < b.len() && b[i] == 10 {
        1
    } else if i < b.len() && b.len() - i > 1 && b[i] == 13 && b[i + 1] == 10 {
        2
    } else {
        0
    }
}

/// `[\n] + d + tail`.
pub open spec fn nl_delim(d: Seq<u8>, tail: Seq<u8>) -> Seq<u8> {
    seq![10u8] + d + tail
}

fn make_needle(d: &[u8], tail: &[u8]) -> (r: Vec<u8>)
    ensures
        r@ == nl_delim(d@, tail@),
{
    let mut v: Vec<u8> = Vec::new();
    v.push(10);
    let mut i: usize = 0;
    while i < d.len()
        invariant
            i <= d@.len(),
            v@ == seq![10u8] + d@.subrange(0, i as int),
        decreases d@.len() - i,
    {
        v.push(d[i]);
        i += 1;
        proof {
            assert(d@.subrange(0, i as int) =~= d@.subrange(0, i - 1) + seq![d@[i - 1]]);
        }
    }
    let mut j: usize = 0;
    while j < tail.len()
        invariant
            j <= tail@.len(),
            v@ == seq![10u8] + d@ + tail@.subrange(0, j as int),
            i == d@.len(),
        decreases tail@.len() - j,
    {
        v.push(tail[j]);
        j += 1;
        proof {
            assert(tail@.subrange(0, j as int) =~= tail@.subrange(0, j - 1) + seq![tail@[j - 1]]);
        }
    }
    proof {
        assert(d@.subrange(0, d@.len() as int) =~= d@);
        assert(tail@.subrange(0, tail@.len() as int) =~= tail@);
    }
    v
}

/// Where front matter delimited by `d` ends in `s` (after any byte order
/// mark has been removed), when `s` opens with front matter.
pub open spec fn front_matter_end(s: Seq<u8>, d: Seq<u8>) -> Option<int> {
    if !starts_with_bytes(s, d) {
        None
    } else if nl_len(s, d.len() as int) == 0 {
        None
    } else {
        let start = d.len() + nl_len(s, d.len() as int);
        let rest = s.subrange(start, s.len() as int);
        let f = match find_from(rest, nl_delim(d, seq![13u8, 10u8]), 0) {
            Some(k) => Some(k),
            None => match find_from(rest, nl_delim(d, seq![10u8]), 0) {
                Some(k) => Some(k),
                None => find_from(rest, nl_delim(d, seq![]), 0),
            },
        };
        match f {
            None => None,
            Some(k) => {
                let e = start + k + 1 + d.len();
                if e == s.len() {
                    Some(e)
                } else if nl_len(s, e) == 0 {
                    None
                } else {
                    let e2 = e + nl_len(s, e);
                    Some(e2 + nl_len(s, e2))
                }
            },
        }
    }
}

/// The bytes of a byte order mark.
pub open spec fn bom_bytes() -> Seq<u8> {
    seq![0xefu8, 0xbbu8, 0xbfu8]
}

/// Splits front matter delimited by `delimiter` off the start of `s`,
/// returning the front matter (with the blank line after it) and the rest.
/// A leading byte order mark is dropped first.
pub fn split_off_front_matter<'s>(s: &'s str, delimiter: &str) -> (r: Option<(&'s str, &'s str)>)
    ensures
        ({
            let t = trim_start_match_bytes(s.spec_bytes(), bom_bytes());
            &&& r is None <==> front_matter_end(t, delimiter.spec_bytes()) is None
            &&& r matches Some((a, b)) ==> {
                let e = front_matter_end(t, delimiter.spec_bytes())->0;
                &&& a.spec_bytes() == t.subrange(0, e)
                &&& b.spec_bytes() == t.subrange(e, t.len() as int)
            }
        }),
{
    let bom = "\u{feff}";
    proof {
        reveal_strlit("\u{feff}");
        assert(bom@ =~= seq!['\u{feff}']);
        lemma_bom_bytes();
        assert(bom@ == seq!['\u{feff}']);
    }
    let s = trim_start_match(s, bom);
    let b = s.as_bytes();
    let d = delimiter.as_bytes();
    let len = b.len();
    let dlen = d.len();
    if dlen > len || !occurs_at_exec(b, d, 0) {
        proof {
            assert(!starts_with_bytes(b@, d@));
        }
        return None;
    }
    let n1 = nl_len_exec(b, dlen);
    if n1 == 0 {
        return None;
    }
    let mut start = dlen + n1;
    let rest = slice_subrange(b, start, len);
    let needle1 = make_needle(d, &[13u8, 10u8]);
    let needle2 = make_needle(d, &[10u8]);
    let needle3 = make_needle(d, &[]);
    proof {
        assert((&[13u8, 10u8])@ =~= seq![13u8, 10u8]);
        assert((&[10u8])@ =~= seq![10u8]);
        let empty: &[u8] = &[];
        assert(empty@ =~= Seq::<u8>::empty());
    }
    let f = match find_bytes_from(rest, needle1.as_slice(), 0) {
        Some(k) => Some(k),
        None => match find_bytes_from(rest, needle2.as_slice(), 0) {
            Some(k) => Some(k),
            None => find_bytes_from(rest, needle3.as_slice(), 0),
        },
    };
    let k = match f {
        Some(k) => k,
        None => {
            return None;
        },
    };
    proof {
        lemma_find_from_bound(rest@, needle1@, 0);
        lemma_find_from_bound(rest@, needle2@, 0);
        lemma_find_from_bound(rest@, needle3@, 0);
    }
    start = start + k + 1 + dlen;
    proof {
        lemma_str_valid(s);
        lemma_ascii_boundary(b@, 0);
        lemma_ascii_boundary(b@, len as int);
    }
    if start == len {
        return Some((s, substr(s, len, len)));
    }
    let n2 = nl_len_exec(b, start);
    if n2 == 0 {
        return None;
    }
    start = start + n2;
    let n3 = nl_len_exec(b, start);
    start = start + n3;
    proof {
        assert(b@[start - 1] == 10);
        lemma_ascii_boundary(b@, start as int);
    }
    Some((substr(s, 0, start), substr(s, start, len)))
}

/// The UTF-8 encoding of U+FEFF.
proof fn lemma_bom_bytes()
    ensures
        encode_utf8(seq!['\u{feff}']) == bom_bytes(),
{
    let c = '\u{feff}';
    let s = seq![c];
    assert(s.drop_first() =~= Seq::<char>::empty());
    assert((c as u32) == 0xfeffu32);
    let v: u32 = 0xfeff;
    assert(0xE0u8 | ((v >> 12) & 0x0F) as u8 == 0xefu8) by (bit_vector)
        requires
            v == 0xfeff,
    ;
    assert(0x80u8 | ((v >> 6) & 0x3F) as u8 == 0xbbu8) by (bit_vector)
        requires
            v == 0xfeff,
    ;
    assert(0x80u8 | (v & 0x3F) as u8 == 0xbfu8) by (bit_vector)
        requires
            v == 0xfeff,
    ;
    assert(encode_scalar(v) =~= seq![0xefu8, 0xbbu8, 0xbfu8]);
    assert(encode_utf8(s) =~= encode_scalar(v) + encode_utf8(s.drop_first()));
    assert(encode_utf8(s) =~= bom_bytes());
}

/// A found occurrence lies inside the haystack.
pub proof fn lemma_find_from_bound(h: Seq<u8>, n: Seq<u8>, i: int)
    ensures
        find_from(h, n, i) matches Some(k) ==> i <= k && k + n.len() <= h.len() && occurs_at(
            h,
            n,
            k,
        ),
    decreases h.len() + 1 - i,
{
    if !(i < 0 || i + n.len() > h.len()) && !occurs_at(h, n, i) {
        lemma_find_from_bound(h, n, i + 1);
    }
}

/// The owned string a copy-on-write string holds or borrows.
pub fn cow_into_owned(c: Cow<'_, str>) -> (r: String)
    ensures
        r@ == c@,
{
    match c {
        Cow::Borrowed(s) => s.to_owned(),
        Cow::Owned(s) => s,
    }
}

fn empty_cow() -> (r: Cow<'static, str>)
    ensures
        r@ == Seq::<char>::empty(),
{
    Cow::Owned(String::new())
}

/// A link destination as written, cleaned: trimmed, character references
/// decoded, then backslash escapes resolved.
pub open spec fn clean_url_bytes(b: Seq<u8>) -> Seq<u8> {
    let t = trim_bytes(b);
    if t.len() == 0 {
        seq![]
    } else {
        unescape_bytes(unescape_html_bytes(t))
    }
}

/// Cleans a link destination.
pub fn clean_url(url: &str) -> (r: Cow<'static, str>)
    ensures
        utf8(r@) == clean_url_bytes(url.spec_bytes()),
{
    let url = trim_slice(url);
    if url.as_bytes().len() == 0 {
        let r = empty_cow();
        proof {
            assert(utf8(r@) =~= Seq::<u8>::empty());
        }
        return r;
    }
    let mut b = cow_into_owned(unescape_html(url));
    unescape(&mut b);
    Cow::Owned(b)
}

/// A link title as written, cleaned: one pair of enclosing quotes or
/// parentheses dropped, character references decoded, then backslash
/// escapes resolved.
pub open spec fn clean_title_bytes(b: Seq<u8>) -> Seq<u8> {
    if b.len() == 0 {
        seq![]
    } else {
        let first = b[0];
        let last = b[b.len() - 1];
        let inner = if (first == 39 && last == 39) || (first == 40 && last == 41) || (first == 34
            && last == 34) {
            b.subrange(1, b.len() - 1)
        } else {
            b
        };
        unescape_bytes(unescape_html_bytes(inner))
    }
}

/// Cleans a link title.
pub fn clean_title(title: &str) -> (r: Cow<'static, str>)
    requires
        !(title.spec_bytes().len() == 1 && (title.spec_bytes()[0] == 39 || title.spec_bytes()[0]
            == 34)),
    ensures
        utf8(r@) == clean_title_bytes(title.spec_bytes()),
{
    let bytes = title.as_bytes();
    let title_len = bytes.len();
    if title_len == 0 {
        let r = empty_cow();
        proof {
            assert(utf8(r@) =~= Seq::<u8>::empty());
        }
        return r;
    }
    let first = bytes[0];
    let last = bytes[title_len - 1];
    let c = if (first == 39 && last == 39) || (first == 40 && last == 41) || (first == 34 && last
        == 34) {
        proof {
            lemma_str_valid(title);
            lemma_ascii_boundary(bytes@, 1);
            lemma_ascii_boundary(bytes@, title_len - 1);
        }
        unescape_html(substr(title, 1, title_len - 1))
    } else {
        unescape_html(title)
    };
    let mut b = cow_into_owned(c);
    unescape(&mut b);
    Cow::Owned(b)
}

/// The destination of an autolink: trimmed, character references decoded,
/// and `mailto:` put in front for an email address.
pub open spec fn clean_autolink_bytes(b: Seq<u8>, kind: AutolinkType) -> Seq<u8> {
    let t = trim_bytes(b);
    if t.len() == 0 {
        seq![]
    } else if kind == AutolinkType::Email {
        utf8("mailto:"@) + unescape_html_bytes(t)
    } else {
        unescape_html_bytes(t)
    }
}

/// Cleans the destination of an autolink.
pub fn clean_autolink(url: &str, kind: AutolinkType) -> (r: Cow<'_, str>)
    ensures
        utf8(r@) == clean_autolink_bytes(url.spec_bytes(), kind),
{
    let url = trim_slice(url);
    if url.as_bytes().len() == 0 {
        let r = empty_cow();
        proof {
            assert(utf8(r@) =~= Seq::<u8>::empty());
        }
        return r;
    }
    if kind == AutolinkType::Email {
        let mut buf = String::new();
        push_str(&mut buf, "mailto:");
        let u = unescape_html(url);
        match u {
            Cow::Borrowed(t) => push_str(&mut buf, t),
            Cow::Owned(t) => push_str(&mut buf, t.as_str()),
        }
        proof {
            assert(utf8(Seq::<char>::empty()) =~= Seq::<u8>::empty());
            assert(Seq::<u8>::empty() + utf8("mailto:"@) =~= utf8("mailto:"@));
        }
        Cow::Owned(buf)
    } else {
        unescape_html(url)
    }
}

} // verus!
