//! Line scanners of the block and inline parsers.
//!
//! Each scanner looks at the start of `line` and reports how many bytes of it
//! a construct takes (or, for some, only whether the construct is there).
//! Lines handed to the block scanners end in a line ending.

use vstd::prelude::*;
use vstd::slice::slice_subrange;

use crate::ctype::{is_alnum_byte, is_alpha_byte, is_punct_byte, is_space_byte};
use crate::strings::{
    find_bytes_from, find_from, lead, lemma_find_from_bound, lemma_lead, lemma_lead_facts,
    starts_with_bytes,
};
use crate::text::{lemma_encode_ascii_seq, utf8};

verus! {

/// A class of bytes that a scanner reads a run of.
#[derive(PartialEq, Eq, Structural, Clone, Copy, Debug)]
pub enum ByteClass {
    /// One given byte.
    Is(u8),
    /// Space or tab.
    SpaceTab,
    /// `\r` or `\n`.
    LineEnd,
    /// CommonMark whitespace: space, tab, `\n`, line tabulation, form feed, `\r`.
    Space,
    /// Space, tab, line tabulation or form feed: whitespace within a table row.
    TableSpace,
    /// A given byte, space or tab.
    IsOrSpaceTab(u8),
    /// Anything but a backtick or a line ending.
    NotBacktickNorLineEnd,
    /// Anything but a line ending.
    NotLineEnd,
    /// A letter, digit, `+`, `.` or `-`.
    SchemeTail,
    /// Anything but a control character, space, `<` or `>`.
    UriChar,
    /// A letter, digit or one of ``.!#$%&'*+/=?^_`{|}~-``.
    EmailLocal,
    /// A letter, digit or `-`.
    LabelChar,
    /// Anything but `]`, space, tab or a line ending.
    FootnoteChar,
    /// A letter, digit or `-`: what follows the first letter of a tag name.
    TagNameTail,
    /// A letter, digit, `:`, `.`, `_` or `-`.
    AttrNameTail,
    /// Anything that may stand in an unquoted attribute value.
    UnquotedValue,
    /// Anything but a given byte.
    Not(u8),
    /// Tab, `\n`, form feed or space.
    TagTrail,
    /// A letter or digit.
    Alnum,
    /// `(` or `)`.
    Parens,
    /// `|` or a line ending: what ends a table cell.
    CellStop,
}

/// Whether `c` is in the class `k`.
pub open spec fn in_class(c: u8, k: ByteClass) -> bool {
    match k {
        ByteClass::Is(x) => c == x,
        ByteClass::SpaceTab => c == 32 || c == 9,
        ByteClass::LineEnd => c == 13 || c == 10,
        ByteClass::Space => is_space_byte(c),
        ByteClass::TableSpace => c == 32 || c == 9 || c == 11 || c == 12,
        ByteClass::IsOrSpaceTab(x) => c == x || c == 32 || c == 9,
        ByteClass::NotBacktickNorLineEnd => c != 96 && c != 13 && c != 10,
        ByteClass::NotLineEnd => c != 13 && c != 10,
        ByteClass::SchemeTail => is_alnum_byte(c) || c == 43 || c == 46 || c == 45,
        ByteClass::UriChar => c > 32 && c != 60 && c != 62,
        ByteClass::EmailLocal => is_alnum_byte(c) || c == 46 || c == 33 || c == 35 || c == 36
            || c == 37 || c == 38 || c == 39 || c == 42 || c == 43 || c == 47 || c == 61 || c
            == 63 || c == 94 || c == 95 || c == 96 || c == 123 || c == 124 || c == 125 || c
            == 126 || c == 45,
        ByteClass::LabelChar => is_alnum_byte(c) || c == 45,
        ByteClass::FootnoteChar => c != 93 && c != 32 && c != 13 && c != 10 && c != 9,
        ByteClass::TagNameTail => is_alnum_byte(c) || c == 45,
        ByteClass::AttrNameTail => is_alnum_byte(c) || c == 58 || c == 46 || c == 95 || c == 45,
        ByteClass::UnquotedValue => !is_space_byte(c) && c != 34 && c != 39 && c != 61 && c != 60
            && c != 62 && c != 96,
        ByteClass::Not(x) => c != x,
        ByteClass::TagTrail => c == 9 || c == 10 || c == 12 || c == 32,
        ByteClass::Alnum => is_alnum_byte(c),
        ByteClass::Parens => c == 40 || c == 41,
        ByteClass::CellStop => c == 124 || c == 13 || c == 10,
    }
}

/// `in_class` as a predicate.
pub open spec fn class_pred(k: ByteClass) -> spec_fn(u8) -> bool {
    |c: u8| in_class(c, k)
}

/// The length of the run of bytes of class `k` in `b` from `i` on.
pub open spec fn run_len(b: Seq<u8>, i: int, k: ByteClass) -> int {
    lead(b.subrange(i, b.len() as int), class_pred(k)) as int
}

/// The bytes of a run are in its class, and the byte after it is not.
pub proof fn lemma_run_len(b: Seq<u8>, i: int, k: ByteClass)
    requires
        0 <= i <= b.len(),
    ensures
        0 <= run_len(b, i, k) <= b.len() - i,
        forall|j: int| i <= j < i + run_len(b, i, k) ==> in_class(#[trigger] b[j], k),
        i + run_len(b, i, k) < b.len() ==> !in_class(b[i + run_len(b, i, k)], k),
{
    let t = b.subrange(i, b.len() as int);
    lemma_lead_facts(t, class_pred(k));
    assert forall|j: int| i <= j < i + run_len(b, i, k) implies in_class(#[trigger] b[j], k) by {
        assert(b[j] == t[j - i]);
        assert(class_pred(k)(t[j - i]));
    }
    if i + run_len(b, i, k) < b.len() {
        assert(b[i + run_len(b, i, k)] == t[run_len(b, i, k)]);
    }
}

/// A run with escapes stays within the text and stops at a byte of its
/// stop class or at the end.
pub proof fn lemma_esc_run_end(b: Seq<u8>, i: int, stop: ByteClass)
    requires
        0 <= i <= b.len(),
    ensures
        i <= esc_run_end(b, i, stop) <= b.len(),
        esc_run_end(b, i, stop) < b.len() ==> in_class(b[esc_run_end(b, i, stop)], stop),
    decreases b.len() - i,
{
    if i < b.len() {
        if b[i] == 92 && i + 1 < b.len() && is_punct_byte(b[i + 1]) {
            lemma_esc_run_end(b, i + 2, stop);
        } else if !in_class(b[i], stop) {
            lemma_esc_run_end(b, i + 1, stop);
        }
    }
}

/// Whether `c` is in the class `k`.
pub fn is_in_class(c: u8, k: ByteClass) -> (r: bool)
    ensures
        r == in_class(c, k),
{
    match k {
        ByteClass::Is(x) => c == x,
        ByteClass::SpaceTab => c == 32 || c == 9,
        ByteClass::LineEnd => c == 13 || c == 10,
        ByteClass::Space => c == 9 || c == 10 || c == 11 || c == 12 || c == 13 || c == 32,
        ByteClass::TableSpace => c == 32 || c == 9 || c == 11 || c == 12,
        ByteClass::IsOrSpaceTab(x) => c == x || c == 32 || c == 9,
        ByteClass::NotBacktickNorLineEnd => c != 96 && c != 13 && c != 10,
        ByteClass::NotLineEnd => c != 13 && c != 10,
        ByteClass::SchemeTail => is_alnum(c) || c == 43 || c == 46 || c == 45,
        ByteClass::UriChar => c > 32 && c != 60 && c != 62,
        ByteClass::EmailLocal => is_alnum(c) || c == 46 || c == 33 || c == 35 || c == 36 || c
            == 37 || c == 38 || c == 39 || c == 42 || c == 43 || c == 47 || c == 61 || c == 63
            || c == 94 || c == 95 || c == 96 || c == 123 || c == 124 || c == 125 || c == 126 || c
            == 45,
        ByteClass::LabelChar => is_alnum(c) || c == 45,
        ByteClass::FootnoteChar => c != 93 && c != 32 && c != 13 && c != 10 && c != 9,
        ByteClass::TagNameTail => is_alnum(c) || c == 45,
        ByteClass::AttrNameTail => is_alnum(c) || c == 58 || c == 46 || c == 95 || c == 45,
        ByteClass::UnquotedValue => !(c == 9 || c == 10 || c == 11 || c == 12 || c == 13 || c
            == 32) && c != 34 && c != 39 && c != 61 && c != 60 && c != 62 && c != 96,
        ByteClass::Not(x) => c != x,
        ByteClass::TagTrail => c == 9 || c == 10 || c == 12 || c == 32,
        ByteClass::Alnum => is_alnum(c),
        ByteClass::Parens => c == 40 || c == 41,
        ByteClass::CellStop => c == 124 || c == 13 || c == 10,
    }
}

fn is_alnum(c: u8) -> (r: bool)
    ensures
        r == is_alnum_byte(c),
{
    (65 <= c && c <= 90) || (97 <= c && c <= 122) || (48 <= c && c <= 57)
}

/// The end of the run of bytes of class `k` in `b` that starts at `i`.
pub fn run(b: &[u8], i: usize, k: ByteClass) -> (r: usize)
    requires
        i <= b@.len(),
    ensures
        r == i + run_len(b@, i as int, k),
        i <= r <= b@.len(),
        forall|j: int| i <= j < r ==> in_class(#[trigger] b@[j], k),
        r < b@.len() ==> !in_class(b@[r as int], k),
{
    let mut j = i;
    while j < b.len() && is_in_class(b[j], k)
        invariant
            i <= j <= b@.len(),
            forall|m: int| i <= m < j ==> in_class(#[trigger] b@[m], k),
        decreases b@.len() - j,
    {
        j += 1;
    }
    proof {
        let t = b@.subrange(i as int, b@.len() as int);
        assert forall|m: int| 0 <= m < j - i implies class_pred(k)(#[trigger] t[m]) by {
            assert(t[m] == b@[m + i]);
        }
        if j < b@.len() {
            assert(t[j - i] == b@[j as int]);
        }
        lemma_lead(t, class_pred(k), j - i);
    }
    j
}

/// A length as an integer.
pub open spec fn opt_int(r: Option<usize>) -> Option<int> {
    match r {
        Some(n) => Some(n as int),
        None => None,
    }
}

/// Whether position `i` of `b` holds a byte of class `k`.
pub open spec fn at(b: Seq<u8>, i: int, k: ByteClass) -> bool {
    0 <= i < b.len() && in_class(b[i], k)
}

fn at_exec(b: &[u8], i: usize, k: ByteClass) -> (r: bool)
    ensures
        r == at(b@, i as int, k),
{
    i < b.len() && is_in_class(b[i], k)
}

/// `[ \t\v\f\r\n]+`: the length of the leading whitespace, if there is any.
pub open spec fn spacechars_spec(b: Seq<u8>) -> Option<int> {
    let n = run_len(b, 0, ByteClass::Space);
    if n > 0 {
        Some(n)
    } else {
        None
    }
}

/// Matches whitespace, line endings included, at the start of `line`.
pub fn spacechars(line: &[u8]) -> (r: Option<usize>)
    ensures
        opt_int(r) == spacechars_spec(line@),
{
    let n = run(line, 0, ByteClass::Space);
    if n > 0 {
        Some(n)
    } else {
        None
    }
}

/// `#{1,6}` followed by spaces and tabs or by a line ending: the opening of
/// an ATX heading, with what follows the hashes.
pub open spec fn atx_heading_start_spec(b: Seq<u8>) -> Option<int> {
    let h = run_len(b, 0, ByteClass::Is(35));
    if 1 <= h <= 6 && at(b, h, ByteClass::SpaceTab) {
        Some(h + run_len(b, h, ByteClass::SpaceTab))
    } else if 1 <= h <= 6 && at(b, h, ByteClass::LineEnd) {
        Some(h + 1)
    } else {
        None
    }
}

/// Matches the opening of an ATX heading: one to six `#`, then spaces and
/// tabs or a line ending.  Gives the length up to the heading's text.
pub fn atx_heading_start(line: &[u8]) -> (r: Option<usize>)
    requires
        line@.len() > 0,
    ensures
        opt_int(r) == atx_heading_start_spec(line@),
{
    if line[0] != 35 {
        return None;
    }
    let h = run(line, 0, ByteClass::Is(35));
    if h <= 6 && at_exec(line, h, ByteClass::SpaceTab) {
        Some(run(line, h, ByteClass::SpaceTab))
    } else if h <= 6 && at_exec(line, h, ByteClass::LineEnd) {
        Some(h + 1)
    } else {
        None
    }
}

/// Which character underlines a setext heading.
#[derive(PartialEq, Eq, Structural, Clone, Copy, Debug)]
pub enum SetextChar {
    /// `=`: a level 1 heading.
    Equals,
    /// `-`: a level 2 heading.
    Hyphen,
}

/// A run of `=` or of `-`, then spaces and tabs, then a line ending.
pub open spec fn setext_heading_line_spec(b: Seq<u8>) -> Option<SetextChar> {
    if b.len() > 0 && (b[0] == 61 || b[0] == 45) {
        let n = run_len(b, 0, ByteClass::Is(b[0]));
        let m = run_len(b, n, ByteClass::SpaceTab);
        if at(b, n + m, ByteClass::LineEnd) {
            if b[0] == 61 {
                Some(SetextChar::Equals)
            } else {
                Some(SetextChar::Hyphen)
            }
        } else {
            None
        }
    } else {
        None
    }
}

/// Matches a setext heading underline: `=` or `-` repeated, optional spaces
/// and tabs, and a line ending.
pub fn setext_heading_line(line: &[u8]) -> (r: Option<SetextChar>)
    requires
        line@.len() > 0,
    ensures
        r == setext_heading_line_spec(line@),
{
    let c = line[0];
    if c != 61 && c != 45 {
        return None;
    }
    let n = run(line, 0, ByteClass::Is(c));
    let m = run(line, n, ByteClass::SpaceTab);
    if at_exec(line, m, ByteClass::LineEnd) {
        if c == 61 {
            Some(SetextChar::Equals)
        } else {
            Some(SetextChar::Hyphen)
        }
    } else {
        None
    }
}

/// The number of bytes equal to `c` in `b`.
pub open spec fn count_byte(b: Seq<u8>, c: u8) -> nat
    decreases b.len(),
{
    if b.len() == 0 {
        0
    } else {
        count_byte(b.drop_last(), c) + if b.last() == c {
            1nat
        } else {
            0nat
        }
    }
}

/// Three or more of one of `*`, `-`, `_`, with spaces and tabs among them,
/// then a line ending: a thematic break, up to and including the first byte
/// of the line ending.
pub open spec fn thematic_break_spec(b: Seq<u8>) -> Option<int> {
    if b.len() > 0 && (b[0] == 42 || b[0] == 45 || b[0] == 95) {
        let k = run_len(b, 0, ByteClass::IsOrSpaceTab(b[0]));
        if count_byte(b.subrange(0, k), b[0]) >= 3 && at(b, k, ByteClass::LineEnd) {
            Some(k + 1)
        } else {
            None
        }
    } else {
        None
    }
}

/// Matches a thematic break: three or more `*`, `-` or `_` (one kind),
/// optionally separated by spaces and tabs, then a line ending.
pub fn thematic_break(line: &[u8]) -> (r: Option<usize>)
    requires
        line@.len() > 0,
    ensures
        opt_int(r) == thematic_break_spec(line@),
{
    let c = line[0];
    if c != 42 && c != 45 && c != 95 {
        return None;
    }
    let mut i: usize = 0;
    let mut count: usize = 0;
    let k = run(line, 0, ByteClass::IsOrSpaceTab(c));
    while i < k
        invariant
            i <= k <= line@.len(),
            count == count_byte(line@.subrange(0, i as int), c),
            count <= i,
        decreases k - i,
    {
        proof {
            assert(line@.subrange(0, i + 1).drop_last() =~= line@.subrange(0, i as int));
        }
        if line[i] == c {
            count += 1;
        }
        i += 1;
    }
    if count >= 3 && at_exec(line, k, ByteClass::LineEnd) {
        Some(k + 1)
    } else {
        None
    }
}

/// Three or more backticks followed by a line without backticks, or three or
/// more tildes followed by anything up to a line ending: the length of the
/// fence itself.
pub open spec fn open_code_fence_spec(b: Seq<u8>) -> Option<int> {
    if b.len() > 0 && b[0] == 96 {
        let n = run_len(b, 0, ByteClass::Is(96));
        if n >= 3 && at(b, n + run_len(b, n, ByteClass::NotBacktickNorLineEnd), ByteClass::LineEnd) {
            Some(n)
        } else {
            None
        }
    } else if b.len() > 0 && b[0] == 126 {
        let n = run_len(b, 0, ByteClass::Is(126));
        if n >= 3 && at(b, n + run_len(b, n, ByteClass::NotLineEnd), ByteClass::LineEnd) {
            Some(n)
        } else {
            None
        }
    } else {
        None
    }
}

/// Matches an opening code fence; gives the length of the fence.
pub fn open_code_fence(line: &[u8]) -> (r: Option<usize>)
    requires
        line@.len() > 0,
    ensures
        opt_int(r) == open_code_fence_spec(line@),
{
    let c = line[0];
    if c != 96 && c != 126 {
        return None;
    }
    let n = run(line, 0, ByteClass::Is(c));
    let info = if c == 96 {
        ByteClass::NotBacktickNorLineEnd
    } else {
        ByteClass::NotLineEnd
    };
    if n >= 3 && at_exec(line, run(line, n, info), ByteClass::LineEnd) {
        Some(n)
    } else {
        None
    }
}

/// Three or more backticks or tildes followed by spaces and tabs and a line
/// ending: the length of the fence.
pub open spec fn close_code_fence_spec(b: Seq<u8>) -> Option<int> {
    if b.len() > 0 && (b[0] == 96 || b[0] == 126) {
        let n = run_len(b, 0, ByteClass::Is(b[0]));
        if n >= 3 && at(b, n + run_len(b, n, ByteClass::SpaceTab), ByteClass::LineEnd) {
            Some(n)
        } else {
            None
        }
    } else {
        None
    }
}

/// Matches a closing code fence; gives the length of the fence.
pub fn close_code_fence(line: &[u8]) -> (r: Option<usize>)
    requires
        line@.len() > 0,
    ensures
        opt_int(r) == close_code_fence_spec(line@),
{
    let c = line[0];
    if c != 96 && c != 126 {
        return None;
    }
    let n = run(line, 0, ByteClass::Is(c));
    if n >= 3 && at_exec(line, run(line, n, ByteClass::SpaceTab), ByteClass::LineEnd) {
        Some(n)
    } else {
        None
    }
}

/// Where a run of text from `i` on ends at a byte of class `stop`, a
/// backslash before an ASCII punctuation character taking that character
/// with it.
pub open spec fn esc_run_end(b: Seq<u8>, i: int, stop: ByteClass) -> int
    decreases b.len() - i,
{
    if i < 0 || i >= b.len() {
        i
    } else if b[i] == 92 && i + 1 < b.len() && is_punct_byte(b[i + 1]) {
        esc_run_end(b, i + 2, stop)
    } else if in_class(b[i], stop) {
        i
    } else {
        esc_run_end(b, i + 1, stop)
    }
}

/// The end of the run of text with backslash escapes from `i` on.
fn esc_run(b: &[u8], i: usize, stop: ByteClass) -> (r: usize)
    requires
        i <= b@.len(),
    ensures
        r == esc_run_end(b@, i as int, stop),
        i <= r <= b@.len(),
{
    let mut j = i;
    while j < b.len()
        invariant
            i <= j <= b@.len(),
            esc_run_end(b@, j as int, stop) == esc_run_end(b@, i as int, stop),
        decreases b@.len() - j,
    {
        if b[j] == 92 && j + 1 < b.len() && ispunct_exec(b[j + 1]) {
            j += 2;
        } else if is_in_class(b[j], stop) {
            return j;
        } else {
            j += 1;
        }
    }
    j
}

fn ispunct_exec(c: u8) -> (r: bool)
    ensures
        r == is_punct_byte(c),
{
    crate::ctype::ispunct(c)
}

/// A link title: in double quotes, in single quotes, or in parentheses, with
/// backslash escapes; the quote or parenthesis that closes it must not stand
/// inside unescaped, nor, in parentheses, an opening one.
pub open spec fn link_title_spec(b: Seq<u8>) -> Option<int> {
    if b.len() > 0 && (b[0] == 34 || b[0] == 39) {
        let e = esc_run_end(b, 1, ByteClass::Is(b[0]));
        if e < b.len() {
            Some(e + 1)
        } else {
            None
        }
    } else if b.len() > 0 && b[0] == 40 {
        let e = esc_run_end(b, 1, ByteClass::Parens);
        if e < b.len() && b[e] == 41 {
            Some(e + 1)
        } else {
            None
        }
    } else {
        None
    }
}

/// Matches a link title at the start of `line`; gives its length, quotes or
/// parentheses included.
pub fn link_title(line: &[u8]) -> (r: Option<usize>)
    ensures
        opt_int(r) == link_title_spec(line@),
{
    if line.len() == 0 {
        return None;
    }
    let c = line[0];
    if c == 34 || c == 39 {
        let e = esc_run(line, 1, ByteClass::Is(c));
        if e < line.len() {
            Some(e + 1)
        } else {
            None
        }
    } else if c == 40 {
        let e = esc_run(line, 1, ByteClass::Parens);
        if e < line.len() && line[e] == 41 {
            Some(e + 1)
        } else {
            None
        }
    } else {
        None
    }
}

/// A non-empty table cell: text up to `|` or a line ending, with backslash
/// escapes (so `\|` stays in the cell).
pub open spec fn table_cell_spec(b: Seq<u8>) -> Option<int> {
    let e = esc_run_end(b, 0, ByteClass::CellStop);
    if e > 0 {
        Some(e)
    } else {
        None
    }
}

/// Matches the content of a table cell; an empty cell gives `None`.
pub fn table_cell(line: &[u8]) -> (r: Option<usize>)
    ensures
        opt_int(r) == table_cell_spec(line@),
{
    let e = esc_run(line, 0, ByteClass::CellStop);
    if e > 0 {
        Some(e)
    } else {
        None
    }
}

/// `|` and the table whitespace after it.
pub open spec fn table_cell_end_spec(b: Seq<u8>) -> Option<int> {
    if b.len() > 0 && b[0] == 124 {
        Some(1 + run_len(b, 1, ByteClass::TableSpace))
    } else {
        None
    }
}

/// Matches the `|` that ends a table cell, with the whitespace after it.
pub fn table_cell_end(line: &[u8]) -> (r: Option<usize>)
    ensures
        opt_int(r) == table_cell_end_spec(line@),
{
    if line.len() > 0 && line[0] == 124 {
        Some(run(line, 1, ByteClass::TableSpace))
    } else {
        None
    }
}

/// The length of a `\n` or `\r\n` at `i`, if one is there.
pub open spec fn newline_at(b: Seq<u8>, i: int) -> Option<int> {
    if 0 <= i < b.len() && b[i] == 10 {
        Some(1)
    } else if 0 <= i && i + 1 < b.len() && b[i] == 13 && b[i + 1] == 10 {
        Some(2)
    } else {
        None
    }
}

fn newline_at_exec(b: &[u8], i: usize) -> (r: Option<usize>)
    ensures
        opt_int(r) == newline_at(b@, i as int),
        r matches Some(k) ==> i + k <= b@.len(),
{
    if i < b.len() && b[i] == 10 {
        Some(1)
    } else if i < b.len() && i + 1 < b.len() && b[i] == 13 && b[i + 1] == 10 {
        Some(2)
    } else {
        None
    }
}

/// Table whitespace and then `\n` or `\r\n`.
pub open spec fn table_row_end_spec(b: Seq<u8>) -> Option<int> {
    let n = run_len(b, 0, ByteClass::TableSpace);
    match newline_at(b, n) {
        Some(k) => Some(n + k),
        None => None,
    }
}

/// Matches the end of a table row: whitespace and a line ending.
pub fn table_row_end(line: &[u8]) -> (r: Option<usize>)
    ensures
        opt_int(r) == table_row_end_spec(line@),
{
    let len = line.len();
    let n = run(line, 0, ByteClass::TableSpace);
    match newline_at_exec(line, n) {
        Some(k) => Some(n + k),
        None => None,
    }
}

/// A delimiter cell of a table's second row from `i` on: whitespace, an
/// optional `:`, one or more `-`, an optional `:`, whitespace.
pub open spec fn delim_end(b: Seq<u8>, i: int) -> Option<int> {
    let s = i + run_len(b, i, ByteClass::TableSpace);
    let c = if at(b, s, ByteClass::Is(58)) {
        s + 1
    } else {
        s
    };
    let d = run_len(b, c, ByteClass::Is(45));
    if d == 0 {
        None
    } else {
        let e = if at(b, c + d, ByteClass::Is(58)) {
            c + d + 1
        } else {
            c + d
        };
        Some(e + run_len(b, e, ByteClass::TableSpace))
    }
}

fn delim_end_exec(b: &[u8], i: usize) -> (r: Option<usize>)
    requires
        i <= b@.len(),
    ensures
        opt_int(r) == delim_end(b@, i as int),
        r matches Some(e) ==> i < e <= b@.len(),
{
    let len = b.len();
    let s = run(b, i, ByteClass::TableSpace);
    let c = if at_exec(b, s, ByteClass::Is(58)) {
        s + 1
    } else {
        s
    };
    let d = run(b, c, ByteClass::Is(45));
    if d == c {
        None
    } else {
        let e = if at_exec(b, d, ByteClass::Is(58)) {
            d + 1
        } else {
            d
        };
        Some(run(b, e, ByteClass::TableSpace))
    }
}

/// Further delimiter cells from `i` on, each after a `|`.
pub open spec fn delims_end(b: Seq<u8>, i: int) -> int
    decreases b.len() - i,
{
    if at(b, i, ByteClass::Is(124)) {
        match delim_end(b, i + 1) {
            Some(e) => if i < e <= b.len() {
                delims_end(b, e)
            } else {
                i
            },
            None => i,
        }
    } else {
        i
    }
}

/// The delimiter row of a table: delimiter cells separated by `|`, with an
/// optional `|` before the first and after the last, then a line ending.
pub open spec fn table_start_spec(b: Seq<u8>) -> Option<int> {
    let p = if at(b, 0, ByteClass::Is(124)) {
        1int
    } else {
        0int
    };
    match delim_end(b, p) {
        None => None,
        Some(e) => {
            let f = delims_end(b, e);
            let g = if at(b, f, ByteClass::Is(124)) {
                f + 1
            } else {
                f
            };
            match newline_at(b, g) {
                Some(k) => Some(g + k),
                None => None,
            }
        },
    }
}

/// Matches the delimiter row that starts a table; gives its length.
pub fn table_start(line: &[u8]) -> (r: Option<usize>)
    ensures
        opt_int(r) == table_start_spec(line@),
{
    let len = line.len();
    let p: usize = if at_exec(line, 0, ByteClass::Is(124)) {
        1
    } else {
        0
    };
    match delim_end_exec(line, p) {
        None => None,
        Some(e) => {
            let mut f = e;
            while at_exec(line, f, ByteClass::Is(124))
                invariant
                    len == line@.len(),
                    e <= f <= line@.len(),
                    delims_end(line@, f as int) == delims_end(line@, e as int),
                ensures
                    e <= f <= line@.len(),
                    f == delims_end(line@, e as int),
                decreases line@.len() - f,
            {
                match delim_end_exec(line, f + 1) {
                    Some(e2) => {
                        f = e2;
                    },
                    None => {
                        break;
                    },
                }
            }
            let g = if at_exec(line, f, ByteClass::Is(124)) {
                f + 1
            } else {
                f
            };
            match newline_at_exec(line, g) {
                Some(k) => Some(g + k),
                None => None,
            }
        },
    }
}

/// A URI scheme and its colon: a letter, then one to thirty-one letters,
/// digits, `+`, `.` or `-`, then `:`.
pub open spec fn scheme_spec(b: Seq<u8>) -> Option<int> {
    if b.len() > 0 && is_alpha_byte(b[0]) {
        let n = 1 + run_len(b, 1, ByteClass::SchemeTail);
        if 2 <= n <= 32 && at(b, n, ByteClass::Is(58)) {
            Some(n + 1)
        } else {
            None
        }
    } else {
        None
    }
}

/// Matches a URI scheme with its colon; gives its length.
pub fn scheme(line: &[u8]) -> (r: Option<usize>)
    ensures
        opt_int(r) == scheme_spec(line@),
{
    let len = line.len();
    if len == 0 || !is_alpha(line[0]) {
        return None;
    }
    let n = run(line, 1, ByteClass::SchemeTail);
    if 2 <= n && n <= 32 && at_exec(line, n, ByteClass::Is(58)) {
        Some(n + 1)
    } else {
        None
    }
}

fn is_alpha(c: u8) -> (r: bool)
    ensures
        r == is_alpha_byte(c),
{
    (65 <= c && c <= 90) || (97 <= c && c <= 122)
}

/// The rest of a URI autolink after its `<`: a scheme, its colon, anything
/// but whitespace, control characters, `<` and `>`, then `>`.
pub open spec fn autolink_uri_spec(b: Seq<u8>) -> Option<int> {
    match scheme_spec(b) {
        None => None,
        Some(k) => {
            let u = k + run_len(b, k, ByteClass::UriChar);
            if at(b, u, ByteClass::Is(62)) {
                Some(u + 1)
            } else {
                None
            }
        },
    }
}

/// Matches a URI autolink after its `<`; gives its length, `>` included.
pub fn autolink_uri(line: &[u8]) -> (r: Option<usize>)
    ensures
        opt_int(r) == autolink_uri_spec(line@),
        r matches Some(e) ==> 0 < e <= line@.len(),
{
    let len = line.len();
    match scheme(line) {
        None => None,
        Some(k) => {
            let u = run(line, k, ByteClass::UriChar);
            if at_exec(line, u, ByteClass::Is(62)) {
                Some(u + 1)
            } else {
                None
            }
        },
    }
}

/// Whether the run of label characters at `i` of length `n` is a domain
/// label: one to sixty-three letters, digits and hyphens, not starting or
/// ending with a hyphen.
pub open spec fn label_ok(b: Seq<u8>, i: int, n: int) -> bool {
    1 <= n <= 63 && is_alnum_byte(b[i]) && is_alnum_byte(b[i + n - 1])
}

/// The end of a domain from `i` on: labels separated by `.`.
pub open spec fn domain_end(b: Seq<u8>, i: int) -> Option<int>
    decreases b.len() - i,
{
    let n = run_len(b, i, ByteClass::LabelChar);
    if 0 <= i && label_ok(b, i, n) {
        if at(b, i + n, ByteClass::Is(46)) {
            domain_end(b, i + n + 1)
        } else {
            Some(i + n)
        }
    } else {
        None
    }
}

/// The rest of an email autolink after its `<`: a local part, `@`, a
/// domain, `>`.
pub open spec fn autolink_email_spec(b: Seq<u8>) -> Option<int> {
    let l = run_len(b, 0, ByteClass::EmailLocal);
    if l > 0 && at(b, l, ByteClass::Is(64)) {
        match domain_end(b, l + 1) {
            Some(e) => if at(b, e, ByteClass::Is(62)) {
                Some(e + 1)
            } else {
                None
            },
            None => None,
        }
    } else {
        None
    }
}

/// Matches an email autolink after its `<`; gives its length, `>` included.
pub fn autolink_email(line: &[u8]) -> (r: Option<usize>)
    ensures
        opt_int(r) == autolink_email_spec(line@),
        r matches Some(e) ==> 0 < e <= line@.len(),
{
    let len = line.len();
    let l = run(line, 0, ByteClass::EmailLocal);
    if l == 0 || !at_exec(line, l, ByteClass::Is(64)) {
        return None;
    }
    let mut i = l + 1;
    loop
        invariant
            len == line@.len(),
            l + 1 <= i <= len,
            l == run_len(line@, 0, ByteClass::EmailLocal),
            l > 0,
            at(line@, l as int, ByteClass::Is(64)),
            domain_end(line@, i as int) == domain_end(line@, l + 1),
        decreases len - i,
    {
        let e = run(line, i, ByteClass::LabelChar);
        let n = e - i;
        if n < 1 || n > 63 || !is_alnum(line[i]) || !is_alnum(line[e - 1]) {
            return None;
        }
        if at_exec(line, e, ByteClass::Is(46)) {
            i = e + 1;
        } else {
            if at_exec(line, e, ByteClass::Is(62)) {
                return Some(e + 1);
            } else {
                return None;
            }
        }
    }
}

/// A footnote definition's opening: `[^`, a label without `]`, whitespace
/// or line endings, `]:`, then spaces and tabs.
pub open spec fn footnote_definition_spec(b: Seq<u8>) -> Option<int> {
    let n = run_len(b, 2, ByteClass::FootnoteChar);
    if b.len() >= 2 && b[0] == 91 && b[1] == 94 && n > 0 && at(b, 2 + n, ByteClass::Is(93)) && at(
        b,
        3 + n,
        ByteClass::Is(58),
    ) {
        Some(4 + n + run_len(b, 4 + n, ByteClass::SpaceTab))
    } else {
        None
    }
}

/// Matches the opening of a footnote definition, `[^label]:` and the spaces
/// after it; gives its length.
pub fn footnote_definition(line: &[u8]) -> (r: Option<usize>)
    ensures
        opt_int(r) == footnote_definition_spec(line@),
{
    let len = line.len();
    if len < 2 || line[0] != 91 || line[1] != 94 {
        return None;
    }
    let e = run(line, 2, ByteClass::FootnoteChar);
    if e > 2 && at_exec(line, e, ByteClass::Is(93)) && at_exec(line, e + 1, ByteClass::Is(58)) {
        Some(run(line, e + 2, ByteClass::SpaceTab))
    } else {
        None
    }
}

/// An ASCII letter in lower case; other bytes unchanged.
pub open spec fn ascii_lower(c: u8) -> u8 {
    if 65 <= c <= 90 {
        (c + 32) as u8
    } else {
        c
    }
}

/// Whether `b` starts with `p`, ASCII letters compared without case (`p`
/// is written in lower case).
pub open spec fn starts_with_ci(b: Seq<u8>, p: Seq<u8>) -> bool {
    p.len() <= b.len() && forall|k: int| 0 <= k < p.len() ==> ascii_lower(#[trigger] b[k]) == p[k]
}

pub fn starts_with_ci_exec(b: &[u8], p: &[u8]) -> (r: bool)
    ensures
        r == starts_with_ci(b@, p@),
{
    if p.len() > b.len() {
        return false;
    }
    let mut k: usize = 0;
    while k < p.len()
        invariant
            p@.len() <= b@.len(),
            k <= p@.len(),
            forall|j: int| 0 <= j < k ==> ascii_lower(#[trigger] b@[j]) == p@[j],
        decreases p@.len() - k,
    {
        let c = b[k];
        let lc = if 65 <= c && c <= 90 {
            c + 32
        } else {
            c
        };
        if lc != p[k] {
            return false;
        }
        k += 1;
    }
    true
}

/// A URL that opens with `javascript:`, `vbscript:`, `file:` or `data:`, in
/// any case, except for `data:image/png`, `data:image/gif`,
/// `data:image/jpeg` and `data:image/webp`: the length of the scheme and its
/// colon.
pub open spec fn dangerous_url_spec(b: Seq<u8>) -> Option<int> {
    if starts_with_ci(b, utf8("data:image/png"@)) || starts_with_ci(b, utf8("data:image/gif"@))
        || starts_with_ci(b, utf8("data:image/jpeg"@)) || starts_with_ci(
        b,
        utf8("data:image/webp"@),
    ) {
        None
    } else if starts_with_ci(b, utf8("javascript:"@)) {
        Some(utf8("javascript:"@).len() as int)
    } else if starts_with_ci(b, utf8("vbscript:"@)) {
        Some(utf8("vbscript:"@).len() as int)
    } else if starts_with_ci(b, utf8("file:"@)) {
        Some(utf8("file:"@).len() as int)
    } else if starts_with_ci(b, utf8("data:"@)) {
        Some(utf8("data:"@).len() as int)
    } else {
        None
    }
}

/// Matches a potentially dangerous URL scheme; gives the length of the
/// scheme and its colon.
pub fn dangerous_url(line: &[u8]) -> (r: Option<usize>)
    ensures
        opt_int(r) == dangerous_url_spec(line@),
{
    if starts_with_ci_exec(line, "data:image/png".as_bytes()) || starts_with_ci_exec(
        line,
        "data:image/gif".as_bytes(),
    ) || starts_with_ci_exec(line, "data:image/jpeg".as_bytes()) || starts_with_ci_exec(
        line,
        "data:image/webp".as_bytes(),
    ) {
        None
    } else if starts_with_ci_exec(line, "javascript:".as_bytes()) {
        Some("javascript:".as_bytes().len())
    } else if starts_with_ci_exec(line, "vbscript:".as_bytes()) {
        Some("vbscript:".as_bytes().len())
    } else if starts_with_ci_exec(line, "file:".as_bytes()) {
        Some("file:".as_bytes().len())
    } else if starts_with_ci_exec(line, "data:".as_bytes()) {
        Some("data:".as_bytes().len())
    } else {
        None
    }
}

/// `twoway::find_bytes`: the first position at which `pattern` occurs in
/// `text`, `Some(0)` for an empty pattern, `None` where it does not occur.
#[verifier::external_body]
fn find_bytes(text: &[u8], pattern: &[u8]) -> (r: Option<usize>)
    ensures
        opt_int(r) == find_from(text@, pattern@, 0),
{
    twoway::find_bytes(text, pattern)
}

/// Whether `p` occurs anywhere in `b`.
pub open spec fn contains_bytes(b: Seq<u8>, p: Seq<u8>) -> bool {
    find_from(b, p, 0) is Some
}

/// A line that ends a raw HTML block of the first kind: it holds
/// `</script>`, `</pre>` or `</style>`.
pub fn html_block_end_1(line: &[u8]) -> (r: bool)
    ensures
        r == (contains_bytes(line@, utf8("</script>"@)) || contains_bytes(line@, utf8("</pre>"@))
            || contains_bytes(line@, utf8("</style>"@))),
{
    find_bytes(line, "</script>".as_bytes()).is_some() || find_bytes(
        line,
        "</pre>".as_bytes(),
    ).is_some() || find_bytes(line, "</style>".as_bytes()).is_some()
}

/// A line that ends an HTML comment block: it holds `-->`.
pub fn html_block_end_2(line: &[u8]) -> (r: bool)
    ensures
        r == contains_bytes(line@, utf8("-->"@)),
{
    find_bytes(line, "-->".as_bytes()).is_some()
}

/// A line that ends a processing instruction block: it holds `?>`.
pub fn html_block_end_3(line: &[u8]) -> (r: bool)
    ensures
        r == contains_bytes(line@, utf8("?>"@)),
{
    find_bytes(line, "?>".as_bytes()).is_some()
}

/// A line that ends a declaration block: it holds `>`.
pub fn html_block_end_4(line: &[u8]) -> (r: bool)
    ensures
        r == line@.contains(62u8),
{
    let mut i: usize = 0;
    while i < line.len()
        invariant
            i <= line@.len(),
            forall|k: int| 0 <= k < i ==> line@[k] != 62u8,
        decreases line@.len() - i,
    {
        if line[i] == 62 {
            return true;
        }
        i += 1;
    }
    false
}

/// A line that ends a CDATA block: it holds `]]>`.
pub fn html_block_end_5(line: &[u8]) -> (r: bool)
    ensures
        r == contains_bytes(line@, utf8("]]>"@)),
{
    find_bytes(line, "]]>".as_bytes()).is_some()
}

/// Whether `n` equals `w`, ASCII letters compared without case (`w` is
/// written in lower case).
pub open spec fn eq_ci(n: Seq<u8>, w: Seq<u8>) -> bool {
    n.len() == w.len() && starts_with_ci(n, w)
}

fn eq_ci_exec(n: &[u8], w: &[u8]) -> (r: bool)
    ensures
        r == eq_ci(n@, w@),
{
    n.len() == w.len() && starts_with_ci_exec(n, w)
}

/// The tag names that open a raw HTML block of the sixth kind.
pub open spec fn is_block_tag(n: Seq<u8>) -> bool {
    eq_ci(n, utf8("address"@)) || eq_ci(n, utf8("article"@)) || eq_ci(n, utf8("aside"@)) || eq_ci(n, utf8("base"@)) || eq_ci(n, utf8("basefont"@)) || eq_ci(n, utf8("blockquote"@)) || eq_ci(n, utf8("body"@)) || eq_ci(n, utf8("caption"@)) || eq_ci(n, utf8("center"@)) || eq_ci(n, utf8("col"@)) || eq_ci(n, utf8("colgroup"@)) || eq_ci(n, utf8("dd"@)) || eq_ci(n, utf8("details"@)) || eq_ci(n, utf8("dialog"@)) || eq_ci(n, utf8("dir"@)) || eq_ci(n, utf8("div"@)) || eq_ci(n, utf8("dl"@)) || eq_ci(n, utf8("dt"@)) || eq_ci(n, utf8("fieldset"@)) || eq_ci(n, utf8("figcaption"@)) || eq_ci(n, utf8("figure"@)) || eq_ci(n, utf8("footer"@)) || eq_ci(n, utf8("form"@)) || eq_ci(n, utf8("frame"@)) || eq_ci(n, utf8("frameset"@)) || eq_ci(n, utf8("h1"@)) || eq_ci(n, utf8("h2"@)) || eq_ci(n, utf8("h3"@)) || eq_ci(n, utf8("h4"@)) || eq_ci(n, utf8("h5"@)) || eq_ci(n, utf8("h6"@)) || eq_ci(n, utf8("head"@)) || eq_ci(n, utf8("header"@)) || eq_ci(n, utf8("hr"@)) || eq_ci(n, utf8("html"@)) || eq_ci(n, utf8("iframe"@)) || eq_ci(n, utf8("legend"@)) || eq_ci(n, utf8("li"@)) || eq_ci(n, utf8("link"@)) || eq_ci(n, utf8("main"@)) || eq_ci(n, utf8("menu"@)) || eq_ci(n, utf8("menuitem"@)) || eq_ci(n, utf8("nav"@)) || eq_ci(n, utf8("noframes"@)) || eq_ci(n, utf8("ol"@)) || eq_ci(n, utf8("optgroup"@)) || eq_ci(n, utf8("option"@)) || eq_ci(n, utf8("p"@)) || eq_ci(n, utf8("param"@)) || eq_ci(n, utf8("section"@)) || eq_ci(n, utf8("source"@)) || eq_ci(n, utf8("summary"@)) || eq_ci(n, utf8("table"@)) || eq_ci(n, utf8("tbody"@)) || eq_ci(n, utf8("td"@)) || eq_ci(n, utf8("tfoot"@)) || eq_ci(n, utf8("th"@)) || eq_ci(n, utf8("thead"@)) || eq_ci(n, utf8("title"@)) || eq_ci(n, utf8("tr"@)) || eq_ci(n, utf8("track"@)) || eq_ci(n, utf8("ul"@))
}

fn block_tag(n: &[u8]) -> (r: bool)
    ensures
        r == is_block_tag(n@),
{
    eq_ci_exec(n, "address".as_bytes()) || eq_ci_exec(n, "article".as_bytes()) || eq_ci_exec(n, "aside".as_bytes()) || eq_ci_exec(n, "base".as_bytes()) || eq_ci_exec(n, "basefont".as_bytes()) || eq_ci_exec(n, "blockquote".as_bytes()) || eq_ci_exec(n, "body".as_bytes()) || eq_ci_exec(n, "caption".as_bytes()) || eq_ci_exec(n, "center".as_bytes()) || eq_ci_exec(n, "col".as_bytes()) || eq_ci_exec(n, "colgroup".as_bytes()) || eq_ci_exec(n, "dd".as_bytes()) || eq_ci_exec(n, "details".as_bytes()) || eq_ci_exec(n, "dialog".as_bytes()) || eq_ci_exec(n, "dir".as_bytes()) || eq_ci_exec(n, "div".as_bytes()) || eq_ci_exec(n, "dl".as_bytes()) || eq_ci_exec(n, "dt".as_bytes()) || eq_ci_exec(n, "fieldset".as_bytes()) || eq_ci_exec(n, "figcaption".as_bytes()) || eq_ci_exec(n, "figure".as_bytes()) || eq_ci_exec(n, "footer".as_bytes()) || eq_ci_exec(n, "form".as_bytes()) || eq_ci_exec(n, "frame".as_bytes()) || eq_ci_exec(n, "frameset".as_bytes()) || eq_ci_exec(n, "h1".as_bytes()) || eq_ci_exec(n, "h2".as_bytes()) || eq_ci_exec(n, "h3".as_bytes()) || eq_ci_exec(n, "h4".as_bytes()) || eq_ci_exec(n, "h5".as_bytes()) || eq_ci_exec(n, "h6".as_bytes()) || eq_ci_exec(n, "head".as_bytes()) || eq_ci_exec(n, "header".as_bytes()) || eq_ci_exec(n, "hr".as_bytes()) || eq_ci_exec(n, "html".as_bytes()) || eq_ci_exec(n, "iframe".as_bytes()) || eq_ci_exec(n, "legend".as_bytes()) || eq_ci_exec(n, "li".as_bytes()) || eq_ci_exec(n, "link".as_bytes()) || eq_ci_exec(n, "main".as_bytes()) || eq_ci_exec(n, "menu".as_bytes()) || eq_ci_exec(n, "menuitem".as_bytes()) || eq_ci_exec(n, "nav".as_bytes()) || eq_ci_exec(n, "noframes".as_bytes()) || eq_ci_exec(n, "ol".as_bytes()) || eq_ci_exec(n, "optgroup".as_bytes()) || eq_ci_exec(n, "option".as_bytes()) || eq_ci_exec(n, "p".as_bytes()) || eq_ci_exec(n, "param".as_bytes()) || eq_ci_exec(n, "section".as_bytes()) || eq_ci_exec(n, "source".as_bytes()) || eq_ci_exec(n, "summary".as_bytes()) || eq_ci_exec(n, "table".as_bytes()) || eq_ci_exec(n, "tbody".as_bytes()) || eq_ci_exec(n, "td".as_bytes()) || eq_ci_exec(n, "tfoot".as_bytes()) || eq_ci_exec(n, "th".as_bytes()) || eq_ci_exec(n, "thead".as_bytes()) || eq_ci_exec(n, "title".as_bytes()) || eq_ci_exec(n, "tr".as_bytes()) || eq_ci_exec(n, "track".as_bytes()) || eq_ci_exec(n, "ul".as_bytes())
}

/// The tag names that open a raw HTML block of the first kind.
pub open spec fn is_raw_tag(n: Seq<u8>) -> bool {
    eq_ci(n, utf8("script"@)) || eq_ci(n, utf8("pre"@)) || eq_ci(n, utf8("textarea"@)) || eq_ci(
        n,
        utf8("style"@),
    )
}

fn raw_tag(n: &[u8]) -> (r: bool)
    ensures
        r == is_raw_tag(n@),
{
    eq_ci_exec(n, "script".as_bytes()) || eq_ci_exec(n, "pre".as_bytes()) || eq_ci_exec(
        n,
        "textarea".as_bytes(),
    ) || eq_ci_exec(n, "style".as_bytes())
}

/// The kind, from one to six, of the raw HTML block that a line opens:
/// 1. `<script`, `<pre`, `<textarea` or `<style`, in any case, then
///    whitespace or `>`;
/// 2. `<!--`;
/// 3. `<?`;
/// 4. `<!` and an ASCII letter;
/// 5. `<![CDATA[`;
/// 6. `<` or `</`, a block tag name in any case, then whitespace, `>` or
///    `/>`.
pub open spec fn html_block_start_spec(b: Seq<u8>) -> Option<int> {
    if !(b.len() > 0 && b[0] == 60) {
        None
    } else {
        let n1 = run_len(b, 1, ByteClass::Alnum);
        let s = if at(b, 1, ByteClass::Is(47)) {
            2int
        } else {
            1int
        };
        let n6 = run_len(b, s, ByteClass::Alnum);
        if is_raw_tag(b.subrange(1, 1 + n1)) && (at(b, 1 + n1, ByteClass::Space) || at(
            b,
            1 + n1,
            ByteClass::Is(62),
        )) {
            Some(1)
        } else if b.len() >= 4 && b[1] == 33 && b[2] == 45 && b[3] == 45 {
            Some(2)
        } else if b.len() >= 2 && b[1] == 63 {
            Some(3)
        } else if b.len() >= 3 && b[1] == 33 && is_alpha_byte(b[2]) {
            Some(4)
        } else if starts_with_bytes(b, utf8("<![CDATA["@)) {
            Some(5)
        } else if is_block_tag(b.subrange(s, s + n6)) && (at(b, s + n6, ByteClass::Space) || at(
            b,
            s + n6,
            ByteClass::Is(62),
        ) || (at(b, s + n6, ByteClass::Is(47)) && at(b, s + n6 + 1, ByteClass::Is(62)))) {
            Some(6)
        } else {
            None
        }
    }
}

/// Matches the opening of a raw HTML block of kinds one to six; gives the
/// kind.
pub fn html_block_start(line: &[u8]) -> (r: Option<usize>)
    ensures
        opt_int(r) == html_block_start_spec(line@),
{
    let len = line.len();
    if len == 0 || line[0] != 60 {
        return None;
    }
    let e1 = run(line, 1, ByteClass::Alnum);
    let s: usize = if at_exec(line, 1, ByteClass::Is(47)) {
        2
    } else {
        1
    };
    let e6 = run(line, s, ByteClass::Alnum);
    if raw_tag(slice_subrange(line, 1, e1)) && (at_exec(line, e1, ByteClass::Space) || at_exec(
        line,
        e1,
        ByteClass::Is(62),
    )) {
        Some(1)
    } else if len >= 4 && line[1] == 33 && line[2] == 45 && line[3] == 45 {
        Some(2)
    } else if len >= 2 && line[1] == 63 {
        Some(3)
    } else if len >= 3 && line[1] == 33 && is_alpha(line[2]) {
        Some(4)
    } else if starts_with_exec(line, "<![CDATA[".as_bytes()) {
        Some(5)
    } else if block_tag(slice_subrange(line, s, e6)) && (at_exec(line, e6, ByteClass::Space) || at_exec(
        line,
        e6,
        ByteClass::Is(62),
    ) || (at_exec(line, e6, ByteClass::Is(47)) && at_exec(line, e6 + 1, ByteClass::Is(62)))) {
        Some(6)
    } else {
        None
    }
}

/// Whether `b` starts with `p`.
pub fn starts_with_exec(b: &[u8], p: &[u8]) -> (r: bool)
    ensures
        r == starts_with_bytes(b@, p@),
{
    if p.len() > b.len() {
        return false;
    }
    let mut k: usize = 0;
    while k < p.len()
        invariant
            p@.len() <= b@.len(),
            k <= p@.len(),
            forall|j: int| 0 <= j < k ==> b@[j] == p@[j],
        decreases p@.len() - k,
    {
        if b[k] != p[k] {
            proof {
                assert(b@.subrange(0, p@.len() as int)[k as int] != p@[k as int]);
            }
            return false;
        }
        k += 1;
    }
    proof {
        assert(b@.subrange(0, p@.len() as int) =~= p@);
    }
    true
}

/// A tag name from `i` on: an ASCII letter, then letters, digits and `-`.
pub open spec fn tagname_end(b: Seq<u8>, i: int) -> Option<int> {
    if 0 <= i < b.len() && is_alpha_byte(b[i]) {
        Some(i + 1 + run_len(b, i + 1, ByteClass::TagNameTail))
    } else {
        None
    }
}

fn tagname_end_exec(b: &[u8], i: usize) -> (r: Option<usize>)
    ensures
        opt_int(r) == tagname_end(b@, i as int),
        r matches Some(e) ==> i < e <= b@.len(),
{
    if i < b.len() && is_alpha(b[i]) {
        Some(run(b, i + 1, ByteClass::TagNameTail))
    } else {
        None
    }
}

/// An attribute name from `i` on: a letter, `_` or `:`, then letters,
/// digits, `:`, `.`, `_` and `-`.
pub open spec fn attr_name_end(b: Seq<u8>, i: int) -> Option<int> {
    if 0 <= i < b.len() && (is_alpha_byte(b[i]) || b[i] == 95 || b[i] == 58) {
        Some(i + 1 + run_len(b, i + 1, ByteClass::AttrNameTail))
    } else {
        None
    }
}

/// An attribute value from `i` on: unquoted, or in single or double quotes.
pub open spec fn attr_value_end(b: Seq<u8>, i: int) -> Option<int> {
    let u = run_len(b, i, ByteClass::UnquotedValue);
    if u > 0 {
        Some(i + u)
    } else if at(b, i, ByteClass::Is(39)) || at(b, i, ByteClass::Is(34)) {
        let e = i + 1 + run_len(b, i + 1, ByteClass::Not(b[i]));
        if e < b.len() {
            Some(e + 1)
        } else {
            None
        }
    } else {
        None
    }
}

/// An attribute value specification from `i` on: whitespace, `=`,
/// whitespace, a value.
pub open spec fn value_spec_end(b: Seq<u8>, i: int) -> Option<int> {
    let s = i + run_len(b, i, ByteClass::Space);
    if at(b, s, ByteClass::Is(61)) {
        attr_value_end(b, s + 1 + run_len(b, s + 1, ByteClass::Space))
    } else {
        None
    }
}

/// An attribute from `i` on: whitespace, a name, and an optional value
/// specification.
pub open spec fn attribute_end(b: Seq<u8>, i: int) -> Option<int> {
    let s = run_len(b, i, ByteClass::Space);
    if s > 0 {
        match attr_name_end(b, i + s) {
            Some(n) => match value_spec_end(b, n) {
                Some(e) => Some(e),
                None => Some(n),
            },
            None => None,
        }
    } else {
        None
    }
}

/// The end of the attributes that follow one another from `i` on.
pub open spec fn attributes_end(b: Seq<u8>, i: int) -> int
    decreases b.len() - i,
{
    match attribute_end(b, i) {
        Some(e) => if i < e <= b.len() {
            attributes_end(b, e)
        } else {
            i
        },
        None => i,
    }
}

/// An opening tag from `i` on (after its `<`): a tag name, attributes,
/// whitespace, an optional `/`, and `>`.
pub open spec fn opentag_end(b: Seq<u8>, i: int) -> Option<int> {
    match tagname_end(b, i) {
        Some(t) => {
            let a = attributes_end(b, t);
            let s = a + run_len(b, a, ByteClass::Space);
            let s2 = if at(b, s, ByteClass::Is(47)) {
                s + 1
            } else {
                s
            };
            if at(b, s2, ByteClass::Is(62)) {
                Some(s2 + 1)
            } else {
                None
            }
        },
        None => None,
    }
}

/// A closing tag from `i` on (after its `<`): `/`, a tag name, whitespace,
/// `>`.
pub open spec fn closetag_end(b: Seq<u8>, i: int) -> Option<int> {
    if at(b, i, ByteClass::Is(47)) {
        match tagname_end(b, i + 1) {
            Some(t) => {
                let s = t + run_len(b, t, ByteClass::Space);
                if at(b, s, ByteClass::Is(62)) {
                    Some(s + 1)
                } else {
                    None
                }
            },
            None => None,
        }
    } else {
        None
    }
}

fn attr_value_end_exec(b: &[u8], i: usize) -> (r: Option<usize>)
    requires
        i <= b@.len(),
    ensures
        opt_int(r) == attr_value_end(b@, i as int),
        r matches Some(e) ==> i < e <= b@.len(),
{
    let len = b.len();
    let u = run(b, i, ByteClass::UnquotedValue);
    if u > i {
        Some(u)
    } else if at_exec(b, i, ByteClass::Is(39)) || at_exec(b, i, ByteClass::Is(34)) {
        let e = run(b, i + 1, ByteClass::Not(b[i]));
        if e < len {
            Some(e + 1)
        } else {
            None
        }
    } else {
        None
    }
}

fn attribute_end_exec(b: &[u8], i: usize) -> (r: Option<usize>)
    requires
        i <= b@.len(),
    ensures
        opt_int(r) == attribute_end(b@, i as int),
        r matches Some(e) ==> i < e <= b@.len(),
{
    let len = b.len();
    let s = run(b, i, ByteClass::Space);
    if s == i {
        return None;
    }
    if !(s < len && (is_alpha(b[s]) || b[s] == 95 || b[s] == 58)) {
        return None;
    }
    let n = run(b, s + 1, ByteClass::AttrNameTail);
    let s1 = run(b, n, ByteClass::Space);
    if at_exec(b, s1, ByteClass::Is(61)) {
        let s2 = run(b, s1 + 1, ByteClass::Space);
        match attr_value_end_exec(b, s2) {
            Some(e) => Some(e),
            None => Some(n),
        }
    } else {
        Some(n)
    }
}

fn opentag_end_exec(b: &[u8], i: usize) -> (r: Option<usize>)
    requires
        i <= b@.len(),
    ensures
        opt_int(r) == opentag_end(b@, i as int),
        r matches Some(e) ==> i < e <= b@.len(),
{
    let len = b.len();
    match tagname_end_exec(b, i) {
        None => None,
        Some(t) => {
            let mut a = t;
            loop
                invariant
                    len == b@.len(),
                    t <= a <= len,
                    attributes_end(b@, a as int) == attributes_end(b@, t as int),
                ensures
                    t <= a <= len,
                    a == attributes_end(b@, t as int),
                decreases len - a,
            {
                match attribute_end_exec(b, a) {
                    Some(e) => {
                        a = e;
                    },
                    None => {
                        break;
                    },
                }
            }
            let s = run(b, a, ByteClass::Space);
            let s2 = if at_exec(b, s, ByteClass::Is(47)) {
                s + 1
            } else {
                s
            };
            if at_exec(b, s2, ByteClass::Is(62)) {
                Some(s2 + 1)
            } else {
                None
            }
        },
    }
}

fn closetag_end_exec(b: &[u8], i: usize) -> (r: Option<usize>)
    requires
        i <= b@.len(),
    ensures
        opt_int(r) == closetag_end(b@, i as int),
        r matches Some(e) ==> i < e <= b@.len(),
{
    let len = b.len();
    if !at_exec(b, i, ByteClass::Is(47)) {
        return None;
    }
    match tagname_end_exec(b, i + 1) {
        Some(t) => {
            let s = run(b, t, ByteClass::Space);
            if at_exec(b, s, ByteClass::Is(62)) {
                Some(s + 1)
            } else {
                None
            }
        },
        None => None,
    }
}

/// An HTML tag after its `<`: an opening tag, a closing tag, a comment
/// (`!-->`, `!--->`, or `!--` up to the first `-->`), a processing
/// instruction (`?` up to the first `?>`), a CDATA section (`![CDATA[` up
/// to the first `]]>`), or a declaration (`!`, a letter, up to the first
/// `>`).
pub open spec fn html_tag_spec(b: Seq<u8>) -> Option<int> {
    if opentag_end(b, 0) is Some {
        opentag_end(b, 0)
    } else if closetag_end(b, 0) is Some {
        closetag_end(b, 0)
    } else if b.len() >= 3 && b[0] == 33 && b[1] == 45 && b[2] == 45 {
        if at(b, 3, ByteClass::Is(62)) {
            Some(4)
        } else if at(b, 3, ByteClass::Is(45)) && at(b, 4, ByteClass::Is(62)) {
            Some(5)
        } else {
            match find_from(b, seq![45u8, 45, 62], 3) {
                Some(k) => Some(k + 3),
                None => None,
            }
        }
    } else if at(b, 0, ByteClass::Is(63)) {
        match find_from(b, seq![63u8, 62], 1) {
            Some(k) => Some(k + 2),
            None => None,
        }
    } else if starts_with_bytes(b, utf8("![CDATA["@)) {
        match find_from(b, seq![93u8, 93, 62], 8) {
            Some(k) => Some(k + 3),
            None => None,
        }
    } else if b.len() >= 2 && b[0] == 33 && is_alpha_byte(b[1]) {
        match find_from(b, seq![62u8], 2) {
            Some(k) => Some(k + 1),
            None => None,
        }
    } else {
        None
    }
}

/// The end of the first `n` in `h` from `start` on.
fn find_end(h: &[u8], n: &[u8], start: usize) -> (r: Option<usize>)
    ensures
        r matches Some(e) ==> find_from(h@, n@, start as int) matches Some(k) && e == k + n@.len(),
        r is None ==> find_from(h@, n@, start as int) is None,
        r matches Some(e) ==> e <= h@.len(),
{
    let hl = h.len();
    match find_bytes_from(h, n, start) {
        Some(k) => {
            proof {
                lemma_find_from_bound(h@, n@, start as int);
            }
            Some(k + n.len())
        },
        None => None,
    }
}

/// Matches an HTML tag after its `<`; gives its length, the closing `>`
/// included.
pub fn html_tag(line: &[u8]) -> (r: Option<usize>)
    ensures
        opt_int(r) == html_tag_spec(line@),
        r matches Some(e) ==> e <= line@.len(),
{
    let len = line.len();
    if let Some(e) = opentag_end_exec(line, 0) {
        return Some(e);
    }
    if let Some(e) = closetag_end_exec(line, 0) {
        return Some(e);
    }
    if len >= 3 && line[0] == 33 && line[1] == 45 && line[2] == 45 {
        if at_exec(line, 3, ByteClass::Is(62)) {
            Some(4)
        } else if at_exec(line, 3, ByteClass::Is(45)) && at_exec(line, 4, ByteClass::Is(62)) {
            Some(5)
        } else {
            let close: [u8; 3] = [45, 45, 62];
            proof {
                assert(close@ =~= seq![45u8, 45, 62]);
            }
            find_end(line, close.as_slice(), 3)
        }
    } else if at_exec(line, 0, ByteClass::Is(63)) {
        let close: [u8; 2] = [63, 62];
        proof {
            assert(close@ =~= seq![63u8, 62]);
        }
        find_end(line, close.as_slice(), 1)
    } else if starts_with_exec(line, "![CDATA[".as_bytes()) {
        let close: [u8; 3] = [93, 93, 62];
        proof {
            assert(close@ =~= seq![93u8, 93, 62]);
        }
        proof {
            reveal_strlit("![CDATA[");
            lemma_encode_ascii_seq("![CDATA["@);
        }
        find_end(line, close.as_slice(), 8)
    } else if len >= 2 && line[0] == 33 && is_alpha(line[1]) {
        let close: [u8; 1] = [62];
        proof {
            assert(close@ =~= seq![62u8]);
        }
        find_end(line, close.as_slice(), 2)
    } else {
        None
    }
}

/// A match of an HTML tag, or of either kind of autolink, ends with the
/// byte `>`.
pub proof fn lemma_match_ends_with_gt(b: Seq<u8>)
    ensures
        html_tag_spec(b) matches Some(m) ==> 0 < m <= b.len() && b[m - 1] == 62,
        autolink_uri_spec(b) matches Some(m) ==> 0 < m <= b.len() && b[m - 1] == 62,
        autolink_email_spec(b) matches Some(m) ==> 0 < m <= b.len() && b[m - 1] == 62,
{
    let gt3 = seq![45u8, 45, 62];
    let gt2 = seq![63u8, 62];
    let gt_cdata = seq![93u8, 93, 62];
    let gt1 = seq![62u8];
    lemma_find_from_bound(b, gt3, 3);
    lemma_find_from_bound(b, gt2, 1);
    lemma_find_from_bound(b, gt_cdata, 8);
    lemma_find_from_bound(b, gt1, 2);
    if let Some(k) = find_from(b, gt3, 3) {
        assert(b.subrange(k, k + 3)[2] == b[k + 2]);
    }
    if let Some(k) = find_from(b, gt2, 1) {
        assert(b.subrange(k, k + 2)[1] == b[k + 1]);
    }
    if let Some(k) = find_from(b, gt_cdata, 8) {
        assert(b.subrange(k, k + 3)[2] == b[k + 2]);
    }
    if let Some(k) = find_from(b, gt1, 2) {
        assert(b.subrange(k, k + 1)[0] == b[k]);
    }
}

/// Whether `b` holds a `\n` from `i` up to `j`.
pub open spec fn has_lf(b: Seq<u8>, i: int, j: int) -> bool {
    exists|k: int| i <= k < j && b[k] == 10
}

/// A line that opens a raw HTML block of the seventh kind: `<`, a complete
/// opening or closing tag, then only tabs, form feeds and spaces up to the
/// end of the line.
pub open spec fn html_block_start_7_spec(b: Seq<u8>) -> bool {
    if b.len() > 0 && b[0] == 60 {
        let e = if opentag_end(b, 1) is Some {
            opentag_end(b, 1)
        } else {
            closetag_end(b, 1)
        };
        match e {
            Some(e) => {
                let w = run_len(b, e, ByteClass::TagTrail);
                has_lf(b, e, e + w) || at(b, e + w, ByteClass::Is(13))
            },
            None => false,
        }
    } else {
        false
    }
}

/// Matches the opening line of a raw HTML block of the seventh kind; gives
/// the kind.
pub fn html_block_start_7(line: &[u8]) -> (r: Option<usize>)
    ensures
        r is Some <==> html_block_start_7_spec(line@),
        r matches Some(k) ==> k == 7,
{
    let len = line.len();
    if len == 0 || line[0] != 60 {
        return None;
    }
    let e = match opentag_end_exec(line, 1) {
        Some(e) => e,
        None => match closetag_end_exec(line, 1) {
            Some(e) => e,
            None => {
                return None;
            },
        },
    };
    let w = run(line, e, ByteClass::TagTrail);
    let mut k = e;
    while k < w
        invariant
            e <= k <= w <= line@.len(),
            !has_lf(line@, e as int, k as int),
            w == e + run_len(line@, e as int, ByteClass::TagTrail),
            line@.len() > 0 && line@[0] == 60,
            (if opentag_end(line@, 1) is Some {
                opentag_end(line@, 1)
            } else {
                closetag_end(line@, 1)
            }) == Some(e as int),
        decreases w - k,
    {
        if line[k] == 10 {
            proof {
                assert(e <= k < w && line@[k as int] == 10);
            }
            return Some(7);
        }
        proof {
            assert forall|m: int| e <= m < k + 1 implies line@[m] != 10 by {
                if m < k {
                    assert(!(e <= m < k && line@[m] == 10));
                }
            }
        }
        k += 1;
    }
    if at_exec(line, w, ByteClass::Is(13)) {
        Some(7)
    } else {
        None
    }
}

} // verus!
