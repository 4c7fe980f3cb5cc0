//! Delimiter runs: how many emphasis delimiters start at a position, and
//! whether the run can open emphasis, close it, or both.
//!
//! A run is left-flanking when it is not followed by whitespace and either
//! not followed by punctuation or preceded by whitespace or punctuation;
//! right-flanking is the mirror image.  With CJK-friendly emphasis, CJK
//! characters and the variation selectors after them count as
//! punctuation-like neighbours.

use vstd::prelude::*;
use vstd::string::*;
use vstd::utf8::*;

use crate::parser::inlines::cjk::{
    cjk_code, is_cjk, is_cjk_ambiguous_punctuation_candidate, is_cjk_or_ideographic_vs,
    is_cmark_punctuation, is_non_emoji_general_purpose_vs, uc_punctuation, uc_symbol,
};
use crate::arena_tree::{Arena, Id};
use crate::nodes::{Ast, LineColumn, NodeValue, Sourcepos};
use crate::parser::inlines::emphasis::{make_inline, same_record, Delimiter, DelimiterStack};
use crate::parser::inlines::{readable, Scanner};
use crate::parser::options::Options;
use crate::parser::options::Extension;
use crate::strings::{is_white_space, is_white_space_char};
use crate::text::{lemma_ascii_boundary, lemma_encode_ascii_seq, lemma_str_valid, push_char, push_str, substr, utf8};

verus! {

broadcast use vstd::utf8::group_utf8_lib;

/// Unicode whitespace.
pub open spec fn ws(c: char) -> bool {
    is_white_space_char(c)
}

/// Punctuation for emphasis: Unicode punctuation or symbols.
pub open spec fn punct(c: char) -> bool {
    uc_punctuation(c) || uc_symbol(c)
}

/// A CJK character.
pub open spec fn cjk(c: char) -> bool {
    cjk_code(c as u32)
}

/// A general-purpose variation selector other than the emoji one.
pub open spec fn nevs(c: char) -> bool {
    0xfe00 <= c as u32 && c as u32 <= 0xfe0e
}

/// An ideographic variation selector.
pub open spec fn ivs(c: char) -> bool {
    0xe0100 <= c as u32 && c as u32 <= 0xe01ef
}

/// A quotation mark whose width is ambiguous in CJK text.
pub open spec fn ambiguous(c: char) -> bool {
    c as u32 == 0x2018 || c as u32 == 0x2019 || c as u32 == 0x201c || c as u32 == 0x201d
}

/// A byte that a look at a neighbouring character passes over: a UTF-8
/// continuation byte, or `~` when tildes are delimiters.
pub open spec fn passed_over(c: u8, tilde: bool) -> bool {
    is_continuation_byte(c) || (tilde && c == 126)
}

/// The character that the bytes from `j` on start with.
pub open spec fn char_at(b: Seq<u8>, j: int) -> char {
    decode_utf8(b.subrange(j, b.len() as int))[0]
}

/// From `j` back, the first position that is not passed over (or zero).
pub open spec fn back_from(b: Seq<u8>, j: int, tilde: bool) -> int
    decreases j,
{
    if j > 0 && passed_over(b[j], tilde) {
        back_from(b, j - 1, tilde)
    } else {
        j
    }
}

/// From `j` on, the first position that is not a `~` when tildes are
/// delimiters, stopping at the last byte.
pub open spec fn fwd_from(b: Seq<u8>, j: int, tilde: bool) -> int
    decreases b.len() - j,
{
    if 0 <= j < b.len() - 1 && tilde && b[j] == 126 {
        fwd_from(b, j + 1, tilde)
    } else {
        j
    }
}

/// The character before position `pos`, passing over tildes when they are
/// delimiters, and where it starts; a newline, with no position, at the
/// start of the text or when only tildes precede.
pub open spec fn before_char(b: Seq<u8>, pos: int, tilde: bool) -> (char, Option<int>) {
    if pos <= 0 {
        ('\n', None)
    } else {
        let j = back_from(b, pos - 1, tilde);
        let c = char_at(b, j);
        if tilde && c == '~' {
            ('\n', None)
        } else {
            (c, Some(j))
        }
    }
}

/// The character before the character before `pos`, when there is one.
pub open spec fn two_before_char(b: Seq<u8>, pos: int, tilde: bool) -> Option<char> {
    match before_char(b, pos, tilde).1 {
        Some(j) => Some(before_char(b, j, tilde).0),
        None => None,
    }
}

/// The character at `pos`, passing over tildes when they are delimiters;
/// a newline at the end of the text or when only tildes follow.
pub open spec fn after_char(b: Seq<u8>, pos: int, tilde: bool) -> char {
    if pos >= b.len() {
        '\n'
    } else {
        let c = char_at(b, fwd_from(b, pos, tilde));
        if tilde && c == '~' {
            '\n'
        } else {
            c
        }
    }
}

/// How many bytes equal to `d` start at `i`.
pub open spec fn run_of(b: Seq<u8>, i: int, d: u8) -> nat
    decreases b.len() - i,
{
    if 0 <= i < b.len() && b[i] == d {
        1 + run_of(b, i + 1, d)
    } else {
        0
    }
}

/// How many delimiters the run of `d` at `pos` has: one for a quote, else
/// every `d` in a row.
pub open spec fn delim_count(b: Seq<u8>, pos: int, d: u8) -> nat {
    if d == 39 || d == 34 {
        1
    } else {
        run_of(b, pos, d)
    }
}

/// The extension switches that decide flanking.
pub struct FlankRules {
    /// Tildes are delimiters (strikethrough or subscript).
    pub tilde: bool,
    /// `^` delimits superscript.
    pub superscript: bool,
    /// `~` delimits subscript.
    pub subscript: bool,
    /// CJK-friendly emphasis.
    pub cjk_friendly: bool,
}

/// The flanking rules an extension set asks for.
pub open spec fn flank_rules(ext: Extension) -> FlankRules {
    FlankRules {
        tilde: ext.strikethrough || ext.subscript,
        superscript: ext.superscript,
        subscript: ext.subscript,
        cjk_friendly: ext.cjk_friendly_emphasis,
    }
}

/// Whether a run of `n` delimiters `d`, between `before` and `after`, is
/// left-flanking; `two` is the character before `before`.
pub open spec fn left_flanking(
    n: nat,
    d: u8,
    before: char,
    two: Option<char>,
    after: char,
    rules: FlankRules,
) -> bool {
    n > 0 && !ws(after) && (!punct(after) || (rules.superscript && d == 94) || (rules.subscript
        && d == 126) || ws(before) || if !rules.cjk_friendly {
        punct(before)
    } else {
        cjk(after) || if nevs(before) {
            match two {
                Some(t) => cjk(t) || punct(t) || (ambiguous(t) && before == '\u{fe01}'),
                None => false,
            }
        } else {
            cjk(before) || ivs(before) || punct(before)
        }
    })
}

/// The character before `before`, or a newline when there is none.
pub open spec fn or_newline(two: Option<char>) -> char {
    match two {
        Some(t) => t,
        None => '\n',
    }
}

/// Whether a run of `n` delimiters between `before` and `after` is
/// right-flanking; `two` is the character before `before`.
pub open spec fn right_flanking(
    n: nat,
    before: char,
    two: Option<char>,
    after: char,
    rules: FlankRules,
) -> bool {
    n > 0 && !ws(before) && (!(if !rules.cjk_friendly {
        punct(before)
    } else {
        !cjk(after) && if nevs(before) {
            let t = or_newline(two);
            !cjk(t) && punct(t) && !(ambiguous(t) && before == '\u{fe01}')
        } else {
            !cjk(before) && punct(before)
        }
    }) || ws(after) || punct(after))
}

/// The delimiter run of `d` at `pos`: its length, whether it can open
/// emphasis and whether it can close it.  An underscore run inside a word
/// neither opens nor closes; a quote opens only after whitespace, an
/// opening bracket or the like, never after a closing bracket.
pub open spec fn scan_delims_spec(b: Seq<u8>, pos: int, d: u8, rules: FlankRules) -> (nat, bool, bool) {
    let n = delim_count(b, pos, d);
    let bc = before_char(b, pos, rules.tilde);
    let before = bc.0;
    let two = two_before_char(b, pos, rules.tilde);
    let after = after_char(b, pos + n, rules.tilde);
    let left = left_flanking(n, d, before, two, after, rules);
    let right = right_flanking(n, before, two, after, rules);
    if d == 95 {
        (
            n,
            left && (!right || if !(rules.cjk_friendly && nevs(before)) {
                punct(before)
            } else {
                punct(or_newline(two))
            }),
            right && (!left || punct(after)),
        )
    } else if d == 39 || d == 34 {
        (
            n,
            left && (!right || before == '(' || before == '[') && before != ']' && before != ')',
            right,
        )
    } else {
        (n, left, right)
    }
}

/// The character that the bytes of `input` from `j` on start with.
fn char_at_exec(input: &str, j: usize) -> (c: char)
    requires
        j < input.spec_bytes().len(),
        is_char_boundary(input.spec_bytes(), j as int),
    ensures
        c == char_at(input.spec_bytes(), j as int),
{
    let n = input.as_bytes().len();
    let s = substr(input, j, n);
    proof {
        assert(s.spec_bytes().len() > 0);
        if s@.len() == 0 {
            assert(encode_utf8(s@) =~= Seq::<u8>::empty());
        }
        assert(decode_utf8(encode_utf8(s@)) == s@);
    }
    s.get_char(0)
}

/// The character before byte `pos` of `input`, passing over tildes when
/// `tilde` is set, and the position where it starts.
pub fn get_before_char(input: &str, pos: usize, tilde: bool) -> (r: (char, Option<usize>))
    requires
        pos <= input.spec_bytes().len(),
    ensures
        r.0 == before_char(input.spec_bytes(), pos as int, tilde).0,
        (match r.1 {
            Some(j) => Some(j as int),
            None => None,
        }) == before_char(input.spec_bytes(), pos as int, tilde).1,
        r.1 matches Some(j) ==> j < pos,
{
    let ghost b = input.spec_bytes();
    if pos == 0 {
        return ('\n', None);
    }
    let bytes = input.as_bytes();
    let mut j = pos - 1;
    while j > 0 && (bytes[j] >> 6 == 2 || (tilde && bytes[j] == 126u8))
        invariant
            b == bytes@,
            0 <= j < pos <= b.len(),
            back_from(b, j as int, tilde) == back_from(b, pos - 1, tilde),
        decreases j,
    {
        let x = bytes[j];
        assert((x >> 6 == 2) <==> (0x80 <= x && x <= 0xbf)) by (bit_vector);
        j = j - 1;
    }
    let x = bytes[j];
    assert((x >> 6 == 2) <==> (0x80 <= x && x <= 0xbf)) by (bit_vector);
    proof {
        lemma_str_valid(input);
        assert(back_from(b, j as int, tilde) == j);
    }
    let c = char_at_exec(input, j);
    if tilde && c == '~' {
        ('\n', None)
    } else {
        (c, Some(j))
    }
}

/// The character at byte `pos` of `input`, passing over tildes when
/// `tilde` is set.
fn get_after_char(input: &str, pos: usize, tilde: bool) -> (c: char)
    requires
        pos <= input.spec_bytes().len(),
        pos == 0 || pos == input.spec_bytes().len() || input.spec_bytes()[pos - 1] < 0x80,
    ensures
        c == after_char(input.spec_bytes(), pos as int, tilde),
{
    let ghost b = input.spec_bytes();
    let bytes = input.as_bytes();
    if pos >= bytes.len() {
        return '\n';
    }
    let mut j = pos;
    while j < bytes.len() - 1 && tilde && bytes[j] == 126u8
        invariant
            b == bytes@,
            pos <= j < b.len(),
            j == 0 || b[j - 1] < 0x80,
            fwd_from(b, j as int, tilde) == fwd_from(b, pos as int, tilde),
        decreases b.len() - j,
    {
        j = j + 1;
    }
    proof {
        lemma_str_valid(input);
        lemma_ascii_boundary(b, j as int);
    }
    let c = char_at_exec(input, j);
    if tilde && c == '~' {
        '\n'
    } else {
        c
    }
}

impl Scanner {
    /// Scans the run of delimiter `d` at the scanner's position, moving past
    /// it; gives the run's length and whether it can open and close
    /// emphasis (see `scan_delims_spec`).
    pub fn scan_delims(&mut self, input: &str, d: u8, ext: &Extension) -> (r: (usize, bool, bool))
        requires
            old(self).pos < input.spec_bytes().len(),
            input.spec_bytes()[old(self).pos as int] == d,
            d < 0x80,
            d != 0,
            d != 39 && d != 34 ==> readable(
                input.spec_bytes(),
                old(self).pos + run_of(input.spec_bytes(), old(self).pos as int, d),
            ),
        ensures
            (r.0 as nat, r.1, r.2) == scan_delims_spec(
                input.spec_bytes(),
                old(self).pos as int,
                d,
                flank_rules(*ext),
            ),
            final(self).pos == old(self).pos + r.0,
    {
        let ghost b = input.spec_bytes();
        let ghost start = self.pos;
        let len = input.as_bytes().len();
        let tilde = ext.strikethrough || ext.subscript;
        let cjk_friendly = ext.cjk_friendly_emphasis;
        let (before_char, before_char_pos) = get_before_char(input, self.pos, tilde);
        let mut numdelims: usize = 0;
        if d == 39u8 || d == 34u8 {
            numdelims = 1;
            self.pos = self.pos + 1;
        } else {
            while self.peek_byte(input) == Some(d)
                invariant
                    b == input.spec_bytes(),
                    b.len() == len,
                    d != 0,
                    start < b.len(),
                    b[start as int] == d,
                    self.pos == start + numdelims,
                    self.pos <= b.len(),
                    forall|i: int| start <= i < self.pos ==> b[i] == d,
                    start + numdelims + run_of(b, self.pos as int, d) == start + run_of(b, start as int, d),
                    readable(b, start + run_of(b, start as int, d)),
                decreases b.len() - self.pos,
            {
                numdelims = numdelims + 1;
                self.pos = self.pos + 1;
            }
        }
        proof {
            assert(numdelims >= 1);
            assert(b[self.pos - 1 as int] == d);
        }
        let after_char = get_after_char(input, self.pos, tilde);
        let two_before_char: Option<char> = if is_non_emoji_general_purpose_vs(before_char) {
            match before_char_pos {
                Some(p) => Some(get_before_char(input, p, tilde).0),
                None => None,
            }
        } else {
            None
        };
        let two_or_newline = match two_before_char {
            Some(t) => t,
            None => '\n',
        };
        let left_flanking = numdelims > 0 && !is_white_space(after_char) && (
        !is_cmark_punctuation(after_char) || (ext.superscript && d == 94u8) || (ext.subscript && d
            == 126u8) || is_white_space(before_char) || if !cjk_friendly {
            is_cmark_punctuation(before_char)
        } else {
            is_cjk(after_char) || if is_non_emoji_general_purpose_vs(before_char) {
                match two_before_char {
                    Some(t) => is_cjk(t) || is_cmark_punctuation(t) || (
                    is_cjk_ambiguous_punctuation_candidate(t) && before_char == '\u{fe01}'),
                    None => false,
                }
            } else {
                is_cjk_or_ideographic_vs(before_char) || is_cmark_punctuation(before_char)
            }
        });
        let right_flanking = numdelims > 0 && !is_white_space(before_char) && (!(if !cjk_friendly {
            is_cmark_punctuation(before_char)
        } else {
            !is_cjk(after_char) && if is_non_emoji_general_purpose_vs(before_char) {
                !is_cjk(two_or_newline) && is_cmark_punctuation(two_or_newline) && !(
                is_cjk_ambiguous_punctuation_candidate(two_or_newline) && before_char == '\u{fe01}')
            } else {
                !is_cjk(before_char) && is_cmark_punctuation(before_char)
            }
        }) || is_white_space(after_char) || is_cmark_punctuation(after_char));
        if d == 95u8 {
            let can_open = left_flanking && (!right_flanking || if !(cjk_friendly
                && is_non_emoji_general_purpose_vs(before_char)) {
                is_cmark_punctuation(before_char)
            } else {
                is_cmark_punctuation(two_or_newline)
            });
            (numdelims, can_open, right_flanking && (!left_flanking || is_cmark_punctuation(
                after_char,
            )))
        } else if d == 39u8 || d == 34u8 {
            (
                numdelims,
                left_flanking && (!right_flanking || before_char == '(' || before_char == '[')
                    && before_char != ']' && before_char != ')',
                right_flanking,
            )
        } else {
            (numdelims, left_flanking, right_flanking)
        }
    }
}


/// A run of `d` lies within the text and is made of `d`.
pub proof fn lemma_run_of_bytes(b: Seq<u8>, i: int, d: u8)
    requires
        0 <= i,
    ensures
        run_of(b, i, d) > 0 ==> i + run_of(b, i, d) <= b.len(),
        forall|k: int| i <= k < i + run_of(b, i, d) ==> b[k] == d,
    decreases b.len() - i,
{
    if 0 <= i < b.len() && b[i] == d {
        lemma_run_of_bytes(b, i + 1, d);
    }
}

/// A run of delimiters takes at least one byte, within the text, each of
/// them the delimiter.
proof fn lemma_delim_run(b: Seq<u8>, pos: int, d: u8)
    requires
        0 <= pos < b.len(),
        b[pos] == d,
    ensures
        delim_count(b, pos, d) >= 1,
        pos + delim_count(b, pos, d) <= b.len(),
        forall|k: int| pos <= k < pos + delim_count(b, pos, d) ==> b[k] == d,
{
    lemma_run_of_bytes(b, pos, d);
}

/// The characters of an ASCII text are its bytes.
proof fn lemma_ascii_text_chars(t: &str)
    requires
        forall|i: int| 0 <= i < t.spec_bytes().len() ==> t.spec_bytes()[i] < 0x80,
    ensures
        t@ == t.spec_bytes().map_values(|x: u8| x as char),
{
    let bytes = t.spec_bytes();
    let m = bytes.map_values(|x: u8| x as char);
    assert(is_ascii_chars(m));
    lemma_encode_ascii_seq(m);
    assert(encode_utf8(m) =~= bytes);
    encode_utf8_decode_utf8(m);
    encode_utf8_decode_utf8(t@);
}

/// Where an inline node made from bytes `start` to `end` of a line sits:
/// on line `line`, its columns counted from one and moved by the two
/// offsets.
pub open spec fn inline_span(line: usize, column_offset: isize, line_offset: usize, start: int, end: int) -> Sourcepos {
    Sourcepos {
        start: LineColumn { line, column: (start + 1 + column_offset + line_offset) as usize },
        end: LineColumn { line, column: (end + 1 + column_offset + line_offset) as usize },
    }
}

/// The text a run of `n` delimiters `d` at `pos` of `b` stands for: with
/// smart punctuation a quote becomes a curly one (a closing double quote
/// where the run can close), otherwise the run itself.
pub open spec fn delim_text(b: Seq<u8>, pos: int, n: int, d: u8, smart: bool, can_close: bool) -> Seq<char> {
    if d == 39 && smart {
        seq!['\u{2019}']
    } else if d == 34 && smart {
        if can_close {
            seq!['\u{201d}']
        } else {
            seq!['\u{201c}']
        }
    } else {
        b.subrange(pos, pos + n).map_values(|x: u8| x as char)
    }
}

/// Whether the run goes on the delimiter stack: it can open or close, a
/// quote only with smart punctuation, and a strikethrough run only of one
/// or two tildes.
pub open spec fn delim_pushed(d: u8, n: int, can_open: bool, can_close: bool, o: Options) -> bool {
    &&& can_open || can_close
    &&& !(d == 39 || d == 34) || o.parse.smart
    &&& d == 126 && o.extension.strikethrough ==> n <= 2
}

/// Handles a run of the delimiter `d` at the scanner's position: scans it
/// (see `scan_delims_spec`), makes a text node of what it stands for (see
/// `delim_text`) spanning the run, and pushes the run on the delimiter
/// stack where `delim_pushed` says so, at the position just past it, with
/// the byte length of its text.  The node is given back.
pub fn handle_delim(
    scanner: &mut Scanner,
    stack: &mut DelimiterStack,
    arena: &mut Arena<Ast>,
    input: &str,
    d: u8,
    options: &Options,
    line: usize,
    column_offset: isize,
    line_offset: usize,
) -> (r: Id)
    requires
        old(scanner).pos < input.spec_bytes().len(),
        input.spec_bytes()[old(scanner).pos as int] == d,
        d < 0x80,
        d != 0,
        d != 39 && d != 34 ==> readable(
            input.spec_bytes(),
            old(scanner).pos + run_of(input.spec_bytes(), old(scanner).pos as int, d),
        ),
        old(arena).wf(),
        old(arena).nodes().len() < usize::MAX,
        old(stack).wf(),
        old(stack).entries().len() < usize::MAX,
        old(stack).live().len() > 0 ==> old(stack).entries()[old(stack).live().last() as int].position
            <= old(scanner).pos,
        input.spec_bytes().len() <= isize::MAX,
        line_offset <= isize::MAX,
        0 <= old(scanner).pos + 1 + column_offset + line_offset,
        input.spec_bytes().len() + 1 + column_offset + line_offset <= isize::MAX,
    ensures
        ({
            let b = input.spec_bytes();
            let pos = old(scanner).pos as int;
            let (n, can_open, can_close) = scan_delims_spec(b, pos, d, flank_rules(options.extension));
            let text = delim_text(b, pos, n as int, d, options.parse.smart, can_close);
            &&& final(scanner).pos == pos + n
            &&& final(arena).wf()
            &&& r.0 == old(arena).nodes().len()
            &&& final(arena).nodes().len() == old(arena).nodes().len() + 1
            &&& forall|j: int| 0 <= j < old(arena).nodes().len() ==> #[trigger] final(arena).nodes()[j] == old(arena).nodes()[j]
            &&& final(arena).nodes()[r.0 as int].parent_link() is None
            &&& final(arena).nodes()[r.0 as int].value().value matches NodeValue::Text(t) && t@ == text
            &&& final(arena).nodes()[r.0 as int].value().sourcepos == inline_span(line, column_offset, line_offset, pos, pos + n - 1)
            &&& final(stack).wf()
            &&& if delim_pushed(d, n as int, can_open, can_close, *options) {
                &&& final(stack).live() == old(stack).live().push(old(stack).entries().len() as usize)
                &&& final(stack).entries().len() == old(stack).entries().len() + 1
                &&& forall|j: int| 0 <= j < old(stack).entries().len() ==> same_record(
                    #[trigger] final(stack).entries()[j],
                    old(stack).entries()[j],
                )
                &&& final(stack).entries()[old(stack).entries().len() as int] == (Delimiter {
                    inl: r,
                    position: (pos + n) as usize,
                    length: (if (d == 39 || d == 34) && options.parse.smart { 3 } else { n }) as usize,
                    delim_byte: d,
                    can_open,
                    can_close,
                    prev: old(stack).top(),
                    next: None,
                })
            } else {
                *final(stack) == *old(stack)
            }
        }),
{
    let ghost b = input.spec_bytes();
    let start = scanner.pos;
    let (numdelims, can_open, can_close) = scanner.scan_delims(input, d, &options.extension);
    proof {
        lemma_delim_run(b, start as int, d);
    }
    let pos = scanner.pos;
    let smart = options.parse.smart;
    let mut contents = String::new();
    let length: usize;
    if d == 39u8 && smart {
        push_char(&mut contents, '\u{2019}');
        length = 3;
    } else if d == 34u8 && smart {
        if can_close {
            push_char(&mut contents, '\u{201d}');
        } else {
            push_char(&mut contents, '\u{201c}');
        }
        length = 3;
    } else {
        proof {
            lemma_str_valid(input);
            lemma_ascii_boundary(b, start as int);
            lemma_ascii_boundary(b, pos as int);
        }
        let run = substr(input, start, pos);
        proof {
            lemma_ascii_text_chars(run);
        }
        push_str(&mut contents, run);
        length = numdelims;
    }
    let sc = (start as isize) + 1 + column_offset + (line_offset as isize);
    let ec = ((pos - 1) as isize) + 1 + column_offset + (line_offset as isize);
    let sp = Sourcepos {
        start: LineColumn { line, column: sc as usize },
        end: LineColumn { line, column: ec as usize },
    };
    let inl = make_inline(arena, NodeValue::Text(contents), sp);
    let strike_ok = if d == 126u8 && options.extension.strikethrough {
        numdelims <= 2
    } else {
        true
    };
    if (can_open || can_close) && (!(d == 39u8 || d == 34u8) || smart) && strike_ok {
        stack.push_delimiter(d, can_open, can_close, inl, pos, length);
    }
    inl
}

} // verus!
