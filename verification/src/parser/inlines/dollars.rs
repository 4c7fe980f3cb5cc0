//! Inline math: `$…$`, `$$…$$`, and code math `` $`…`$ ``.
//!
//! A run of dollar signs opens math when a closing run of as many follows;
//! single-dollar math may not start or end with whitespace, may hold
//! backslash-escaped dollars, and may not be followed by a digit.  Where
//! nothing closes, the dollars stay text.

use vstd::prelude::*;
use vstd::string::*;
use vstd::utf8::*;

use crate::arena_tree::{Arena, Id};
use crate::ctype::{is_digit_byte, is_space_byte, isdigit, isspace};
use crate::nodes::{Ast, LineColumn, NodeValue, Sourcepos};
use crate::parser::inlines::code_span::no_nul_from;
use crate::parser::inlines::delims::{inline_span, lemma_run_of_bytes, run_of};
use crate::parser::inlines::emphasis::make_inline;
use crate::parser::inlines::{readable, Scanner};
use crate::parser::math::NodeMath;
use crate::parser::options::Options;
use crate::scanners::opt_int;
use crate::strings::{count_newlines, cow_into_owned, last_line_start, lemma_last_line_start_le, line_endings, normalize_code, normalize_code_bytes};
use crate::text::{lemma_ascii_boundary, lemma_str_valid, push_str, substr, utf8};

verus! {

broadcast use vstd::utf8::group_utf8_lib;

/// The longest run of dollar signs that opens math.
pub const MAX_MATH_DOLLARS: usize = 2;

/// The first dollar sign at or after `i`, or the end.
pub open spec fn next_dollar(b: Seq<u8>, i: int) -> int
    decreases b.len() - i,
{
    if i < 0 || i >= b.len() || b[i] == 36 {
        i
    } else {
        next_dollar(b, i + 1)
    }
}

/// The dollar signs from `i` on, at most `limit` of them.
pub open spec fn dollars_upto(b: Seq<u8>, i: int, limit: nat) -> nat
    decreases limit,
{
    if limit == 0 || i < 0 || i >= b.len() || b[i] != 36 {
        0
    } else {
        1 + dollars_upto(b, i + 1, (limit - 1) as nat)
    }
}

/// Where math opened by `n` dollar signs, its text starting at `i`, ends:
/// just past the first run of `n` dollar signs.  With one dollar sign, a
/// dollar sign after a backslash does not count, whitespace before the
/// closing run or a digit after it ends the search without math.
pub open spec fn closing_dollar(b: Seq<u8>, i: int, n: nat) -> Option<int>
    decreases b.len() - i,
{
    let j = next_dollar(b, i);
    if i < 1 || n == 0 || j >= b.len() {
        None
    } else if n == 1 && is_space_byte(b[j - 1]) {
        None
    } else if n == 1 && b[j - 1] == 92 {
        if j + 1 > i {
            closing_dollar(b, j + 1, n)
        } else {
            None
        }
    } else {
        let k = dollars_upto(b, j, n);
        if n == 1 && j + k < b.len() && is_digit_byte(b[j + k]) {
            None
        } else if k == n {
            Some(j + k)
        } else if i < j + k <= b.len() {
            closing_dollar(b, j + k, n)
        } else {
            None
        }
    }
}

/// Where dollar math of `n` dollar signs whose text starts at `i` ends:
/// none when dollar math is off, the run is too long, or a single dollar
/// sign is followed by whitespace.
pub open spec fn scan_closing_dollar(b: Seq<u8>, i: int, n: nat, math_dollars: bool) -> Option<int> {
    if !math_dollars || n > MAX_MATH_DOLLARS {
        None
    } else if n == 1 && i < b.len() && is_space_byte(b[i]) {
        None
    } else {
        closing_dollar(b, i, n)
    }
}

/// Where code math whose text starts at `i` ends: just past the first
/// dollar sign after a backtick.
pub open spec fn closing_code_dollar(b: Seq<u8>, i: int) -> Option<int>
    decreases b.len() - i,
{
    let j = next_dollar(b, i);
    if i < 1 || j >= b.len() {
        None
    } else if b[j - 1] == 96 {
        Some(j + 1)
    } else if j + 1 > i {
        closing_code_dollar(b, j + 1)
    } else {
        None
    }
}

/// Whether the dollar sign at `pos` opens code math: it is alone and a
/// backtick follows, with code math on.
pub open spec fn code_math_at(b: Seq<u8>, pos: int, o: Options) -> bool {
    &&& run_of(b, pos, 36) == 1
    &&& o.extension.math_code
    &&& pos + 1 < b.len()
    &&& b[pos + 1] == 96
}

/// The length of the fence of the math opened at `pos`.
pub open spec fn fence_at(b: Seq<u8>, pos: int, o: Options) -> int {
    if code_math_at(b, pos, o) {
        2
    } else {
        run_of(b, pos, 36) as int
    }
}

/// Where the math opened at `pos` ends, if it is math: its closing fence
/// is found and the span holds more than its two fences.
pub open spec fn dollar_math_end(b: Seq<u8>, pos: int, o: Options) -> Option<int> {
    let od = run_of(b, pos, 36);
    let fence = fence_at(b, pos, o);
    let e = if code_math_at(b, pos, o) {
        closing_code_dollar(b, pos + 2)
    } else {
        scan_closing_dollar(b, pos + od, od, o.extension.math_dollars)
    };
    match e {
        Some(end) => if end - pos >= fence * 2 + 1 {
            Some(end)
        } else {
            None
        },
        None => None,
    }
}

/// The literal of math from `pos` to `end`: the text between the fences,
/// normalised like code for code math and single-dollar math.
pub open spec fn dollar_math_literal(b: Seq<u8>, pos: int, end: int, o: Options) -> Seq<u8> {
    let fence = fence_at(b, pos, o);
    let t = b.subrange(pos + fence, end - fence);
    if code_math_at(b, pos, o) || run_of(b, pos, 36) == 1 {
        normalize_code_bytes(t)
    } else {
        t
    }
}

proof fn lemma_next_dollar(b: Seq<u8>, i: int)
    requires
        0 <= i,
    ensures
        i <= next_dollar(b, i),
        next_dollar(b, i) < b.len() ==> b[next_dollar(b, i)] == 36,
        next_dollar(b, i) >= b.len() ==> next_dollar(b, i) == (if i >= b.len() {
            i
        } else {
            b.len() as int
        }),
        forall|k: int| i <= k < next_dollar(b, i) && k < b.len() ==> b[k] != 36,
    decreases b.len() - i,
{
    if i < b.len() && b[i] != 36 {
        lemma_next_dollar(b, i + 1);
    }
}

proof fn lemma_dollars_upto(b: Seq<u8>, i: int, limit: nat)
    requires
        0 <= i,
    ensures
        dollars_upto(b, i, limit) <= limit,
        dollars_upto(b, i, limit) > 0 ==> i + dollars_upto(b, i, limit) <= b.len(),
        forall|k: int| i <= k < i + dollars_upto(b, i, limit) ==> b[k] == 36,
    decreases limit,
{
    if !(limit == 0 || i >= b.len() || b[i] != 36) {
        lemma_dollars_upto(b, i + 1, (limit - 1) as nat);
    }
}

/// A closing run found by `closing_dollar` is `n` dollar signs within the
/// text, past where the search began.
proof fn lemma_closing_dollar(b: Seq<u8>, i: int, n: nat)
    ensures
        closing_dollar(b, i, n) matches Some(e) ==> i + n <= e <= b.len() && forall|k: int|
            e - n <= k < e ==> b[k] == 36,
    decreases b.len() - i,
{
    let j = next_dollar(b, i);
    if i < 1 || n == 0 || j >= b.len() {
    } else {
        lemma_next_dollar(b, i);
        if n == 1 && is_space_byte(b[j - 1]) {
        } else if n == 1 && b[j - 1] == 92 {
            if j + 1 > i {
                lemma_closing_dollar(b, j + 1, n);
            }
        } else {
            let k = dollars_upto(b, j, n);
            lemma_dollars_upto(b, j, n);
            if n == 1 && j + k < b.len() && is_digit_byte(b[j + k]) {
            } else if k == n {
            } else if i < j + k <= b.len() {
                lemma_closing_dollar(b, j + k, n);
            }
        }
    }
}

/// A closing found by `closing_code_dollar` is a backtick and a dollar
/// sign within the text, past where the search began.
proof fn lemma_closing_code_dollar(b: Seq<u8>, i: int)
    ensures
        closing_code_dollar(b, i) matches Some(e) ==> i + 1 <= e <= b.len() && b[e - 1] == 36 && b[e - 2] == 96,
    decreases b.len() - i,
{
    let j = next_dollar(b, i);
    if i < 1 || j >= b.len() {
    } else {
        lemma_next_dollar(b, i);
        if b[j - 1] == 96 {
        } else if j + 1 > i {
            lemma_closing_code_dollar(b, j + 1);
        }
    }
}

impl Scanner {
    /// Moves to the next dollar sign or the end.
    fn skip_to_dollar(&mut self, input: &str)
        requires
            1 <= old(self).pos <= input.spec_bytes().len(),
            no_nul_from(input.spec_bytes(), old(self).pos as int),
        ensures
            final(self).pos == next_dollar(input.spec_bytes(), old(self).pos as int),
    {
        let ghost b = input.spec_bytes();
        let ghost p0 = self.pos as int;
        proof {
            lemma_next_dollar(b, p0);
        }
        let len = input.as_bytes().len();
        while self.pos < len && input.as_bytes()[self.pos] != 36u8
            invariant
                len == b.len(),
                b == input.spec_bytes(),
                p0 <= self.pos <= b.len(),
                next_dollar(b, self.pos as int) == next_dollar(b, p0),
                no_nul_from(b, p0),
            decreases b.len() - self.pos,
        {
            self.pos = self.pos + 1;
        }
    }

    /// Scans for the end of math opened by `n` dollar signs, the scanner
    /// standing just past them: where the closing run ends (the scanner
    /// then stands there), or none (see `scan_closing_dollar`).
    pub fn scan_to_closing_dollar(&mut self, input: &str, n: usize, options: &Options) -> (r: Option<usize>)
        requires
            n >= 1,
            1 <= old(self).pos <= input.spec_bytes().len(),
            no_nul_from(input.spec_bytes(), old(self).pos as int),
        ensures
            opt_int(r) == scan_closing_dollar(input.spec_bytes(), old(self).pos as int, n as nat, options.extension.math_dollars),
            r matches Some(e) ==> final(self).pos == e,
    {
        let ghost b = input.spec_bytes();
        if !options.extension.math_dollars || n > MAX_MATH_DOLLARS {
            return None;
        }
        if n == 1 {
            match self.peek_byte(input) {
                Some(c) => {
                    if isspace(c) {
                        return None;
                    }
                },
                None => {},
            }
        }
        let len = input.as_bytes().len();
        let ghost target = closing_dollar(b, self.pos as int, n as nat);
        loop
            invariant
                b == input.spec_bytes(),
                len == b.len(),
                1 <= self.pos <= b.len(),
                1 <= n <= 2,
                closing_dollar(b, self.pos as int, n as nat) == target,
                no_nul_from(b, old(self).pos as int),
                old(self).pos <= self.pos,
                target == scan_closing_dollar(b, old(self).pos as int, n as nat, options.extension.math_dollars),
            decreases b.len() - self.pos,
        {
            let ghost i = self.pos as int;
            proof {
                lemma_next_dollar(b, i);
            }
            self.skip_to_dollar(input);
            if self.pos >= len {
                return None;
            }
            let j = self.pos;
            let c = input.as_bytes()[j - 1];
            if n == 1 && isspace(c) {
                return None;
            }
            if n == 1 && c == 92u8 {
                self.pos = j + 1;
                continue;
            }
            let ghost k = dollars_upto(b, j as int, n as nat);
            proof {
                lemma_dollars_upto(b, j as int, n as nat);
            }
            let mut count: usize = 0;
            while count < n && self.pos < len && input.as_bytes()[self.pos] == 36u8
                invariant
                    b == input.spec_bytes(),
                    len == b.len(),
                    j <= self.pos <= b.len(),
                    count == self.pos - j,
                    count <= n,
                    count + dollars_upto(b, self.pos as int, (n - count) as nat) == k,
                decreases n - count,
            {
                self.pos = self.pos + 1;
                count = count + 1;
            }
            proof {
                if count < n && self.pos < len {
                    assert(dollars_upto(b, self.pos as int, (n - count) as nat) == 0);
                }
                assert(count == k);
            }
            if n == 1 && self.pos < len && isdigit(input.as_bytes()[self.pos]) {
                return None;
            }
            if count == n {
                return Some(self.pos);
            }
        }
    }

    /// Scans for the end of code math, the scanner standing just past its
    /// opening `` $` ``: just past the first dollar sign after a backtick
    /// (the scanner then stands there), or none.
    pub fn scan_to_closing_code_dollar(&mut self, input: &str) -> (r: Option<usize>)
        requires
            1 <= old(self).pos <= input.spec_bytes().len(),
            no_nul_from(input.spec_bytes(), old(self).pos as int),
        ensures
            opt_int(r) == closing_code_dollar(input.spec_bytes(), old(self).pos as int),
            r matches Some(e) ==> final(self).pos == e,
    {
        let ghost b = input.spec_bytes();
        let len = input.as_bytes().len();
        let ghost target = closing_code_dollar(b, self.pos as int);
        loop
            invariant
                b == input.spec_bytes(),
                len == b.len(),
                1 <= self.pos <= b.len(),
                closing_code_dollar(b, self.pos as int) == target,
                no_nul_from(b, old(self).pos as int),
                old(self).pos <= self.pos,
                target == closing_code_dollar(b, old(self).pos as int),
            decreases b.len() - self.pos,
        {
            proof {
                lemma_next_dollar(b, self.pos as int);
            }
            self.skip_to_dollar(input);
            if self.pos >= len {
                return None;
            }
            let c = input.as_bytes()[self.pos - 1];
            self.pos = self.pos + 1;
            if c == 96u8 {
                return Some(self.pos);
            }
        }
    }
}


/// The newlines in math from `pos` to `end`, counted from its start up to
/// its closing fence, and the length of its last line there.
pub open spec fn math_newlines(b: Seq<u8>, pos: int, end: int, o: Options) -> (nat, int) {
    let seg = b.subrange(pos, end - fence_at(b, pos, o));
    (line_endings(seg, seg.len() as int), seg.len() - last_line_start(seg, seg.len() as int))
}

/// Where math from `pos` to `end` sits, on line `line`: the bytes it spans,
/// and, when it takes more than one line, ending on its last line, at that
/// line's offset in `plo` plus the length of the line and of the fence.
pub open spec fn math_span(
    b: Seq<u8>,
    pos: int,
    end: int,
    o: Options,
    line: usize,
    column_offset: isize,
    line_offset: usize,
    plo: Seq<usize>,
) -> Sourcepos {
    let sp = inline_span(line, column_offset, line_offset, pos, end - 1);
    let (nl, since) = math_newlines(b, pos, end, o);
    if nl > 0 {
        Sourcepos {
            start: sp.start,
            end: LineColumn {
                line: (line + nl) as usize,
                column: (plo[nl as int] + since + fence_at(b, pos, o)) as usize,
            },
        }
    } else {
        sp
    }
}

/// Whether the line and column arithmetic for math from `pos` to `end`
/// fits: the lines after it exist in `plo`, and the numbers stay within a
/// `usize`.
pub open spec fn math_span_fits(b: Seq<u8>, pos: int, end: int, o: Options, line: usize, plo: Seq<usize>) -> bool {
    let (nl, since) = math_newlines(b, pos, end, o);
    nl > 0 ==> line + nl <= usize::MAX && nl < plo.len() && plo[nl as int] + since + fence_at(b, pos, o)
        <= usize::MAX
}

/// Whether dollar signs can open math at all.
pub open spec fn math_on(o: Options) -> bool {
    o.extension.math_dollars || o.extension.math_code
}

/// A text node of the bytes from `a` to `e` of `input`, all dollar signs
/// or other ASCII, spanning them.
fn text_node(
    arena: &mut Arena<Ast>,
    input: &str,
    a: usize,
    e: usize,
    line: usize,
    column_offset: isize,
    line_offset: usize,
) -> (r: Id)
    requires
        old(arena).wf(),
        old(arena).nodes().len() < usize::MAX,
        a < e <= input.spec_bytes().len(),
        forall|k: int| a <= k < e ==> input.spec_bytes()[k] < 0x80,
        input.spec_bytes().len() <= isize::MAX,
        line_offset <= isize::MAX,
        0 <= a + 1 + column_offset + line_offset,
        input.spec_bytes().len() + 1 + column_offset + line_offset <= isize::MAX,
    ensures
        final(arena).wf(),
        r.0 == old(arena).nodes().len(),
        final(arena).nodes().len() == old(arena).nodes().len() + 1,
        forall|j: int| 0 <= j < old(arena).nodes().len() ==> #[trigger] final(arena).nodes()[j] == old(arena).nodes()[j],
        final(arena).nodes()[r.0 as int].parent_link() is None,
        final(arena).nodes()[r.0 as int].value().value matches NodeValue::Text(t) && t@ == input.spec_bytes().subrange(
            a as int,
            e as int,
        ).map_values(|x: u8| x as char),
        final(arena).nodes()[r.0 as int].value().sourcepos == inline_span(line, column_offset, line_offset, a as int, e - 1),
{
    let ghost b = input.spec_bytes();
    proof {
        lemma_str_valid(input);
        lemma_ascii_boundary(b, a as int);
        lemma_ascii_boundary(b, e as int);
    }
    let t = substr(input, a, e);
    proof {
        let tb = t.spec_bytes();
        let m = tb.map_values(|x: u8| x as char);
        assert forall|i: int| 0 <= i < m.len() implies '\0' <= #[trigger] m[i] <= '\u{7f}' by {
            assert(tb[i] == b[a + i]);
        }
        crate::text::lemma_encode_ascii_seq(m);
        assert(encode_utf8(m) =~= tb);
        encode_utf8_decode_utf8(m);
        encode_utf8_decode_utf8(t@);
    }
    let mut s = String::new();
    push_str(&mut s, t);
    let sc = (a as isize) + 1 + column_offset + (line_offset as isize);
    let ec = ((e - 1) as isize) + 1 + column_offset + (line_offset as isize);
    let sp = Sourcepos { start: LineColumn { line, column: sc as usize }, end: LineColumn { line, column: ec as usize } };
    make_inline(arena, NodeValue::Text(s), sp)
}

/// Handles dollar signs at the scanner's position.  With math off, one
/// dollar sign becomes text.  Otherwise the run opens math (code math for
/// a lone dollar sign before a backtick); where `dollar_math_end` finds its
/// end, a math node of its literal (see `dollar_math_literal`) spans it,
/// ending on its last line when it takes several (see `math_span`), and
/// the line and column offset move to that line.  Where it finds none, the
/// opening stays text: one dollar sign for code math, else the run.
pub fn handle_dollars(
    scanner: &mut Scanner,
    arena: &mut Arena<Ast>,
    input: &str,
    options: &Options,
    line: &mut usize,
    column_offset: &mut isize,
    line_offset: usize,
    parent_line_offsets: &Vec<usize>,
) -> (r: Id)
    requires
        old(scanner).pos < input.spec_bytes().len(),
        input.spec_bytes()[old(scanner).pos as int] == 36,
        no_nul_from(input.spec_bytes(), old(scanner).pos as int),
        old(arena).wf(),
        old(arena).nodes().len() < usize::MAX,
        input.spec_bytes().len() <= isize::MAX,
        line_offset <= isize::MAX,
        0 <= old(scanner).pos + 1 + *old(column_offset) + line_offset,
        input.spec_bytes().len() + 1 + *old(column_offset) + line_offset <= isize::MAX,
        math_on(*options) ==> (dollar_math_end(input.spec_bytes(), old(scanner).pos as int, *options) matches Some(end)
            ==> math_span_fits(input.spec_bytes(), old(scanner).pos as int, end, *options, *old(line), parent_line_offsets@)),
    ensures
        final(arena).wf(),
        r.0 == old(arena).nodes().len(),
        final(arena).nodes().len() == old(arena).nodes().len() + 1,
        forall|j: int| 0 <= j < old(arena).nodes().len() ==> #[trigger] final(arena).nodes()[j] == old(arena).nodes()[j],
        final(arena).nodes()[r.0 as int].parent_link() is None,
        ({
            let b = input.spec_bytes();
            let pos = old(scanner).pos as int;
            let o = *options;
            let a = final(arena).nodes()[r.0 as int].value();
            let co = *old(column_offset);
            let ln = *old(line);
            if !math_on(o) {
                &&& final(scanner).pos == pos + 1
                &&& a.value matches NodeValue::Text(t) && t@ == seq!['$']
                &&& a.sourcepos == inline_span(ln, co, line_offset, pos, pos)
                &&& *final(line) == ln && *final(column_offset) == co
            } else {
                match dollar_math_end(b, pos, o) {
                    Some(end) => {
                        let (nl, since) = math_newlines(b, pos, end, o);
                        &&& final(scanner).pos == end
                        &&& a.value matches NodeValue::Math(m) && m.dollar_math == !code_math_at(b, pos, o)
                            && m.display_math == (run_of(b, pos, 36) == 2) && utf8(m.literal@)
                            == dollar_math_literal(b, pos, end, o)
                        &&& a.sourcepos == math_span(b, pos, end, o, ln, co, line_offset, parent_line_offsets@)
                        &&& if nl > 0 {
                            *final(line) == ln + nl && *final(column_offset) == since + fence_at(b, pos, o) - end
                        } else {
                            *final(line) == ln && *final(column_offset) == co
                        }
                    },
                    None => {
                        let k = if code_math_at(b, pos, o) { 1 } else { fence_at(b, pos, o) };
                        &&& final(scanner).pos == pos + k
                        &&& a.value matches NodeValue::Text(t) && t@ == Seq::new(k as nat, |i: int| '$')
                        &&& a.sourcepos == inline_span(ln, co, line_offset, pos, pos + k - 1)
                        &&& *final(line) == ln && *final(column_offset) == co
                    },
                }
            }
        }),
{
    let ghost b = input.spec_bytes();
    let start = scanner.pos;
    let len = input.as_bytes().len();
    let line0 = *line;
    let co0 = *column_offset;
    proof {
        lemma_run_of_bytes(b, start as int, 36);
    }
    if !(options.extension.math_dollars || options.extension.math_code) {
        scanner.pos = start + 1;
        let r = text_node(arena, input, start, start + 1, line0, co0, line_offset);
        proof {
            assert(b.subrange(start as int, start + 1).map_values(|x: u8| x as char) =~= seq!['$']);
        }
        return r;
    }
    let od = scanner.take_while(input, 36u8);
    let mut code = false;
    if od == 1 && options.extension.math_code && scanner.pos < len && input.as_bytes()[scanner.pos] == 96u8 {
        code = true;
        scanner.pos = scanner.pos + 1;
    }
    let fence: usize = if code {
        2
    } else {
        od
    };
    let e = if code {
        scanner.scan_to_closing_code_dollar(input)
    } else {
        scanner.scan_to_closing_dollar(input, od, options)
    };
    proof {
        lemma_closing_code_dollar(b, start + 2);
        lemma_closing_dollar(b, start + od, od as nat);
    }
    let endpos = match e {
        Some(x) => if x - start >= fence * 2 + 1 {
            Some(x)
        } else {
            None
        },
        None => None,
    };
    match endpos {
        Some(end) => {
            proof {
                lemma_str_valid(input);
                lemma_ascii_boundary(b, start as int);
                lemma_ascii_boundary(b, (start + fence) as int);
                lemma_ascii_boundary(b, (end - fence) as int);
            }
            let raw = substr(input, start + fence, end - fence);
            let mut lit = String::new();
            if code || od == 1 {
                let norm = normalize_code(raw);
                lit = cow_into_owned(norm);
            } else {
                push_str(&mut lit, raw);
            }
            let seg = substr(input, start, end - fence);
            let (nl, since) = count_newlines(seg);
            proof {
                lemma_last_line_start_le(seg.spec_bytes(), seg.spec_bytes().len() as int);
                assert(code == code_math_at(b, start as int, *options));
                assert(fence == fence_at(b, start as int, *options));
                assert(dollar_math_end(b, start as int, *options) == Some(end as int));
                assert(utf8(lit@) == dollar_math_literal(b, start as int, end as int, *options));
                assert((nl as nat, since as int) == math_newlines(b, start as int, end as int, *options));
            }
            let sc = (start as isize) + 1 + co0 + (line_offset as isize);
            let ec = ((end - 1) as isize) + 1 + co0 + (line_offset as isize);
            let mut sp = Sourcepos {
                start: LineColumn { line: line0, column: sc as usize },
                end: LineColumn { line: line0, column: ec as usize },
            };
            if nl > 0 {
                *line = line0 + nl;
                sp.end.line = line0 + nl;
                sp.end.column = parent_line_offsets[nl] + since + fence;
                *column_offset = -(end as isize) + (since as isize) + (fence as isize);
            }
            let math = NodeMath { dollar_math: !code, display_math: od == 2, literal: lit };
            make_inline(arena, NodeValue::Math(math), sp)
        },
        None => {
            let k: usize = if code {
                1
            } else {
                fence
            };
            scanner.pos = start + k;
            let r = text_node(arena, input, start, start + k, line0, co0, line_offset);
            proof {
                assert(b.subrange(start as int, start + k).map_values(|x: u8| x as char) =~= Seq::new(
                    k as nat,
                    |i: int| '$',
                ));
            }
            r
        },
    }
}

} // verus!
