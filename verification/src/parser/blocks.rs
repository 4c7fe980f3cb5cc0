//! The block parser's place in the current line: the byte offset and the
//! column it stands at, where the first non-whitespace character is, and
//! how far it is indented, with tabs counted to the next multiple of four.
//!
//! Container prefixes (block quote markers, list item indentation, code
//! block indentation) are consumed by advancing this place.

use vstd::prelude::*;
use vstd::string::*;
use vstd::utf8::*;

use vstd::slice::slice_subrange;

use crate::nodes::{Ast, NodeCodeBlock, NodeDescriptionItem, NodeList, NodeValue};
use crate::parser::options::Options;
use crate::scanners::{close_code_fence, close_code_fence_spec, lemma_run_len, opt_int, run_len, ByteClass};
use crate::strings::{is_line_end_byte, is_line_end_char, is_space_or_tab, is_space_or_tab_byte};
use crate::text::{lemma_str_valid, push_ascii, push_str, substr, utf8};

verus! {

broadcast use vstd::utf8::group_utf8_lib;

/// Tab stops fall on every fourth column.
pub const TAB_STOP: usize = 4;

/// Code indented by this many columns is an indented code block.
pub const CODE_INDENT: usize = 4;

/// The column after a tab read at column `col`: the next tab stop.
pub open spec fn tab_col(col: int) -> int {
    col + 4 - col % 4
}

/// Where the run of spaces and tabs from byte `i`, column `col` ends: the
/// first other byte (or the end of the line) and its column.
pub open spec fn nonspace_walk(b: Seq<u8>, i: int, col: int) -> (int, int)
    decreases b.len() - i,
{
    if 0 <= i < b.len() && b[i] == 32 {
        nonspace_walk(b, i + 1, col + 1)
    } else if 0 <= i < b.len() && b[i] == 9 {
        nonspace_walk(b, i + 1, tab_col(col))
    } else {
        (i, col)
    }
}

/// Where advancing `count` (columns, or bytes when `columns` is off) from
/// byte `offset`, column `col` lands: the offset, the column, and whether a
/// tab is left partly consumed.  A tab spans the columns up to the next tab
/// stop; counting columns, a tab wider than what is left is consumed only
/// partly and the offset stays on it.
pub open spec fn advance_spec(
    b: Seq<u8>,
    offset: int,
    col: int,
    partial: bool,
    count: int,
    columns: bool,
) -> (int, int, bool)
    decreases count,
{
    if count <= 0 || offset < 0 || offset >= b.len() {
        (offset, col, partial)
    } else if b[offset] == 9 {
        let to_tab = 4 - col % 4;
        if columns {
            let p = to_tab > count;
            let step = if count < to_tab {
                count
            } else {
                to_tab
            };
            advance_spec(
                b,
                if p {
                    offset
                } else {
                    offset + 1
                },
                col + step,
                p,
                count - step,
                columns,
            )
        } else {
            advance_spec(b, offset + 1, col + to_tab, false, count - 1, columns)
        }
    } else {
        advance_spec(b, offset + 1, col + 1, false, count - 1, columns)
    }
}

/// Advancing `count` from `offset` reads only bytes of the line.
pub open spec fn advance_ok(b: Seq<u8>, offset: int, col: int, count: int, columns: bool) -> bool
    decreases count,
{
    if count <= 0 {
        true
    } else if offset < 0 || offset >= b.len() {
        false
    } else if b[offset] == 9 {
        let to_tab = 4 - col % 4;
        if columns {
            let p = to_tab > count;
            let step = if count < to_tab {
                count
            } else {
                to_tab
            };
            advance_ok(
                b,
                if p {
                    offset
                } else {
                    offset + 1
                },
                col + step,
                count - step,
                columns,
            )
        } else {
            advance_ok(b, offset + 1, col + to_tab, count - 1, columns)
        }
    } else {
        advance_ok(b, offset + 1, col + 1, count - 1, columns)
    }
}

/// What the walk over spaces and tabs gives: it moves forward over spaces
/// and tabs only, to a byte that is neither, and keeps the column reachable.
pub proof fn lemma_walk<T>(b: Seq<u8>, i: int, col: int)
    requires
        0 <= i <= b.len(),
        place_ok(col, i),
    ensures
        ({
            let (f, fc) = nonspace_walk(b, i, col);
            &&& i <= f <= b.len()
            &&& col <= fc
            &&& place_ok(fc, f)
            &&& (f == i ==> fc == col)
            &&& (f > i ==> fc > col)
            &&& forall|j: int| i <= j < f ==> is_space_or_tab_byte(#[trigger] b[j])
            &&& (f < b.len() ==> !is_space_or_tab_byte(b[f]))
        }),
    decreases b.len() - i,
{
    if i < b.len() && (b[i] == 32 || b[i] == 9) {
        let c2 = if b[i] == 32 {
            col + 1
        } else {
            tab_col(col)
        };
        lemma_walk::<T>(b, i + 1, c2);
    }
}

/// Advancing by columns through the whitespace before the first
/// non-whitespace byte, no further than its column, reads only that
/// whitespace and leaves the walk from the new place unchanged.
pub proof fn lemma_advance_within(b: Seq<u8>, o: int, c: int, p: bool, n: int)
    requires
        0 <= o <= b.len(),
        place_ok(c, o),
        0 <= n <= nonspace_walk(b, o, c).1 - c,
    ensures
        advance_ok(b, o, c, n, true),
        ({
            let (o2, c2, p2) = advance_spec(b, o, c, p, n, true);
            &&& o <= o2 <= nonspace_walk(b, o, c).0
            &&& c2 == c + n
            &&& place_ok(c2, o2)
            &&& nonspace_walk(b, o2, c2) == nonspace_walk(b, o, c)
        }),
    decreases n,
{
    lemma_walk::<u8>(b, o, c);
    if n > 0 {
        let to_tab = 4 - c % 4;
        assert(c - c % 4 <= 4 * o);
        if b[o] == 9 {
            assert(nonspace_walk(b, o, c) == nonspace_walk(b, o + 1, tab_col(c)));
            lemma_walk::<u8>(b, o + 1, tab_col(c));
            if to_tab > n {
                reveal_with_fuel(advance_spec, 2);
                reveal_with_fuel(advance_ok, 2);
                assert((c + n) % 4 == c % 4 + n);
                assert(tab_col(c + n) == tab_col(c));
                assert(nonspace_walk(b, o, c + n) == nonspace_walk(b, o + 1, tab_col(c + n)));
            } else {
                lemma_advance_within(b, o + 1, c + to_tab, false, n - to_tab);
            }
        } else {
            assert(b[o] == 32);
            assert(nonspace_walk(b, o, c) == nonspace_walk(b, o + 1, c + 1));
            lemma_walk::<u8>(b, o + 1, c + 1);
            lemma_advance_within(b, o + 1, c + 1, false, n - 1);
        }
    }
}

/// Advancing by more columns than the whitespace spans passes through it
/// whole: the rest of the advance starts at the first non-whitespace byte.
pub proof fn lemma_advance_past(b: Seq<u8>, o: int, c: int, p: bool, n: int)
    requires
        0 <= o <= b.len(),
        place_ok(c, o),
        nonspace_walk(b, o, c).0 < b.len(),
        n > nonspace_walk(b, o, c).1 - c,
    ensures
        ({
            let (f, fc) = nonspace_walk(b, o, c);
            &&& advance_spec(b, o, c, p, n, true) == advance_spec(b, f, fc, false, n - (fc - c), true)
            &&& advance_ok(b, o, c, n, true) == advance_ok(b, f, fc, n - (fc - c), true)
        }),
    decreases b.len() - o,
{
    lemma_walk::<u8>(b, o, c);
    let (f, fc) = nonspace_walk(b, o, c);
    assert(c - c % 4 <= 4 * o);
    if o < f {
        if b[o] == 9 {
            assert(nonspace_walk(b, o, c) == nonspace_walk(b, o + 1, tab_col(c)));
            lemma_walk::<u8>(b, o + 1, tab_col(c));
            lemma_advance_past(b, o + 1, c + 4 - c % 4, false, n - (4 - c % 4));
        } else {
            assert(nonspace_walk(b, o, c) == nonspace_walk(b, o + 1, c + 1));
            lemma_walk::<u8>(b, o + 1, c + 1);
            lemma_advance_past(b, o + 1, c + 1, false, n - 1);
        }
    }
}

/// Advancing by bytes up to the first non-whitespace byte lands on it, at
/// its column.
pub proof fn lemma_advance_bytes(b: Seq<u8>, o: int, c: int, p: bool)
    requires
        0 <= o <= b.len(),
        place_ok(c, o),
    ensures
        ({
            let (f, fc) = nonspace_walk(b, o, c);
            &&& advance_ok(b, o, c, f - o, false)
            &&& advance_spec(b, o, c, p, f - o, false) == (f, fc, if f == o {
                p
            } else {
                false
            })
        }),
    decreases b.len() - o,
{
    lemma_walk::<u8>(b, o, c);
    let (f, fc) = nonspace_walk(b, o, c);
    if o < f {
        if b[o] == 9 {
            lemma_advance_bytes(b, o + 1, tab_col(c), false);
            lemma_walk::<u8>(b, o + 1, tab_col(c));
        } else {
            lemma_advance_bytes(b, o + 1, c + 1, false);
            lemma_walk::<u8>(b, o + 1, c + 1);
        }
    }
}

/// Advancing by `k` bytes reads only bytes of the line when they are there.
pub proof fn lemma_advance_bytes_ok(b: Seq<u8>, o: int, c: int, k: int)
    requires
        0 <= o,
        0 <= k,
        o + k <= b.len(),
    ensures
        advance_ok(b, o, c, k, false),
    decreases k,
{
    if k > 0 {
        if b[o] == 9 {
            lemma_advance_bytes_ok(b, o + 1, c + 4 - c % 4, k - 1);
        } else {
            lemma_advance_bytes_ok(b, o + 1, c + 1, k - 1);
        }
    }
}

/// Where stepping one column at a time over at most `i` spaces and tabs
/// from `offset` lands: the indentation of a fenced code block's content
/// that is removed from each of its lines.
pub open spec fn strip_indent(b: Seq<u8>, offset: int, col: int, partial: bool, i: nat) -> (int, int, bool)
    decreases i,
{
    if i == 0 || !(0 <= offset < b.len() && is_space_or_tab_byte(b[offset])) {
        (offset, col, partial)
    } else {
        let (o2, c2, p2) = advance_spec(b, offset, col, partial, 1, true);
        strip_indent(b, o2, c2, p2, (i - 1) as nat)
    }
}

/// The rest of a thematic break scan of delimiter `c` from `i`, `count`
/// delimiters seen since `start`: delimiters, spaces and tabs may follow,
/// and at least three delimiters must come before the line's end.
pub open spec fn thematic_scan(b: Seq<u8>, i: int, c: u8, count: nat, start: int) -> (int, bool)
    decreases b.len() - i,
{
    if i < 0 || i >= b.len() {
        (i, false)
    } else if b[i] == c {
        thematic_scan(b, i + 1, c, count + 1, start)
    } else if b[i] == 32 || b[i] == 9 {
        thematic_scan(b, i + 1, c, count, start)
    } else if count >= 3 && (b[i] == 13 || b[i] == 10) {
        (i - start + 1, true)
    } else {
        (i, false)
    }
}

/// A thematic break at `start`: three or more of `*`, `_` or `-`, the same
/// each time, with spaces and tabs between, to the line's end.  Gives its
/// length, or where the scan failed.
pub open spec fn thematic_break_spec(b: Seq<u8>, start: int) -> (int, bool) {
    if start < 0 || start >= b.len() {
        (start, false)
    } else {
        let c = b[start];
        if c != 42 && c != 95 && c != 45 {
            (start, false)
        } else {
            thematic_scan(b, start + 1, c, 1, start)
        }
    }
}

/// The block parser's place in the current line.
pub struct Parser {
    /// The byte offset the parser stands at.
    pub offset: usize,
    /// The column the parser stands at, tabs expanded.
    pub column: usize,
    /// Where a failed thematic break scan stopped: none can start before.
    pub thematic_break_kill_pos: usize,
    /// The offset of the first non-whitespace byte at or after `offset`.
    pub first_nonspace: usize,
    /// The column of that byte.
    pub first_nonspace_column: usize,
    /// How many columns of whitespace lie before it.
    pub indent: usize,
    /// Whether the rest of the line is blank.
    pub blank: bool,
    /// Whether the tab at `offset` is consumed in part.
    pub partially_consumed_tab: bool,
}

/// A line of `len` bytes is short enough for its columns to be counted:
/// a byte never spans more than four columns.
pub open spec fn line_fits(len: int) -> bool {
    4 * len + 8 <= usize::MAX
}

/// A column reachable at byte `offset` of a line: before the end of the
/// tab stop after `offset` bytes of at most four columns each.
pub open spec fn place_ok(column: int, offset: int) -> bool {
    column < 4 * offset + 4
}

impl Parser {
    /// A parser at the start of a line.
    pub fn new() -> (r: Parser)
        ensures
            r.offset == 0,
            r.column == 0,
            r.thematic_break_kill_pos == 0,
            r.first_nonspace == 0,
            r.first_nonspace_column == 0,
            r.indent == 0,
            !r.blank,
            !r.partially_consumed_tab,
    {
        Parser {
            offset: 0,
            column: 0,
            thematic_break_kill_pos: 0,
            first_nonspace: 0,
            first_nonspace_column: 0,
            indent: 0,
            blank: false,
            partially_consumed_tab: false,
        }
    }

    /// The place agrees with the line, a line as the block parser hands it
    /// over (ending in a newline): the first non-whitespace byte, its
    /// column, the indentation and blankness are those of the rest of the
    /// line from the current offset.
    pub open spec fn line_ok(&self, b: Seq<u8>) -> bool {
        &&& b.len() > 0
        &&& b.last() == 10
        &&& line_fits(b.len() as int)
        &&& self.offset < b.len()
        &&& place_ok(self.column as int, self.offset as int)
        &&& (self.first_nonspace as int, self.first_nonspace_column as int) == nonspace_walk(
            b,
            self.offset as int,
            self.column as int,
        )
        &&& self.indent == self.first_nonspace_column - self.column
        &&& self.blank == is_line_end_byte(b[self.first_nonspace as int])
    }

    /// Whether a `>` at the first non-whitespace byte can mark a block
    /// quote: with the greentext extension, only when a space or tab
    /// follows.
    pub fn is_not_greentext(&self, line: &str, options: &Options) -> (r: bool)
        requires
            options.extension.greentext ==> self.first_nonspace + 1 < line.spec_bytes().len(),
        ensures
            r == (!options.extension.greentext || is_space_or_tab_byte(
                line.spec_bytes()[self.first_nonspace + 1],
            )),
    {
        if !options.extension.greentext {
            return true;
        }
        let bytes = line.as_bytes();
        let len = bytes.len();
        proof {
            assert(self.first_nonspace + 1 < len);
        }
        is_space_or_tab(bytes[self.first_nonspace + 1])
    }

    /// Consumes a block quote marker: up to three columns of indentation,
    /// `>`, and one optional space or tab column.
    pub fn parse_block_quote_prefix(&mut self, line: &str, options: &Options) -> (r: bool)
        requires
            old(self).line_ok(line.spec_bytes()),
        ensures
            ({
                let b = line.spec_bytes();
                let f = old(self).first_nonspace as int;
                let fc = old(self).first_nonspace_column as int;
                &&& r == (old(self).indent <= 3 && b[f] == 62 && (!options.extension.greentext
                    || is_space_or_tab_byte(b[f + 1])))
                &&& r ==> (final(self).offset as int, final(self).column as int, final(self).partially_consumed_tab)
                    == if is_space_or_tab_byte(b[f + 1]) {
                    advance_spec(b, f + 1, fc + 1, false, 1, true)
                } else {
                    (f + 1, fc + 1, false)
                }
                &&& !r ==> *final(self) == *old(self)
                &&& final(self).first_nonspace == old(self).first_nonspace
                &&& final(self).first_nonspace_column == old(self).first_nonspace_column
                &&& final(self).indent == old(self).indent
                &&& final(self).blank == old(self).blank
                &&& final(self).thematic_break_kill_pos == old(self).thematic_break_kill_pos
            }),
    {
        let ghost b = line.spec_bytes();
        let bytes = line.as_bytes();
        let indent = self.indent;
        proof {
            lemma_walk::<u8>(b, self.offset as int, self.column as int);
        }
        if indent <= 3 && bytes[self.first_nonspace] == 62 && self.is_not_greentext(line, options) {
            proof {
                reveal_with_fuel(advance_spec, 2);
                reveal_with_fuel(advance_ok, 2);
                lemma_advance_past(b, self.offset as int, self.column as int, self.partially_consumed_tab, indent + 1);
            }
            self.advance_offset(line, indent + 1, true);
            if is_space_or_tab(bytes[self.offset]) {
                proof {
                    reveal_with_fuel(advance_ok, 2);
                }
                self.advance_offset(line, 1, true);
            }
            return true;
        }
        false
    }

    /// Consumes the indentation of a list item's content: the marker's
    /// width and padding, or, on a blank line of an item that has children,
    /// the whitespace up to the first non-whitespace byte.
    pub fn parse_node_item_prefix(&mut self, line: &str, has_children: bool, nl: &NodeList) -> (r: bool)
        requires
            old(self).line_ok(line.spec_bytes()),
            nl.marker_offset + nl.padding <= usize::MAX,
        ensures
            ({
                let b = line.spec_bytes();
                let o = old(self).offset as int;
                let c = old(self).column as int;
                let w = nl.marker_offset + nl.padding;
                &&& r == (old(self).indent >= w || (old(self).blank && has_children))
                &&& old(self).indent >= w ==> (final(self).offset as int, final(self).column as int,
                    final(self).partially_consumed_tab) == advance_spec(b, o, c, old(self).partially_consumed_tab, w, true)
                &&& old(self).indent < w && old(self).blank && has_children ==> (final(self).offset as int,
                    final(self).column as int) == nonspace_walk(b, o, c)
                &&& !r ==> *final(self) == *old(self)
                &&& final(self).first_nonspace == old(self).first_nonspace
                &&& final(self).first_nonspace_column == old(self).first_nonspace_column
                &&& final(self).indent == old(self).indent
                &&& final(self).blank == old(self).blank
            }),
    {
        let ghost b = line.spec_bytes();
        proof {
            lemma_walk::<u8>(b, self.offset as int, self.column as int);
        }
        let w = nl.marker_offset + nl.padding;
        if self.indent >= w {
            proof {
                lemma_advance_within(b, self.offset as int, self.column as int, self.partially_consumed_tab, w as int);
            }
            self.advance_offset(line, w, true);
            true
        } else if self.blank && has_children {
            let offset = self.first_nonspace - self.offset;
            proof {
                lemma_advance_bytes(b, self.offset as int, self.column as int, self.partially_consumed_tab);
            }
            self.advance_offset(line, offset, false);
            true
        } else {
            false
        }
    }

    /// Consumes the indentation of a description item's content, as
    /// `parse_node_item_prefix` does for a list item.
    pub fn parse_description_item_prefix(
        &mut self,
        line: &str,
        has_children: bool,
        di: &NodeDescriptionItem,
    ) -> (r: bool)
        requires
            old(self).line_ok(line.spec_bytes()),
            di.marker_offset + di.padding <= usize::MAX,
        ensures
            ({
                let b = line.spec_bytes();
                let o = old(self).offset as int;
                let c = old(self).column as int;
                let w = di.marker_offset + di.padding;
                &&& r == (old(self).indent >= w || (old(self).blank && has_children))
                &&& old(self).indent >= w ==> (final(self).offset as int, final(self).column as int,
                    final(self).partially_consumed_tab) == advance_spec(b, o, c, old(self).partially_consumed_tab, w, true)
                &&& old(self).indent < w && old(self).blank && has_children ==> (final(self).offset as int,
                    final(self).column as int) == nonspace_walk(b, o, c)
                &&& !r ==> *final(self) == *old(self)
                &&& final(self).first_nonspace == old(self).first_nonspace
                &&& final(self).first_nonspace_column == old(self).first_nonspace_column
                &&& final(self).indent == old(self).indent
                &&& final(self).blank == old(self).blank
            }),
    {
        let ghost b = line.spec_bytes();
        proof {
            lemma_walk::<u8>(b, self.offset as int, self.column as int);
        }
        let w = di.marker_offset + di.padding;
        if self.indent >= w {
            proof {
                lemma_advance_within(b, self.offset as int, self.column as int, self.partially_consumed_tab, w as int);
            }
            self.advance_offset(line, w, true);
            true
        } else if self.blank && has_children {
            let offset = self.first_nonspace - self.offset;
            proof {
                lemma_advance_bytes(b, self.offset as int, self.column as int, self.partially_consumed_tab);
            }
            self.advance_offset(line, offset, false);
            true
        } else {
            false
        }
    }

    /// Consumes the indentation of a code block's line.  An indented block
    /// takes four columns, or the whitespace of a blank line; a fenced one
    /// ends at a closing fence (`None`: the block is to be finalised) and
    /// otherwise gives up to its fence's indentation in spaces and tabs.
    /// `Some(false)` means the line does not continue the block.
    pub fn parse_code_block_prefix(&mut self, line: &str, ncb: &NodeCodeBlock) -> (r: Option<bool>)
        requires
            old(self).line_ok(line.spec_bytes()),
        ensures
            ({
                let b = line.spec_bytes();
                let o = old(self).offset as int;
                let c = old(self).column as int;
                let p = old(self).partially_consumed_tab;
                let f = old(self).first_nonspace as int;
                let place = (final(self).offset as int, final(self).column as int, final(self).partially_consumed_tab);
                let matched: int = if old(self).indent <= 3 && b[f] == ncb.fence_char {
                    match close_code_fence_spec(b.subrange(f, b.len() as int)) {
                        Some(m) => m,
                        None => 0,
                    }
                } else {
                    0
                };
                &&& !ncb.fenced && old(self).indent >= CODE_INDENT ==> r == Some(true) && place
                    == advance_spec(b, o, c, p, 4, true)
                &&& !ncb.fenced && old(self).indent < CODE_INDENT && old(self).blank ==> r == Some(true)
                    && (place.0, place.1) == nonspace_walk(b, o, c)
                &&& !ncb.fenced && old(self).indent < CODE_INDENT && !old(self).blank ==> r == Some(false)
                    && *final(self) == *old(self)
                &&& ncb.fenced && matched >= ncb.fence_length ==> r is None && place == advance_spec(
                    b,
                    o,
                    c,
                    p,
                    matched,
                    false,
                )
                &&& ncb.fenced && matched < ncb.fence_length ==> r == Some(true) && place
                    == strip_indent(b, o, c, p, ncb.fence_offset as nat)
                &&& final(self).first_nonspace == old(self).first_nonspace
                &&& final(self).first_nonspace_column == old(self).first_nonspace_column
                &&& final(self).indent == old(self).indent
                &&& final(self).blank == old(self).blank
            }),
    {
        let ghost b = line.spec_bytes();
        let bytes = line.as_bytes();
        proof {
            lemma_walk::<u8>(b, self.offset as int, self.column as int);
        }
        if !ncb.fenced {
            if self.indent >= CODE_INDENT {
                proof {
                    lemma_advance_within(b, self.offset as int, self.column as int, self.partially_consumed_tab, 4);
                }
                self.advance_offset(line, CODE_INDENT, true);
                return Some(true);
            } else if self.blank {
                let offset = self.first_nonspace - self.offset;
                proof {
                    lemma_advance_bytes(b, self.offset as int, self.column as int, self.partially_consumed_tab);
                }
                self.advance_offset(line, offset, false);
                return Some(true);
            }
            return Some(false);
        }
        let matched = if self.indent <= 3 && bytes[self.first_nonspace] == ncb.fence_char {
            let rest = slice_subrange(bytes, self.first_nonspace, bytes.len());
            match close_code_fence(rest) {
                Some(m) => {
                    proof {
                        lemma_run_len(rest@, 0, ByteClass::Is(rest@[0]));
                    }
                    m
                },
                None => 0,
            }
        } else {
            0
        };
        if matched >= ncb.fence_length {
            proof {
                lemma_advance_bytes_ok(b, self.offset as int, self.column as int, matched as int);
            }
            self.advance_offset(line, matched, false);
            return None;
        }
        let mut i = ncb.fence_offset;
        let ghost f = self.first_nonspace as int;
        let ghost fc = self.first_nonspace_column as int;
        while i > 0 && is_space_or_tab(bytes[self.offset])
            invariant
                b == bytes@,
                b == line.spec_bytes(),
                line_fits(b.len() as int),
                b.last() == 10,
                self.offset <= f < b.len(),
                place_ok(self.column as int, self.offset as int),
                nonspace_walk(b, self.offset as int, self.column as int) == (f, fc),
                strip_indent(b, self.offset as int, self.column as int, self.partially_consumed_tab, i as nat)
                    == strip_indent(b, old(self).offset as int, old(self).column as int, old(self).partially_consumed_tab, ncb.fence_offset as nat),
                self.first_nonspace == old(self).first_nonspace,
                self.first_nonspace_column == old(self).first_nonspace_column,
                self.indent == old(self).indent,
                self.blank == old(self).blank,
            decreases i,
        {
            proof {
                lemma_walk::<u8>(b, self.offset as int, self.column as int);
                assert(is_space_or_tab_byte(b[self.offset as int]));
                assert(self.offset < f);
                assert(fc > self.column);
                lemma_advance_within(b, self.offset as int, self.column as int, self.partially_consumed_tab, 1);
                assert(advance_ok(b, self.offset as int, self.column as int, 1, true));
            }
            self.advance_offset(line, 1, true);
            i = i - 1;
        }
        Some(true)
    }

    /// Scans for a thematic break at the first non-whitespace byte; see
    /// `thematic_break_spec`.
    pub fn scan_thematic_break_inner(&self, line: &str) -> (r: (usize, bool))
        ensures
            (r.0 as int, r.1) == thematic_break_spec(line.spec_bytes(), self.first_nonspace as int),
    {
        let bytes = line.as_bytes();
        let ghost b = bytes@;
        let mut i = self.first_nonspace;
        if i >= bytes.len() {
            return (i, false);
        }
        let c = bytes[i];
        if c != 42 && c != 95 && c != 45 {
            return (i, false);
        }
        let mut count: usize = 1;
        let mut nextc: u8;
        loop
            invariant_except_break
                thematic_scan(b, i + 1, c, count as nat, self.first_nonspace as int)
                    == thematic_break_spec(b, self.first_nonspace as int),
            invariant
                b == bytes@,
                b == line.spec_bytes(),
                b.len() <= usize::MAX,
                self.first_nonspace <= i < b.len(),
                b[self.first_nonspace as int] == c,
                count <= i - self.first_nonspace + 1,
            ensures
                nextc == b[i as int],
                nextc != c && nextc != 32 && nextc != 9,
                thematic_scan(b, i as int, c, count as nat, self.first_nonspace as int)
                    == thematic_break_spec(b, self.first_nonspace as int),
            decreases b.len() - i,
        {
            i = i + 1;
            if i >= bytes.len() {
                assert(thematic_scan(b, i as int, c, count as nat, self.first_nonspace as int) == (i as int, false));
                return (i, false);
            }
            nextc = bytes[i];
            if nextc == c {
                count = count + 1;
            } else if nextc != 32 && nextc != 9 {
                break;
            }
        }
        if count >= 3 && (nextc == 13 || nextc == 10) {
            ((i - self.first_nonspace) + 1, true)
        } else {
            (i, false)
        }
    }

    /// Looks for a thematic break, unless the line continues a paragraph
    /// not yet matched or an earlier scan of this line failed beyond the
    /// first non-whitespace byte; a failed scan is remembered.
    pub fn detect_thematic_break(&mut self, container: &NodeValue, line: &str, all_matched: bool) -> (r: Option<usize>)
        ensures
            ({
                let gate = !(*container is Paragraph && !all_matched) && old(self).thematic_break_kill_pos
                    <= old(self).first_nonspace;
                let (o, found) = thematic_break_spec(line.spec_bytes(), old(self).first_nonspace as int);
                &&& gate && found ==> r == Some(o as usize) && *final(self) == *old(self)
                &&& gate && !found ==> r is None && final(self).thematic_break_kill_pos == o
                    && final(self).offset == old(self).offset && final(self).column == old(self).column
                    && final(self).first_nonspace == old(self).first_nonspace
                    && final(self).first_nonspace_column == old(self).first_nonspace_column
                    && final(self).indent == old(self).indent && final(self).blank == old(self).blank
                    && final(self).partially_consumed_tab == old(self).partially_consumed_tab
                &&& !gate ==> r is None && *final(self) == *old(self)
            }),
    {
        let paragraph_unmatched = match container {
            NodeValue::Paragraph => !all_matched,
            _ => false,
        };
        if !paragraph_unmatched && self.thematic_break_kill_pos <= self.first_nonspace {
            let (offset, found) = self.scan_thematic_break_inner(line);
            if !found {
                self.thematic_break_kill_pos = offset;
                None
            } else {
                Some(offset)
            }
        } else {
            None
        }
    }

    /// Adds the rest of the line to an open block's content: the unconsumed
    /// columns of a partly consumed tab as spaces, then the bytes from the
    /// offset on, recording where they started.
    pub fn add_line(&mut self, ast: &mut Ast, line: &str)
        requires
            old(ast).open,
            old(self).offset <= line.spec_bytes().len(),
            old(self).partially_consumed_tab ==> old(self).offset < line.spec_bytes().len(),
            ({
                let o2 = if old(self).partially_consumed_tab {
                    old(self).offset + 1
                } else {
                    old(self).offset as int
                };
                o2 < line.spec_bytes().len() ==> is_char_boundary(line.spec_bytes(), o2)
            }),
        ensures
            ({
                let b = line.spec_bytes();
                let o2 = if old(self).partially_consumed_tab {
                    old(self).offset + 1
                } else {
                    old(self).offset as int
                };
                let pad: Seq<u8> = if old(self).partially_consumed_tab {
                    Seq::new((4 - old(self).column % 4) as nat, |k: int| 32u8)
                } else {
                    Seq::empty()
                };
                &&& final(self).offset == o2
                &&& utf8(final(ast).content@) == utf8(old(ast).content@) + pad + if o2 < b.len() {
                    b.subrange(o2, b.len() as int)
                } else {
                    Seq::empty()
                }
                &&& final(ast).line_offsets@ == if o2 < b.len() {
                    old(ast).line_offsets@.push(o2 as usize)
                } else {
                    old(ast).line_offsets@
                }
                &&& final(ast).value == old(ast).value
                &&& final(ast).open == old(ast).open
                &&& final(self).column == old(self).column
                &&& final(self).partially_consumed_tab == old(self).partially_consumed_tab
                &&& final(self).first_nonspace == old(self).first_nonspace
            }),
    {
        let ghost b = line.spec_bytes();
        let ghost start = ast.content@;
        let len = line.as_bytes().len();
        proof {
            lemma_str_valid(line);
        }
        if self.partially_consumed_tab {
            self.offset = self.offset + 1;
            let chars_to_tab = TAB_STOP - (self.column % TAB_STOP);
            let mut k: usize = 0;
            while k < chars_to_tab
                invariant
                    k <= chars_to_tab,
                    chars_to_tab == 4 - self.column % 4,
                    utf8(ast.content@) == utf8(start) + Seq::new(k as nat, |j: int| 32u8),
                    ast.value == old(ast).value,
                    ast.open == old(ast).open,
                    ast.line_offsets == old(ast).line_offsets,
                decreases chars_to_tab - k,
            {
                push_ascii(&mut ast.content, ' ');
                k = k + 1;
                assert(utf8(start) + Seq::new(k as nat, |j: int| 32u8) =~= (utf8(start) + Seq::new(
                    (k - 1) as nat,
                    |j: int| 32u8,
                )).push(32u8));
            }
        }
        let ghost mid = ast.content@;
        if self.offset < len {
            ast.line_offsets.push(self.offset);
            let rest = substr(line, self.offset, len);
            push_str(&mut ast.content, rest);
        }
        proof {
            if !old(self).partially_consumed_tab {
                assert(utf8(mid) =~= utf8(start) + Seq::<u8>::empty());
            }
            if self.offset >= len {
                assert(utf8(ast.content@) =~= utf8(mid) + Seq::<u8>::empty());
            }
        }
    }

    /// Finds the first non-whitespace byte at or after the current offset,
    /// unless it is already known, and sets the indentation and blankness
    /// of the rest of the line.
    pub fn find_first_nonspace(&mut self, line: &str)
        requires
            line_fits(line.spec_bytes().len() as int),
            old(self).offset <= line.spec_bytes().len(),
            place_ok(old(self).column as int, old(self).offset as int),
            old(self).first_nonspace > old(self).offset ==> old(self).first_nonspace_column
                >= old(self).column,
        ensures
            old(self).first_nonspace <= old(self).offset ==> (final(self).first_nonspace as int,
            final(self).first_nonspace_column as int) == nonspace_walk(
                line.spec_bytes(),
                old(self).offset as int,
                old(self).column as int,
            ),
            old(self).first_nonspace > old(self).offset ==> final(self).first_nonspace
                == old(self).first_nonspace && final(self).first_nonspace_column
                == old(self).first_nonspace_column,
            final(self).indent == final(self).first_nonspace_column - old(self).column,
            final(self).blank == (final(self).first_nonspace < line.spec_bytes().len()
                && is_line_end_byte(line.spec_bytes()[final(self).first_nonspace as int])),
            final(self).offset == old(self).offset,
            final(self).column == old(self).column,
            final(self).thematic_break_kill_pos == old(self).thematic_break_kill_pos,
            final(self).partially_consumed_tab == old(self).partially_consumed_tab,
            old(self).first_nonspace <= old(self).offset && old(self).offset < line.spec_bytes().len()
                && line.spec_bytes().last() == 10 ==> final(self).line_ok(line.spec_bytes()),
    {
        let bytes = line.as_bytes();
        let ghost b = bytes@;
        proof {
            if old(self).first_nonspace <= old(self).offset {
                lemma_walk::<u8>(b, self.offset as int, self.column as int);
            }
        }
        let mut chars_to_tab = TAB_STOP - (self.column % TAB_STOP);
        if self.first_nonspace <= self.offset {
            self.first_nonspace = self.offset;
            self.first_nonspace_column = self.column;
            loop
                invariant
                    b == bytes@,
                    line_fits(b.len() as int),
                    self.offset <= self.first_nonspace <= b.len(),
                    self.first_nonspace_column >= self.column,
                    place_ok(self.first_nonspace_column as int, self.first_nonspace as int),
                    chars_to_tab == 4 - self.first_nonspace_column % 4,
                    nonspace_walk(b, self.first_nonspace as int, self.first_nonspace_column as int)
                        == nonspace_walk(b, self.offset as int, self.column as int),
                    self.offset == old(self).offset,
                    self.column == old(self).column,
                    self.thematic_break_kill_pos == old(self).thematic_break_kill_pos,
                    self.partially_consumed_tab == old(self).partially_consumed_tab,
                ensures
                    (self.first_nonspace as int, self.first_nonspace_column as int)
                        == nonspace_walk(b, self.offset as int, self.column as int),
                    self.first_nonspace_column >= self.column,
                    self.offset == old(self).offset,
                    self.column == old(self).column,
                    self.thematic_break_kill_pos == old(self).thematic_break_kill_pos,
                    self.partially_consumed_tab == old(self).partially_consumed_tab,
                decreases b.len() - self.first_nonspace,
            {
                if self.first_nonspace >= bytes.len() {
                    break;
                }
                let c = bytes[self.first_nonspace];
                if c == 32 {
                    self.first_nonspace = self.first_nonspace + 1;
                    self.first_nonspace_column = self.first_nonspace_column + 1;
                    chars_to_tab = chars_to_tab - 1;
                    if chars_to_tab == 0 {
                        chars_to_tab = TAB_STOP;
                    }
                } else if c == 9 {
                    self.first_nonspace = self.first_nonspace + 1;
                    self.first_nonspace_column = self.first_nonspace_column + chars_to_tab;
                    chars_to_tab = TAB_STOP;
                } else {
                    break;
                }
            }
        }
        self.indent = self.first_nonspace_column - self.column;
        self.blank = self.first_nonspace < bytes.len() && is_line_end_char(bytes[self.first_nonspace]);
    }

    /// Advances over `count` columns (or bytes, when `columns` is off) of
    /// the line; see `advance_spec`.
    pub fn advance_offset(&mut self, line: &str, count: usize, columns: bool)
        requires
            advance_ok(line.spec_bytes(), old(self).offset as int, old(self).column as int, count as int, columns),
            line_fits(line.spec_bytes().len() as int),
            old(self).offset <= line.spec_bytes().len(),
            place_ok(old(self).column as int, old(self).offset as int),
        ensures
            (final(self).offset as int, final(self).column as int, final(self).partially_consumed_tab)
                == advance_spec(
                line.spec_bytes(),
                old(self).offset as int,
                old(self).column as int,
                old(self).partially_consumed_tab,
                count as int,
                columns,
            ),
            final(self).offset <= line.spec_bytes().len(),
            place_ok(final(self).column as int, final(self).offset as int),
            final(self).first_nonspace == old(self).first_nonspace,
            final(self).first_nonspace_column == old(self).first_nonspace_column,
            final(self).indent == old(self).indent,
            final(self).blank == old(self).blank,
            final(self).thematic_break_kill_pos == old(self).thematic_break_kill_pos,
    {
        let bytes = line.as_bytes();
        let ghost b = bytes@;
        let ghost count0 = count;
        let mut count = count;
        while count > 0
            invariant
                b == bytes@,
                advance_ok(b, self.offset as int, self.column as int, count as int, columns),
                self.offset <= b.len(),
                line_fits(b.len() as int),
                place_ok(self.column as int, self.offset as int),
                advance_spec(b, self.offset as int, self.column as int, self.partially_consumed_tab, count as int, columns)
                    == advance_spec(b, old(self).offset as int, old(self).column as int, old(self).partially_consumed_tab, count0 as int, columns),
                self.first_nonspace == old(self).first_nonspace,
                self.first_nonspace_column == old(self).first_nonspace_column,
                self.indent == old(self).indent,
                self.blank == old(self).blank,
                self.thematic_break_kill_pos == old(self).thematic_break_kill_pos,
            decreases count,
        {
            if bytes[self.offset] == 9 {
                let chars_to_tab = TAB_STOP - (self.column % TAB_STOP);
                if columns {
                    self.partially_consumed_tab = chars_to_tab > count;
                    let chars_to_advance = if count < chars_to_tab {
                        count
                    } else {
                        chars_to_tab
                    };
                    self.column = self.column + chars_to_advance;
                    self.offset = self.offset + if self.partially_consumed_tab {
                        0
                    } else {
                        1
                    };
                    count = count - chars_to_advance;
                } else {
                    self.partially_consumed_tab = false;
                    self.column = self.column + chars_to_tab;
                    self.offset = self.offset + 1;
                    count = count - 1;
                }
            } else {
                self.partially_consumed_tab = false;
                self.offset = self.offset + 1;
                self.column = self.column + 1;
                count = count - 1;
            }
        }
    }
}

} // verus!
