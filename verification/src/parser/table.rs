//! Rows of GitHub Flavored Markdown tables.

use std::borrow::Cow;
use vstd::prelude::*;
use vstd::slice::slice_subrange;
use vstd::string::*;
use vstd::utf8::*;

use crate::scanners::{
    esc_run_end, lemma_esc_run_end, lemma_run_len, opt_int, run_len, table_cell, table_cell_end, table_cell_end_spec, table_cell_spec,
    table_row_end, table_row_end_spec, ByteClass,
};
use crate::arena_tree::{lemma_append_places_last, lemma_insert_before_places_prev, Arena, Id};
use crate::nodes::{can_contain_spec, can_contain_type, Ast, LineColumn, NodeTable, NodeValue, Sourcepos, TableAlignment};
use crate::parser::options::Options;
use crate::scanners::{newline_at, table_start, table_start_spec};
use crate::strings::{count_newlines, cow_into_owned, line_endings, trim_bytes, trim_cow};
use crate::text::{lemma_ascii_boundary, lemma_str_valid, push_str, substr, utf8};

verus! {

broadcast use vstd::utf8::group_utf8_lib;

/// `s` with the backslash of each escaped `|` taken out, reading from `i`
/// on; `lwb` says whether the byte before `i` is a backslash that escapes
/// the byte at `i`.
pub open spec fn unpipe(b: Seq<u8>, i: int, lwb: bool) -> Seq<u8>
    decreases b.len() - i,
{
    if i < 0 || i >= b.len() {
        seq![]
    } else if !lwb && b[i] == 92 && i + 1 < b.len() && b[i + 1] == 124 {
        seq![124u8] + unpipe(b, i + 2, false)
    } else {
        seq![b[i]] + unpipe(
            b,
            i + 1,
            if lwb {
                false
            } else {
                b[i] == 92
            },
        )
    }
}

/// Takes out the backslash of each `\|`; a backslash that is itself
/// escaped does not escape a `|` after it.
pub fn unescape_pipes(string: &str) -> (r: Cow<'_, str>)
    ensures
        utf8(r@) == unpipe(string.spec_bytes(), 0, false),
{
    let b = string.as_bytes();
    let len = b.len();
    let mut v = String::new();
    let mut offset: usize = 0;
    let mut i: usize = 0;
    let mut lwb = false;
    proof {
        lemma_str_valid(string);
        assert(utf8(v@) =~= Seq::<u8>::empty());
        assert(b@.subrange(0, 0) =~= Seq::<u8>::empty());
    }
    while i < len
        invariant
            b@ == string.spec_bytes(),
            valid_utf8(b@),
            len == b@.len(),
            offset <= i <= len,
            offset == 0 || b@[offset - 1] < 0x80,
            offset == 0 ==> utf8(v@) == Seq::<u8>::empty(),
            utf8(v@) + b@.subrange(offset as int, i as int) + unpipe(b@, i as int, lwb) == unpipe(
                b@,
                0,
                false,
            ),
        decreases len - i,
    {
        let c = b[i];
        let ghost before = utf8(v@) + b@.subrange(offset as int, i as int);
        if !lwb && c == 92 && i + 1 < len && b[i + 1] == 124 {
            proof {
                lemma_ascii_boundary(b@, offset as int);
                lemma_ascii_boundary(b@, i as int);
            }
            push_str(&mut v, substr(string, offset, i));
            offset = i + 1;
            i = i + 2;
            proof {
                assert(b@.subrange(offset as int, i as int) =~= seq![124u8]);
                assert(utf8(v@) + b@.subrange(offset as int, i as int) + unpipe(b@, i as int, lwb)
                    =~= before + (seq![124u8] + unpipe(b@, i as int, false)));
            }
        } else {
            let nl = if lwb {
                false
            } else {
                c == 92
            };
            proof {
                assert(b@.subrange(offset as int, i + 1) =~= b@.subrange(offset as int, i as int)
                    + seq![c]);
                assert(before + seq![c] + unpipe(b@, i + 1, nl) =~= before + (seq![c] + unpipe(
                    b@,
                    i + 1,
                    nl,
                )));
            }
            lwb = nl;
            i = i + 1;
        }
    }
    if offset == 0 {
        proof {
            assert(b@.subrange(0, len as int) =~= b@);
        }
        Cow::Borrowed(string)
    } else {
        proof {
            lemma_ascii_boundary(b@, offset as int);
            lemma_ascii_boundary(b@, len as int);
        }
        push_str(&mut v, substr(string, offset, len));
        Cow::Owned(v)
    }
}

/// The length of the table cell at `i` of `b`, 0 if there is none.
pub open spec fn cell_len(b: Seq<u8>, i: int) -> int {
    match table_cell_spec(b.subrange(i, b.len() as int)) {
        Some(n) => n,
        None => 0,
    }
}

/// The length of the `|` and whitespace at `i` of `b`, 0 if there is none.
pub open spec fn pipe_len(b: Seq<u8>, i: int) -> int {
    match table_cell_end_spec(b.subrange(i, b.len() as int)) {
        Some(n) => n,
        None => 0,
    }
}

/// The length of the row ending at `i` of `b`, 0 if there is none.
pub open spec fn row_end_len(b: Seq<u8>, i: int) -> int {
    match table_row_end_spec(b.subrange(i, b.len() as int)) {
        Some(n) => n,
        None => 0,
    }
}

/// Going back from `s` to just after the nearest `|`, but not before `po`.
pub open spec fn cell_start(b: Seq<u8>, s: int, po: int) -> int
    decreases s,
{
    if s > po && s > 0 && b[s - 1] != 124 {
        cell_start(b, s - 1, po)
    } else {
        s
    }
}

/// What `row` records of a cell: where it starts (after the `|` before
/// it), where its text ends, how far its text is from its start, and its
/// text, with escaped pipes unescaped and trimmed.
pub struct CellView {
    pub start: int,
    pub end: int,
    pub internal: int,
    pub content: Seq<u8>,
}

/// The cell whose text is the `cm` bytes at `offset`.
pub open spec fn cell_view(b: Seq<u8>, offset: int, cm: int, po: int) -> CellView {
    let start = cell_start(b, offset, po);
    CellView {
        start: start,
        end: offset + cm - 1,
        internal: offset - start,
        content: trim_bytes(unpipe(b.subrange(offset, offset + cm), 0, false)),
    }
}

/// How `row` goes on from `offset`, the last line of the row starting at
/// `po`, with `cells` read so far on it: where that line starts and its
/// cells, or `None` where the text does not end in a row or a line holds
/// too many cells.
pub open spec fn row_scan(b: Seq<u8>, offset: int, po: int, cells: Seq<CellView>) -> Option<
    (int, Seq<CellView>),
>
    decreases b.len() - offset,
{
    if offset < 0 || offset >= b.len() {
        if offset != b.len() || cells.len() == 0 {
            None
        } else {
            Some((po, cells))
        }
    } else {
        let cm = cell_len(b, offset);
        let pm = pipe_len(b, offset + cm);
        if (cm > 0 || pm > 0) && cells.len() == 65535 {
            None
        } else {
            let cells2 = if cm > 0 || pm > 0 {
                cells.push(cell_view(b, offset, cm, po))
            } else {
                cells
            };
            let off2 = offset + cm + pm;
            if pm == 0 {
                let re = row_end_len(b, off2);
                let off3 = off2 + re;
                if re == 0 || off3 == b.len() {
                    if off3 != b.len() || cells2.len() == 0 {
                        None
                    } else {
                        Some((po, cells2))
                    }
                } else {
                    let off4 = off3 + pipe_len(b, off3);
                    if offset < off4 <= b.len() {
                        row_scan(b, off4, off3, seq![])
                    } else {
                        None
                    }
                }
            } else if offset < off2 <= b.len() {
                row_scan(b, off2, po, cells2)
            } else {
                None
            }
        }
    }
}

/// The last line of a row starts at the start of the text or just after a
/// line feed.
pub proof fn lemma_row_line_start(b: Seq<u8>, offset: int, po: int, cells: Seq<CellView>)
    requires
        po == 0 || (0 < po <= b.len() && b[po - 1] == 10),
    ensures
        row_scan(b, offset, po, cells) matches Some((p, _)) ==> p == 0 || (0 < p <= b.len() && b[p
            - 1] == 10),
    decreases b.len() - offset,
{
    if offset < 0 || offset >= b.len() {
    } else {
        let cm = cell_len(b, offset);
        let pm = pipe_len(b, offset + cm);
        if (cm > 0 || pm > 0) && cells.len() == 65535 {
        } else {
            let cells2 = if cm > 0 || pm > 0 {
                cells.push(cell_view(b, offset, cm, po))
            } else {
                cells
            };
            let off2 = offset + cm + pm;
            if pm == 0 {
                let re = row_end_len(b, off2);
                let off3 = off2 + re;
                if re == 0 || off3 == b.len() {
                } else {
                    let off4 = off3 + pipe_len(b, off3);
                    if offset < off4 <= b.len() {
                        let t = b.subrange(off2, b.len() as int);
                        let n = run_len(t, 0, ByteClass::TableSpace);
                        if let Some(k) = newline_at(t, n) {
                            assert(t[n + k - 1] == 10);
                            assert(b[off3 - 1] == t[n + k - 1]);
                        }
                        lemma_row_line_start(b, off4, off3, seq![]);
                    }
                }
            } else if offset < off2 <= b.len() {
                lemma_row_line_start(b, off2, po, cells2);
            }
        }
    }
}

/// Going back for the start of a cell stays between the line's start and
/// the cell's text.
proof fn lemma_cell_start_between(b: Seq<u8>, s: int, po: int)
    requires
        po <= s,
    ensures
        po <= cell_start(b, s, po) <= s,
    decreases s,
{
    if s > po && s > 0 && b[s - 1] != 124 {
        lemma_cell_start_between(b, s - 1, po);
    }
}

/// Whether a cell lies on the line starting at `po`, before `lim`.
pub open spec fn cell_within(c: CellView, po: int, lim: int) -> bool {
    &&& po <= c.start
    &&& 0 <= c.internal
    &&& c.start + c.internal <= c.end + 1
    &&& po <= c.end < lim
}

/// The cells of the last line of a row lie on that line, within the text:
/// each starts at or after the line's start, and its text ends there too.
proof fn lemma_row_cells_within(b: Seq<u8>, offset: int, po: int, cells: Seq<CellView>)
    requires
        0 <= po <= offset,
        offset == po ==> pipe_len(b, po) == 0,
        forall|i: int| 0 <= i < cells.len() ==> cell_within(#[trigger] cells[i], po, offset),
    ensures
        row_scan(b, offset, po, cells) matches Some((p, cs)) ==> forall|i: int|
            0 <= i < cs.len() ==> cell_within(#[trigger] cs[i], p, b.len() as int),
    decreases b.len() - offset,
{
    if offset < 0 || offset >= b.len() {
    } else {
        let cm = cell_len(b, offset);
        let pm = pipe_len(b, offset + cm);
        assert(cm >= 0);
        assert(pm >= 0) by {
            let t = b.subrange(offset + cm, b.len() as int);
            if t.len() > 0 && t[0] == 124 {
                lemma_run_len(t, 1, ByteClass::TableSpace);
            }
        }
        if (cm > 0 || pm > 0) && cells.len() == 65535 {
        } else {
            let cells2 = if cm > 0 || pm > 0 {
                cells.push(cell_view(b, offset, cm, po))
            } else {
                cells
            };
            if cm > 0 || pm > 0 {
                lemma_cell_start_between(b, offset, po);
            }
            let off2 = offset + cm + pm;
            if pm == 0 {
                let re = row_end_len(b, off2);
                let off3 = off2 + re;
                assert(re >= 0) by {
                    let t = b.subrange(off2, b.len() as int);
                    if 0 <= off2 <= b.len() {
                        lemma_run_len(t, 0, ByteClass::TableSpace);
                    }
                }
                if re == 0 || off3 == b.len() {
                    if off3 == b.len() && cells2.len() > 0 {
                        assert forall|i: int| 0 <= i < cells2.len() implies cell_within(#[trigger] cells2[i], po, b.len() as int) by {
                            if i < cells.len() {
                                assert(cells2[i] == cells[i]);
                            }
                        }
                    }
                } else {
                    let off4 = off3 + pipe_len(b, off3);
                    if offset < off4 <= b.len() {
                        assert(pipe_len(b, off3) >= 0) by {
                            let t = b.subrange(off3, b.len() as int);
                            if t.len() > 0 && t[0] == 124 {
                                lemma_run_len(t, 1, ByteClass::TableSpace);
                            }
                        }
                        lemma_row_cells_within(b, off4, off3, seq![]);
                    }
                }
            } else if offset < off2 <= b.len() {
                assert forall|i: int| 0 <= i < cells2.len() implies cell_within(#[trigger] cells2[i], po, off2) by {
                    if i < cells.len() {
                        assert(cells2[i] == cells[i]);
                    }
                }
                lemma_row_cells_within(b, off2, po, cells2);
            }
        }
    }
}

/// The cells of a row lie on its last line, within the text.
pub proof fn lemma_row_spec_cells(b: Seq<u8>)
    ensures
        row_spec(b) matches Some((p, cs)) ==> forall|i: int|
            0 <= i < cs.len() ==> cell_within(#[trigger] cs[i], p, b.len() as int),
{
    let t = b;
    if t.len() > 0 && t[0] == 124 {
        lemma_run_len(t, 1, ByteClass::TableSpace);
    }
    lemma_row_cells_within(b, pipe_len(b, 0), 0, seq![]);
}

/// The row that `row` reads from `b`: the start of its last line and that
/// line's cells.
pub open spec fn row_spec(b: Seq<u8>) -> Option<(int, Seq<CellView>)> {
    row_scan(b, pipe_len(b, 0), 0, seq![])
}

/// A cell of a table row.
pub struct Cell<'t> {
    /// Where the cell starts, just after the `|` before it.
    pub start_offset: usize,
    /// The offset of the last byte of the cell's text.
    pub end_offset: usize,
    /// How far the cell's text is from its start.
    pub internal_offset: usize,
    /// The cell's text, with escaped pipes unescaped and trimmed.
    pub content: Cow<'t, str>,
}

/// A table row.
pub struct Row<'t> {
    /// Where the last line of the row starts; the lines before it are text
    /// of a paragraph before the table.
    pub paragraph_offset: usize,
    /// The cells of the row.
    pub cells: Vec<Cell<'t>>,
}

/// A cell's view.
pub open spec fn cell_of(c: Cell) -> CellView {
    CellView {
        start: c.start_offset as int,
        end: c.end_offset as int,
        internal: c.internal_offset as int,
        content: utf8(c.content@),
    }
}

fn opt_len(r: Option<usize>) -> (n: usize)
    ensures
        n == match r {
            Some(k) => k,
            None => 0,
        },
{
    match r {
        Some(k) => k,
        None => 0,
    }
}

/// Reads a table row: cells separated by `|`, a line ending, and nothing
/// after it.  A row that spans several lines keeps the cells of its last
/// line only, the lines before it being text of a paragraph.
pub fn row(string: &str, spoiler: bool) -> (r: Option<Row<'_>>)
    ensures
        row_spec(string.spec_bytes()) is None ==> r is None,
        row_spec(string.spec_bytes()) matches Some((po, cells)) ==> (r matches Some(rw)
            && rw.paragraph_offset == po && rw.cells@.map_values(|c: Cell| cell_of(c)) == cells),
{
    let b = string.as_bytes();
    let len = b.len();
    let mut cells: Vec<Cell> = Vec::new();
    let mut offset = opt_len(table_cell_end(b));
    let mut paragraph_offset: usize = 0;
    proof {
        assert(b@.subrange(0, len as int) =~= b@);
        lemma_pipe_len_bound(b@, 0);
        lemma_str_valid(string);
        assert(b@.subrange(0, len as int) =~= b@);
        assert(cells@.map_values(|c: Cell| cell_of(c)) =~= Seq::<CellView>::empty());
    }
    while offset < len
        invariant
            b@ == string.spec_bytes(),
            valid_utf8(b@),
            len == b@.len(),
            paragraph_offset <= offset <= len,
            offset == 0 || b@[offset - 1] < 0x80,
            offset == 0 ==> !(len > 0 && b@[0] == 124),
            row_scan(
                b@,
                offset as int,
                paragraph_offset as int,
                cells@.map_values(|c: Cell| cell_of(c)),
            ) == row_spec(b@),
        decreases len - offset,
    {
        let rest = slice_subrange(b, offset, len);
        proof {
            assert(rest@ == b@.subrange(offset as int, len as int));
        }
        let cm = opt_len(table_cell(rest));
        proof {
            lemma_cell_len_bound(b@, offset as int);
        }
        let rest2 = slice_subrange(b, offset + cm, len);
        proof {
            assert(rest2@ == b@.subrange(offset + cm, len as int));
        }
        let pm = opt_len(table_cell_end(rest2));
        proof {
            lemma_pipe_len_bound(b@, offset + cm);
        }
        let ghost old_cells = cells@.map_values(|c: Cell| cell_of(c));
        if cm > 0 || pm > 0 {
            proof {
                lemma_ascii_boundary(b@, offset as int);
                lemma_cell_end_boundary(b@, offset as int);
            }
            let mut cell = unescape_pipes(substr(string, offset, offset + cm));
            trim_cow(&mut cell);
            let mut start_offset = offset;
            let mut internal_offset: usize = 0;
            while start_offset > paragraph_offset && b[start_offset - 1] != 124
                invariant
                    len == b@.len(),
                    paragraph_offset <= start_offset <= offset <= len,
                    internal_offset == offset - start_offset,
                    cell_start(b@, start_offset as int, paragraph_offset as int) == cell_start(
                        b@,
                        offset as int,
                        paragraph_offset as int,
                    ),
                decreases start_offset,
            {
                start_offset = start_offset - 1;
                internal_offset = internal_offset + 1;
            }
            if cells.len() == 65535 {
                return None;
            }
            cells.push(
                Cell {
                    start_offset,
                    end_offset: offset + cm - 1,
                    internal_offset,
                    content: cell,
                },
            );
            proof {
                assert(cells@.map_values(|c: Cell| cell_of(c)) =~= old_cells.push(
                    cell_view(b@, offset as int, cm as int, paragraph_offset as int),
                ));
            }
        }
        let ghost cells2 = cells@.map_values(|c: Cell| cell_of(c));
        offset = offset + cm + pm;
        if pm == 0 {
            let rest3 = slice_subrange(b, offset, len);
            proof {
                assert(rest3@ == b@.subrange(offset as int, len as int));
            }
            let re = opt_len(table_row_end(rest3));
            proof {
                lemma_row_end_len_bound(b@, offset as int);
            }
            offset = offset + re;
            if re == 0 || offset == len {
                if offset != len || cells.len() == 0 {
                    return None;
                }
                return Some(Row { paragraph_offset, cells });
            }
            paragraph_offset = offset;
            cells = Vec::new();
            let rest4 = slice_subrange(b, offset, len);
            proof {
                assert(rest4@ == b@.subrange(offset as int, len as int));
            }
            let pl = opt_len(table_cell_end(rest4));
            proof {
                lemma_pipe_len_bound(b@, offset as int);
                assert(cells@.map_values(|c: Cell| cell_of(c)) =~= Seq::<CellView>::empty());
            }
            offset = offset + pl;
        }
    }
    if offset != len || cells.len() == 0 {
        None
    } else {
        Some(Row { paragraph_offset, cells })
    }
}

/// Whether `line` is a table row.
pub fn matches(line: &str, spoiler: bool) -> (r: bool)
    ensures
        r == row_spec(line.spec_bytes()) is Some,
{
    row(line, spoiler).is_some()
}

proof fn lemma_cell_len_bound(b: Seq<u8>, i: int)
    requires
        0 <= i <= b.len(),
    ensures
        0 <= cell_len(b, i) <= b.len() - i,
        i + cell_len(b, i) < b.len() ==> (b[i + cell_len(b, i)] == 124 || b[i + cell_len(b, i)]
            == 13 || b[i + cell_len(b, i)] == 10),
{
    let t = b.subrange(i, b.len() as int);
    lemma_esc_run_end(t, 0, ByteClass::CellStop);
    let e = esc_run_end(t, 0, ByteClass::CellStop);
    if e < t.len() {
        assert(t[e] == b[i + e]);
    }
}

proof fn lemma_cell_end_boundary(b: Seq<u8>, i: int)
    requires
        0 <= i <= b.len(),
        valid_utf8(b),
    ensures
        is_char_boundary(b, i + cell_len(b, i)),
{
    lemma_cell_len_bound(b, i);
    lemma_ascii_boundary(b, i + cell_len(b, i));
}

proof fn lemma_pipe_len_bound(b: Seq<u8>, i: int)
    requires
        0 <= i <= b.len(),
    ensures
        0 <= pipe_len(b, i) <= b.len() - i,
        pipe_len(b, i) > 0 ==> b[i] == 124 && b[i + pipe_len(b, i) - 1] < 0x80,
{
    let t = b.subrange(i, b.len() as int);
    if t.len() > 0 && t[0] == 124 {
        lemma_run_len(t, 1, ByteClass::TableSpace);
        let n = 1 + run_len(t, 1, ByteClass::TableSpace);
        assert(b[i + n - 1] == t[n - 1]);
    }
}

proof fn lemma_row_end_len_bound(b: Seq<u8>, i: int)
    requires
        0 <= i <= b.len(),
    ensures
        0 <= row_end_len(b, i) <= b.len() - i,
        row_end_len(b, i) > 0 ==> b[i + row_end_len(b, i) - 1] == 10,
{
    let t = b.subrange(i, b.len() as int);
    lemma_run_len(t, 0, ByteClass::TableSpace);
    let n = run_len(t, 0, ByteClass::TableSpace);
    if 0 <= n < t.len() && t[n] == 10 {
        assert(b[i + n] == t[n]);
    } else if 0 <= n && n + 1 < t.len() && t[n] == 13 && t[n + 1] == 10 {
        assert(b[i + n + 1] == t[n + 1]);
    }
}


/// The alignment a cell of a delimiter row gives its column: a colon at
/// its start aligns left, at its end right, at both ends center.
pub open spec fn alignment_of(c: Seq<u8>) -> TableAlignment {
    let left = c.len() > 0 && c[0] == 58;
    let right = c.len() > 0 && c[c.len() - 1] == 58;
    if left && right {
        TableAlignment::Center
    } else if left {
        TableAlignment::Left
    } else if right {
        TableAlignment::Right
    } else {
        TableAlignment::Unaligned
    }
}

fn alignment_exec(c: &str) -> (r: TableAlignment)
    ensures
        r == alignment_of(c.spec_bytes()),
{
    let b = c.as_bytes();
    let n = b.len();
    let left = n > 0 && b[0] == 58;
    let right = n > 0 && b[n - 1] == 58;
    if left && right {
        TableAlignment::Center
    } else if left {
        TableAlignment::Left
    } else if right {
        TableAlignment::Right
    } else {
        TableAlignment::Unaligned
    }
}

/// The text of a cell, as a string of its own.
fn cell_text(c: &Cell) -> (r: String)
    ensures
        utf8(r@) == cell_of(*c).content,
{
    match &c.content {
        Cow::Borrowed(s) => (*s).to_owned(),
        Cow::Owned(s) => s.clone(),
    }
}

/// Whether a paragraph whose text is `content` becomes the header row of a
/// table on the line whose text from its first non-space on is `rest`: the
/// line is a delimiter row, the paragraph's last line a row, and both have
/// as many cells.
pub open spec fn table_opens(rest: Seq<u8>, content: Seq<u8>) -> bool {
    &&& table_start_spec(rest) is Some
    &&& row_spec(rest) matches Some((_, d))
    &&& row_spec(content) matches Some((_, h))
    &&& h.len() == d.len()
}

/// The cells of the delimiter row `rest` and of the header row `content`.
pub open spec fn header_cells(rest: Seq<u8>, content: Seq<u8>) -> (Seq<CellView>, Seq<CellView>) {
    (row_spec(rest)->Some_0.1, row_spec(content)->Some_0.1)
}

/// The new nodes of a table opened under `container`: the table at `t`,
/// past the nodes there were, its header row right after it, and one cell
/// per header cell after that, each holding its cell's text; the nodes
/// there were, but for the paragraph, keep their data, and all keep their
/// parents.
pub open spec fn table_built(
    o: Seq<crate::arena_tree::Node<Ast>>,
    n: Seq<crate::arena_tree::Node<Ast>>,
    container: Id,
    t: int,
    d: Seq<CellView>,
    h: Seq<CellView>,
) -> bool {
    &&& t >= o.len()
    &&& n.len() == t + 2 + h.len()
    &&& forall|j: int| 0 <= j < o.len() && j != container.0 ==> (#[trigger] n[j]).value() == o[j].value()
    &&& forall|j: int| 0 <= j < o.len() ==> (#[trigger] n[j]).parent_link() == o[j].parent_link()
    &&& n[t].parent_link() == Some(container)
    &&& n[t].value().value matches NodeValue::Table(nt) && nt.num_columns == h.len() && nt.num_rows == 0
        && nt.num_nonempty_cells == 0 && nt.alignments@ == d.map_values(
        |c: CellView| alignment_of(c.content),
    )
    &&& n[t + 1].parent_link() == Some(Id(t as usize))
    &&& n[t + 1].value().value == NodeValue::TableRow(true)
    &&& forall|i: int|
        0 <= i < h.len() ==> (#[trigger] n[t + 2 + i]).parent_link() == Some(Id((t + 1) as usize))
            && n[t + 2 + i].value().value == NodeValue::TableCell && utf8(
            n[t + 2 + i].value().content@,
        ) == h[i].content
}

/// Whether opening a table on `container` first puts the lines of the
/// paragraph before its last one, which then are no part of the table, in a
/// paragraph of their own before it: there are such lines, and the
/// paragraph's parent can hold a paragraph.
pub open spec fn preface_split(o: Seq<crate::arena_tree::Node<Ast>>, container: Id, po: int) -> bool {
    &&& po > 0
    &&& o[container.0 as int].parent_link() matches Some(p)
    &&& p.0 < o.len()
    &&& can_contain_spec(o[p.0 as int].value().value, NodeValue::Paragraph)
}

/// The number of bytes before `i` back to the nearest line feed.
pub open spec fn back_to_newline(b: Seq<u8>, i: int) -> nat
    decreases i,
{
    if i <= 0 || b[i - 1] == 10 {
        0
    } else {
        1 + back_to_newline(b, i - 1)
    }
}

/// The line endings of the lines before a row's last one, starting at
/// `po`, once escaped pipes are unescaped.
pub open spec fn preface_lines(content: Seq<u8>, po: int) -> nat {
    let u = unpipe(content.subrange(0, po), 0, false);
    line_endings(u, u.len() as int)
}

/// Where the paragraph of the lines before a row's last one ends: the last
/// of its line offsets (0 if it has none) plus the length of its last line.
pub open spec fn preface_end_column(a: Ast, content: Seq<u8>, po: int) -> int {
    let nl = preface_lines(content, po);
    (if nl > 0 {
        a.line_offsets@[nl - 1] as int
    } else {
        0
    }) + back_to_newline(content, po - 1)
}

/// The positions of that paragraph can be worked out: the table's
/// paragraph has a line offset for each of its lines, and the line and
/// column arithmetic stays within a `usize`.
pub open spec fn preface_fits(a: Ast, content: Seq<u8>, po: int) -> bool {
    let nl = preface_lines(content, po);
    &&& a.line_offsets@.len() >= nl
    &&& a.sourcepos.start.line + nl >= 1
    &&& a.sourcepos.start.line + nl <= usize::MAX
    &&& preface_end_column(a, content, po) <= usize::MAX
}

/// The positions of a header row of `clen` bytes whose last line starts at
/// `po` can be worked out from column `col`: the text runs at least two
/// bytes past the line's start, the columns stay within an `isize`, and no
/// cell's line offset goes below zero.
pub open spec fn header_fits(col: int, po: int, clen: int, h: Seq<CellView>) -> bool {
    &&& clen >= po + 2
    &&& col + clen <= isize::MAX
    &&& forall|i: int|
        0 <= i < h.len() ==> col + (#[trigger] h[i]).start >= 1 && col + h[i].start - 1 + h[i].internal >= po
}

/// The positions of a table at `t` opened on a row whose last line starts
/// at `po` and at `start`: the table and its header row start there, the
/// row ends two bytes before the text's end, and each cell spans its text
/// and has one line offset, where its text starts, less one.
pub open spec fn header_placed(
    n: Seq<crate::arena_tree::Node<Ast>>,
    t: int,
    start: LineColumn,
    po: int,
    clen: int,
    h: Seq<CellView>,
) -> bool {
    let col = start.column as int;
    &&& n[t].value().sourcepos == (Sourcepos { start: start, end: LineColumn { line: start.line, column: 0 } })
    &&& n[t + 1].value().sourcepos == (Sourcepos {
        start: start,
        end: LineColumn { line: start.line, column: (col + clen - 2 - po) as usize },
    })
    &&& forall|i: int|
        0 <= i < h.len() ==> (#[trigger] n[t + 2 + i]).value().sourcepos == (Sourcepos {
            start: LineColumn { line: start.line, column: (col + h[i].start - po) as usize },
            end: LineColumn { line: start.line, column: (col + h[i].end - po) as usize },
        }) && n[t + 2 + i].value().line_offsets@ == seq![(col + h[i].start - 1 + h[i].internal - po) as usize]
}

/// The number of bytes of `b` before `i`, back to the nearest line feed.
fn line_tail_len(b: &[u8], i: usize) -> (r: usize)
    requires
        i <= b@.len(),
    ensures
        r == back_to_newline(b@, i as int),
{
    let mut j: usize = i;
    let mut c: usize = 0;
    while j > 0 && b[j - 1] != 10
        invariant
            j <= i <= b@.len(),
            c + back_to_newline(b@, j as int) == back_to_newline(b@, i as int),
            c == i - j,
        decreases j,
    {
        j = j - 1;
        c = c + 1;
    }
    c
}

/// The line endings of a copy-on-write string.
fn cow_line_endings(t: &Cow<str>) -> (r: usize)
    ensures
        r == line_endings(utf8(t@), utf8(t@).len() as int),
{
    match t {
        Cow::Borrowed(s) => count_newlines(s).0,
        Cow::Owned(s) => count_newlines(s.as_str()).0,
    }
}

/// The first `k` entries of `v`.
fn prefix_copy(v: &Vec<usize>, k: usize) -> (r: Vec<usize>)
    requires
        k <= v@.len(),
    ensures
        r@ == v@.subrange(0, k as int),
{
    let mut r: Vec<usize> = Vec::new();
    let mut j: usize = 0;
    while j < k
        invariant
            j <= k <= v@.len(),
            r@ == v@.subrange(0, j as int),
        decreases k - j,
    {
        r.push(v[j]);
        j = j + 1;
        proof {
            assert(r@ =~= v@.subrange(0, j as int));
        }
    }
    r
}

/// The positions the paragraph `a` has once the lines of `content` before
/// `po` went to a paragraph of their own: it starts that many lines lower.
pub open spec fn moved_down(a: Ast, content: Seq<u8>, po: int) -> Ast {
    Ast {
        sourcepos: Sourcepos {
            start: LineColumn {
                line: (a.sourcepos.start.line + preface_lines(content, po)) as usize,
                column: a.sourcepos.start.column,
            },
            end: a.sourcepos.end,
        },
        ..a
    }
}

/// Puts the lines of the paragraph `container` before `po`, its text being
/// `cs`, in a paragraph of their own just before it, their escaped pipes
/// unescaped and the text trimmed, and moves the paragraph's start down
/// past them.
#[verifier::rlimit(60)]
fn insert_preface(arena: &mut Arena<Ast>, container: Id, cs: &str, po: usize)
    requires
        old(arena).wf(),
        container.0 < old(arena).nodes().len(),
        old(arena).nodes().len() + 1 < usize::MAX,
        old(arena).nodes()[container.0 as int].parent_link() is Some,
        0 < po <= cs.spec_bytes().len(),
        cs.spec_bytes()[po - 1] == 10,
        preface_fits(old(arena).nodes()[container.0 as int].value(), cs.spec_bytes(), po as int),
    ensures
        final(arena).wf(),
        ({
            let o = old(arena).nodes();
            let n = final(arena).nodes();
            let a = o[container.0 as int].value();
            let b = cs.spec_bytes();
            let nl = preface_lines(b, po as int);
            &&& n.len() == o.len() + 1
            &&& forall|j: int| 0 <= j < o.len() ==> (#[trigger] n[j]).parent_link() == o[j].parent_link()
            &&& forall|j: int| 0 <= j < o.len() && j != container.0 ==> (#[trigger] n[j]).value() == o[j].value()
            &&& n[container.0 as int].value() == moved_down(a, b, po as int)
            &&& n[o.len() as int].parent_link() == o[container.0 as int].parent_link()
            &&& n[o.len() as int].value().value == NodeValue::Paragraph
            &&& utf8(n[o.len() as int].value().content@) == trim_bytes(unpipe(b.subrange(0, po as int), 0, false))
            &&& n[o.len() as int].value().sourcepos == (Sourcepos {
                start: a.sourcepos.start,
                end: LineColumn {
                    line: (a.sourcepos.start.line + nl - 1) as usize,
                    column: preface_end_column(a, b, po as int) as usize,
                },
            })
            &&& n[o.len() as int].value().line_offsets@ == a.line_offsets@.subrange(0, nl as int)
        }),
{
    proof {
        let cb = cs.spec_bytes();
        lemma_str_valid(cs);
        lemma_ascii_boundary(cb, 0);
        lemma_ascii_boundary(cb, po as int);
    }
    let ghost o = arena.nodes();
    let start = container.data(arena).sourcepos.start;
    let preface = substr(cs, 0, po);
    let mut text = unescape_pipes(preface);
    let newlines = cow_line_endings(&text);
    proof {
        assert(newlines == preface_lines(cs.spec_bytes(), po as int));
    }
    trim_cow(&mut text);
    let mut para = Ast::new(NodeValue::Paragraph, start);
    para.sourcepos.end.line = start.line + newlines - 1;
    para.line_offsets = prefix_copy(&container.data(arena).line_offsets, newlines);
    let last = if newlines > 0 {
        para.line_offsets[newlines - 1]
    } else {
        0
    };
    let tail = line_tail_len(cs.as_bytes(), po - 1);
    para.sourcepos.end.column = last + tail;
    para.content = cow_into_owned(text);
    let ghost a0 = o[container.0 as int].value();
    let ca = container.data_mut(arena);
    proof {
        assert forall|v: Ast| true implies {
            let w = #[trigger] crate::arena_tree::with_value(o, container.0 as int, v);
            &&& w.len() == o.len()
            &&& w[container.0 as int].value() == v
            &&& forall|j: int| 0 <= j < o.len() ==> w[j].parent_link() == o[j].parent_link()
            &&& forall|j: int| 0 <= j < o.len() && j != container.0 ==> w[j] == o[j]
        } by {
            crate::arena_tree::lemma_with_value(o, container.0 as int, v);
        }
    }
    ca.sourcepos.start.line = start.line + newlines;
    proof {
        assert(arena.nodes()[container.0 as int].value() == moved_down(o[container.0 as int].value(), cs.spec_bytes(), po as int));
    }
    let ghost mid = arena.nodes();
    proof {
        crate::arena_tree::lemma_places(*arena, container);
    }
    let pid = arena.new_node(para);
    proof {
        lemma_insert_before_places_prev(*arena, container, pid);
    }
    container.insert_before(arena, pid);
}

/// Appends to `header` one cell per cell of `cells`, each holding its
/// cell's text, spanning it on the line at `start`, whose text starts at
/// `po`, and with one line offset: where its text starts, less one.
#[verifier::rlimit(60)]
fn add_header_cells(arena: &mut Arena<Ast>, header: Id, cells: &Vec<Cell>, start: LineColumn, po: usize, clen: usize)
    requires
        old(arena).wf(),
        header.0 < old(arena).nodes().len(),
        old(arena).nodes().len() + cells@.len() < usize::MAX,
        header_fits(start.column as int, po as int, clen as int, cells@.map_values(|c: Cell| cell_of(c))),
        forall|i: int| 0 <= i < cells@.len() ==> cell_within(#[trigger] cell_of(cells@[i]), po as int, clen as int),
    ensures
        final(arena).wf(),
        ({
            let o = old(arena).nodes();
            let n = final(arena).nodes();
            let hv = cells@.map_values(|c: Cell| cell_of(c));
            let col = start.column as int;
            &&& n.len() == o.len() + cells@.len()
            &&& forall|j: int| 0 <= j < o.len() ==> (#[trigger] n[j]).value() == o[j].value()
            &&& forall|j: int| 0 <= j < o.len() ==> (#[trigger] n[j]).parent_link() == o[j].parent_link()
            &&& forall|i: int|
                0 <= i < hv.len() ==> (#[trigger] n[o.len() + i]).parent_link() == Some(header)
                    && n[o.len() + i].value().value == NodeValue::TableCell && utf8(n[o.len() + i].value().content@)
                    == hv[i].content && n[o.len() + i].value().sourcepos == (Sourcepos {
                    start: LineColumn { line: start.line, column: (col + hv[i].start - po) as usize },
                    end: LineColumn { line: start.line, column: (col + hv[i].end - po) as usize },
                }) && n[o.len() + i].value().line_offsets@ == seq![(col + hv[i].start - 1 + hv[i].internal - po) as usize]
        }),
{
    let ghost o = arena.nodes();
    let ghost hv = cells@.map_values(|c: Cell| cell_of(c));
    let n = cells.len();
    let mut k: usize = 0;
    while k < n
        invariant
            arena.wf(),
            k <= n,
            n == cells@.len(),
            hv == cells@.map_values(|c: Cell| cell_of(c)),
            header.0 < o.len(),
            o.len() + n < usize::MAX,
            arena.nodes().len() == o.len() + k,
            header_fits(start.column as int, po as int, clen as int, hv),
            forall|i: int| 0 <= i < n ==> cell_within(#[trigger] cell_of(cells@[i]), po as int, clen as int),
            forall|j: int| 0 <= j < o.len() ==> (#[trigger] arena.nodes()[j]).value() == o[j].value(),
            forall|j: int| 0 <= j < o.len() ==> (#[trigger] arena.nodes()[j]).parent_link() == o[j].parent_link(),
            forall|i: int|
                0 <= i < k ==> (#[trigger] arena.nodes()[o.len() + i]).parent_link() == Some(header)
                    && arena.nodes()[o.len() + i].value().value == NodeValue::TableCell && utf8(
                    arena.nodes()[o.len() + i].value().content@,
                ) == hv[i].content && arena.nodes()[o.len() + i].value().sourcepos == (Sourcepos {
                    start: LineColumn { line: start.line, column: (start.column + hv[i].start - po) as usize },
                    end: LineColumn { line: start.line, column: (start.column + hv[i].end - po) as usize },
                }) && arena.nodes()[o.len() + i].value().line_offsets@ == seq![
                    (start.column + hv[i].start - 1 + hv[i].internal - po) as usize,
                ],
        decreases n - k,
    {
        let cell = &cells[k];
        proof {
            assert(cell_of(*cell) == hv[k as int]);
            assert(cell_within(cell_of(cells@[k as int]), po as int, clen as int));
        }
        let mut cell_ast = Ast::new(
            NodeValue::TableCell,
            LineColumn { line: start.line, column: start.column + cell.start_offset - po },
        );
        cell_ast.sourcepos.end = start.column_add((cell.end_offset - po) as isize);
        cell_ast.content = cell_text(cell);
        let mut offsets: Vec<usize> = Vec::new();
        offsets.push(start.column + cell.start_offset - 1 + cell.internal_offset - po);
        cell_ast.line_offsets = offsets;
        let c = arena.new_node(cell_ast);
        proof {
            lemma_append_places_last(*arena, header, c);
        }
        header.append(arena, c);
        k = k + 1;
    }
}

/// Tries to open a table on a paragraph `container` with the line `line`,
/// whose first non-space byte is at `first_nonspace`.  A paragraph that
/// was looked at already, or a line that cannot start a table, leaves
/// things as they are: `(container, false, false)`.  A line that can but
/// does not, because it is no delimiter row or the paragraph's last line no
/// row with as many cells, gives `(container, false, true)`.  Otherwise a
/// table is appended to the paragraph, with its alignments from the
/// delimiter row and a header row of the paragraph's cells, and the table
/// is given back: `(table, true, false)`.  Lines of the paragraph before its
/// last one go first to a paragraph of their own (see `preface_split`),
/// their escaped pipes unescaped and the text trimmed, with the
/// paragraph's line offsets for those lines, and the paragraph then starts
/// that many lines lower.  The table and its header row start where the
/// paragraph now starts, and each cell spans its text (see `header_placed`).
#[verifier::rlimit(100)]
#[verifier::spinoff_prover]
pub fn try_opening_header(
    arena: &mut Arena<Ast>,
    container: Id,
    line: &str,
    first_nonspace: usize,
    options: &Options,
) -> (r: Option<(Id, bool, bool)>)
    requires
        old(arena).wf(),
        container.0 < old(arena).nodes().len(),
        first_nonspace <= line.spec_bytes().len(),
        is_char_boundary(line.spec_bytes(), first_nonspace as int),
        row_spec(utf8(old(arena).nodes()[container.0 as int].value().content@)) matches Some((_, h))
            ==> old(arena).nodes().len() + 3 + h.len() < usize::MAX,
        ({
            let o = old(arena).nodes();
            let a = o[container.0 as int].value();
            let rest = line.spec_bytes().subrange(first_nonspace as int, line.spec_bytes().len() as int);
            let content = utf8(a.content@);
            let po = row_spec(content)->Some_0.0;
            (!a.table_visited && table_opens(rest, content)) ==> header_fits(
                a.sourcepos.start.column as int,
                po,
                content.len() as int,
                row_spec(content)->Some_0.1,
            ) && (preface_split(o, container, po) ==> preface_fits(a, content, po))
        }),
    ensures
        final(arena).wf(),
        ({
            let o = old(arena).nodes();
            let a = o[container.0 as int].value();
            let rest = line.spec_bytes().subrange(first_nonspace as int, line.spec_bytes().len() as int);
            let content = utf8(a.content@);
            &&& (a.table_visited || table_start_spec(rest) is None) ==> r == Some((container, false, false))
                && final(arena).nodes() == o
            &&& (!a.table_visited && table_start_spec(rest) is Some && !table_opens(rest, content))
                ==> r == Some((container, false, true)) && final(arena).nodes() == o
            &&& (!a.table_visited && table_opens(rest, content)) ==> ({
                let po = row_spec(content)->Some_0.0;
                let split = preface_split(o, container, po);
                let nl = preface_lines(content, po);
                &&& split ==> final(arena).nodes()[o.len() as int].value().value == NodeValue::Paragraph
                    && utf8(final(arena).nodes()[o.len() as int].value().content@) == trim_bytes(
                    unpipe(content.subrange(0, po), 0, false),
                ) && final(arena).nodes()[o.len() as int].parent_link() == o[container.0 as int].parent_link()
                    && final(arena).nodes()[o.len() as int].value().sourcepos == (Sourcepos {
                    start: a.sourcepos.start,
                    end: LineColumn {
                        line: (a.sourcepos.start.line + nl - 1) as usize,
                        column: preface_end_column(a, content, po) as usize,
                    },
                }) && final(arena).nodes()[o.len() as int].value().line_offsets@ == a.line_offsets@.subrange(0, nl as int)
                &&& final(arena).nodes()[container.0 as int].value() == if split {
                    Ast {
                        sourcepos: Sourcepos {
                            start: LineColumn {
                                line: (a.sourcepos.start.line + nl) as usize,
                                column: a.sourcepos.start.column,
                            },
                            end: a.sourcepos.end,
                        },
                        ..a
                    }
                } else {
                    a
                }
                &&& r matches Some((t, true, false)) && header_placed(
                    final(arena).nodes(),
                    t.0 as int,
                    final(arena).nodes()[container.0 as int].value().sourcepos.start,
                    po,
                    content.len() as int,
                    row_spec(content)->Some_0.1,
                )
                &&& r matches Some((t, true, false)) && t.0 == o.len() + (if split {
                    1int
                } else {
                    0int
                })
            }) && (r matches Some((t, true, false))
                && table_built(
                o,
                final(arena).nodes(),
                container,
                t.0 as int,
                header_cells(rest, content).0,
                header_cells(rest, content).1,
            ))
        }),
{
    let ghost o = arena.nodes();
    let visited = container.data(arena).table_visited;
    if visited {
        return Some((container, false, false));
    }
    proof {
        lemma_str_valid(line);
        lemma_ascii_boundary(line.spec_bytes(), line.spec_bytes().len() as int);
    }
    let rest = substr(line, first_nonspace, line.as_bytes().len());
    if table_start(rest.as_bytes()).is_none() {
        return Some((container, false, false));
    }
    let spoiler = options.extension.spoiler;
    let delimiter_row = match row(rest, spoiler) {
        Some(d) => d,
        None => {
            return Some((container, false, true));
        },
    };
    let content = container.data(arena).content.clone();
    let header_row = match row(content.as_str(), spoiler) {
        Some(h) => h,
        None => {
            return Some((container, false, true));
        },
    };
    let n = header_row.cells.len();
    if n != delimiter_row.cells.len() {
        return Some((container, false, true));
    }
    let start = container.data(arena).sourcepos.start;
    let po = header_row.paragraph_offset;
    let cs = content.as_str();
    let clen = cs.as_bytes().len();
    proof {
        lemma_row_spec_cells(cs.spec_bytes());
    }
    if po > 0 {
        if let Some(p) = container.parent(arena) {
            if p.0 < arena.len() && can_contain_type(&p.data(arena).value, &NodeValue::Paragraph) {
                proof {
                    let cb = cs.spec_bytes();
                    lemma_row_line_start(cb, pipe_len(cb, 0), 0, seq![]);
                }
                insert_preface(arena, container, cs, po);
            }
        }
    }
    let start2 = container.data(arena).sourcepos.start;
    let ghost base = arena.nodes().len();
    let ghost dv = delimiter_row.cells@.map_values(|c: Cell| cell_of(c));
    let ghost hv = header_row.cells@.map_values(|c: Cell| cell_of(c));
    let mut alignments: Vec<TableAlignment> = Vec::new();
    let mut i: usize = 0;
    while i < n
        invariant
            i <= n,
            n == delimiter_row.cells@.len(),
            dv == delimiter_row.cells@.map_values(|c: Cell| cell_of(c)),
            alignments@ == dv.take(i as int).map_values(|c: CellView| alignment_of(c.content)),
        decreases n - i,
    {
        let text = cell_text(&delimiter_row.cells[i]);
        let al = alignment_exec(text.as_str());
        alignments.push(al);
        i = i + 1;
        proof {
            assert(dv.take(i as int) =~= dv.take(i - 1).push(dv[i - 1]));
            assert(alignments@ =~= dv.take(i as int).map_values(|c: CellView| alignment_of(c.content)));
        }
    }
    proof {
        assert(dv.take(n as int) =~= dv);
    }
    let table_value = NodeValue::Table(
        NodeTable { alignments, num_columns: n, num_rows: 0, num_nonempty_cells: 0 },
    );
    let ghost mid = arena.nodes();
    let table = arena.new_node(Ast::new(table_value, start2));
    proof {
        lemma_append_places_last(*arena, container, table);
    }
    container.append(arena, table);
    let mut hdr = Ast::new(NodeValue::TableRow(true), start2);
    hdr.sourcepos.end = start2.column_add((clen - 2 - po) as isize);
    let header = arena.new_node(hdr);
    proof {
        lemma_append_places_last(*arena, table, header);
    }
    table.append(arena, header);
    proof {
        assert forall|i: int| 0 <= i < header_row.cells@.len() implies cell_within(
            #[trigger] cell_of(header_row.cells@[i]),
            po as int,
            clen as int,
        ) by {
            assert(hv[i] == cell_of(header_row.cells@[i]));
        }
    }
    add_header_cells(arena, header, &header_row.cells, start2, po, clen);
    Some((table, true, false))
}

} // verus!
