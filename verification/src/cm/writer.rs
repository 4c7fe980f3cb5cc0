//! The output end of the CommonMark formatter: it writes text with the
//! current block prefix at the start of each line, escapes what would
//! otherwise read as markup, and, with a line width, breaks long lines at
//! spaces.
//!
//! With a width, text since the last line break waits in a buffer so that
//! a line that grows too long can still be broken at its last space.

use vstd::prelude::*;
use vstd::string::*;
use vstd::utf8::*;

use crate::ctype::{is_alpha_byte, is_digit_byte, is_punct_byte, is_space_byte, isalpha, isdigit, isspace, isspace_char};
use crate::strings::remove_from_start;
use crate::text::{
    lemma_str_valid, decimal, lemma_encode_ascii_char, lemma_encode_concat, push_ascii, push_char, push_decimal, push_str,
    str_chars, substr, utf8,
};

verus! {

broadcast use vstd::utf8::group_utf8_lib;

/// How text is escaped on output.
#[derive(Debug, Clone, Copy, PartialEq, Eq, Structural)]
pub enum Escaping {
    /// Written as it is.
    Literal,
    /// Ordinary text: markup characters are escaped.
    Normal,
    /// A link destination.
    Url,
    /// A link title.
    Title,
}

/// The parts of the formatter's state that writing changes.
pub struct WriterView {
    /// What has gone to the output.
    pub out: Seq<u8>,
    /// What waits in the wrap buffer.
    pub buf: Seq<u8>,
    /// The last bytes written, at most two.
    pub window: Seq<u8>,
    /// The column of the current line.
    pub column: int,
    /// How many line breaks are owed before the next text.
    pub need_cr: int,
    /// Where in the buffer the last place to break a line is, or zero.
    pub last_breakable: int,
    /// Nothing has been written on the current line yet.
    pub begin_line: bool,
    /// Only digits have been written on the current line.
    pub begin_content: bool,
}

/// The window after writing `s`: its last two bytes, or the last byte of
/// the old window and the single byte of `s`.
pub open spec fn window_after(window: Seq<u8>, s: Seq<u8>) -> Seq<u8> {
    if s.len() == 0 {
        window
    } else if s.len() > 1 {
        s.subrange(s.len() - 2, s.len() as int)
    } else if window.len() == 2 {
        window.drop_first().push(s[0])
    } else {
        window.push(s[0])
    }
}

/// The state after writing the bytes `s`.  Without a width they go
/// straight to the output; with one they wait in the buffer until a line
/// ends, when the buffer and they are flushed together.  A line end starts
/// a new line: column zero, nothing written, no place to break.
pub open spec fn write_spec(v: WriterView, s: Seq<u8>, width: int) -> WriterView {
    if s.len() == 0 {
        v
    } else {
        let window = window_after(v.window, s);
        let cr = window.last() == 10;
        let (out, buf) = if width == 0 {
            (v.out + s, v.buf)
        } else if cr {
            (v.out + v.buf + s, Seq::empty())
        } else {
            (v.out, v.buf + s)
        };
        if cr {
            WriterView {
                out,
                buf,
                window,
                column: 0,
                begin_line: true,
                begin_content: true,
                last_breakable: 0,
                ..v
            }
        } else {
            WriterView { out, buf, window, ..v }
        }
    }
}

/// The state after writing the block prefix `p`, whose last two bytes
/// become the window.
pub open spec fn prefix_spec(v: WriterView, p: Seq<u8>, width: int) -> WriterView {
    if p.len() == 0 {
        v
    } else {
        let (out, buf) = if width == 0 {
            (v.out + p, v.buf)
        } else {
            (v.out, v.buf + p)
        };
        WriterView { out, buf, window: p.subrange(p.len() - 2, p.len() as int), ..v }
    }
}

/// Whether `outc` escapes `c`: only ASCII, never literally; in text the
/// characters that could start markup (a `-`, `+` or `=` only at the start
/// of a line's content, a `.` or `)` only after a line-leading number, an
/// `&` only before a letter, a `!` only before `[`), in destinations the
/// characters that would end them, in titles quotes and the like.
pub open spec fn needs_escaping(
    c: char,
    esc: Escaping,
    nextb: u8,
    follows_digit: bool,
    begin_content: bool,
    autolink: bool,
) -> bool {
    (c as u32) < 0x80 && esc != Escaping::Literal && ((esc == Escaping::Normal && ((c as u32) < 0x20
        || c == '*' || c == '_' || c == '[' || c == ']' || c == '#' || c == '<' || c == '>' || c
        == '\\' || c == '`' || c == '!' || (autolink && c == '@') || (c == '&' && is_alpha_byte(nextb))
        || (c == '!' && nextb == 0x5b) || (begin_content && (c == '-' || c == '+' || c == '=')
        && !follows_digit) || (begin_content && (c == '.' || c == ')') && follows_digit && (nextb
        == 0 || is_space_byte(nextb))))) || (esc == Escaping::Url && (c == '`' || c == '<' || c
        == '>' || is_space_byte(c as u8) || c == '\\' || c == ')' || c == '(')) || (esc
        == Escaping::Title && (c == '`' || c == '<' || c == '>' || c == '"' || c == '\\')))
}

/// An uppercase hexadecimal digit.
pub open spec fn hex_digit(n: nat) -> char {
    if n < 10 {
        ((48 + n) as u8) as char
    } else {
        ((55 + n) as u8) as char
    }
}

/// A byte in two hexadecimal digits, padded with a space on the left.
pub open spec fn hex_padded(n: nat) -> Seq<char> {
    if n < 16 {
        seq![' ', hex_digit(n)]
    } else {
        seq![hex_digit(n / 16), hex_digit(n % 16)]
    }
}

/// What `outc` writes for `c`: an escaped space in a destination as `%`
/// and its hexadecimal code, other punctuation after a backslash, NUL as
/// the replacement character, other characters as a decimal reference; a
/// character that needs no escaping as it is.
pub open spec fn outc_text(c: char, escaped: bool, esc: Escaping) -> Seq<char> {
    if escaped {
        if esc == Escaping::Url && is_space_byte(c as u8) {
            seq!['%'] + hex_padded(c as nat)
        } else if is_punct_byte(c as u8) {
            seq!['\\', c]
        } else if c == '\0' {
            seq!['\u{fffd}']
        } else {
            seq!['&', '#'] + decimal(c as nat) + seq![';']
        }
    } else {
        seq![c]
    }
}

/// The state after `outc` writes `text`: as `write_spec`, and the column
/// moved on by its length.
pub open spec fn outc_spec(v: WriterView, text: Seq<u8>, width: int) -> WriterView {
    let w = write_spec(v, text, width);
    WriterView { column: w.column + text.len(), ..w }
}

/// The last byte written is a digit.
pub open spec fn follows_digit(window: Seq<u8>) -> bool {
    window.len() > 0 && is_digit_byte(window.last())
}

/// An uppercase hexadecimal digit.
fn hex_digit_exec(n: u8) -> (c: char)
    requires
        n < 16,
    ensures
        c == hex_digit(n as nat),
        (c as u32) < 0x80,
{
    if n < 10 {
        (48 + n) as char
    } else {
        (55 + n) as char
    }
}

/// The characters `outc` writes for `c`; see `outc_text`.
fn outc_string(c: char, escaped: bool, escaping: Escaping) -> (out: String)
    requires
        escaped ==> (c as u32) < 0x80,
    ensures
        out@ == outc_text(c, escaped, escaping),
        utf8(out@).len() <= 6,
{
    let mut out = String::new();
    if escaped {
        let b = c as u32 as u8;
        if escaping == Escaping::Url && isspace_char(c) {
            push_ascii(&mut out, '%');
            if b < 16 {
                push_ascii(&mut out, ' ');
                push_ascii(&mut out, hex_digit_exec(b));
            } else {
                push_ascii(&mut out, hex_digit_exec(b / 16));
                push_ascii(&mut out, hex_digit_exec(b % 16));
            }
        } else if (33 <= b && b <= 47) || (58 <= b && b <= 64) || (91 <= b && b <= 96) || (123 <= b
            && b <= 126) {
            push_ascii(&mut out, '\\');
            push_ascii(&mut out, c);
        } else if c == '\0' {
            push_char(&mut out, '\u{fffd}');
        } else {
            push_ascii(&mut out, '&');
            push_ascii(&mut out, '#');
            push_decimal(&mut out, b as usize);
            push_ascii(&mut out, ';');
        }
    } else {
        push_char(&mut out, c);
    }
    proof {
        assert(out@ =~= outc_text(c, escaped, escaping));
        lemma_outc_text_len(c, escaped, escaping);
    }
    out
}

/// What `outc` writes takes at most six bytes.
proof fn lemma_outc_text_len(c: char, escaped: bool, esc: Escaping)
    requires
        escaped ==> (c as u32) < 0x80,
    ensures
        utf8(outc_text(c, escaped, esc)).len() <= 6,
{
    let t = outc_text(c, escaped, esc);
    reveal_with_fuel(encode_utf8, 2);
    if escaped && !(esc == Escaping::Url && is_space_byte(c as u8)) && !is_punct_byte(c as u8) && c != '\0' {
        let n = c as nat;
        reveal_with_fuel(decimal, 3);
        assert(decimal(n).len() <= 3);
        assert forall|i: int| 0 <= i < t.len() implies (t[i] as u32) < 0x80 by {
            if 2 <= i < t.len() - 1 {
                let k = i - 2;
                assert(t[i] == decimal(n)[k]);
                crate::text::lemma_decimal_ascii(n, k);
            }
        }
        assert(is_ascii_chars(t));
        is_ascii_chars_encode_utf8(t);
    } else if escaped && esc == Escaping::Url && is_space_byte(c as u8) {
        let n = c as nat;
        let h = hex_padded(n);
        let x = (48 + n / 16) as u8;
        let y = (48 + n % 16) as u8;
        let z = (55 + n % 16) as u8;
        assert((x as char) as u32 == x as u32);
        assert((y as char) as u32 == y as u32);
        assert((z as char) as u32 == z as u32);
        assert(forall|i: int| 0 <= i < t.len() ==> (t[i] as u32) < 0x80);
        assert(is_ascii_chars(t));
        is_ascii_chars_encode_utf8(t);
    } else if escaped && is_punct_byte(c as u8) {
        assert(forall|i: int| 0 <= i < t.len() ==> (t[i] as u32) < 0x80);
        assert(is_ascii_chars(t));
        is_ascii_chars_encode_utf8(t);
    } else {
        assert(t.len() == 1);
        assert(t.drop_first() =~= Seq::<char>::empty());
    }
}

/// An ASCII digit.
pub open spec fn is_digit_char(c: char) -> bool {
    48 <= c as u32 && c as u32 <= 57
}

/// How many line breaks at the end of the window are already written.
pub open spec fn trailing_newlines(window: Seq<u8>) -> int {
    if window.len() == 0 || window.last() != 10 {
        0
    } else if window.len() == 2 && window[0] == 10 {
        2
    } else {
        1
    }
}

/// The state after the owed line breaks are written: those already at
/// the end of the window count, nothing is written before any text, and
/// a blank line gets the prefix.
pub open spec fn settle_crs(v: WriterView, p: Seq<u8>, width: int, consume: int) -> WriterView
    decreases v.need_cr,
{
    if v.need_cr <= 0 {
        v
    } else if v.window.len() == 0 {
        settle_crs(WriterView { need_cr: v.need_cr - 1, ..v }, p, width, consume)
    } else if consume > 0 {
        settle_crs(WriterView { need_cr: v.need_cr - 1, ..v }, p, width, consume - 1)
    } else {
        let w = write_spec(v, seq![10u8], width);
        let w2 = if v.need_cr > 1 {
            WriterView { column: p.len() as int, ..prefix_spec(w, p, width) }
        } else {
            w
        };
        settle_crs(WriterView { need_cr: v.need_cr - 1, ..w2 }, p, width, 0)
    }
}

/// The prefix is written at the start of a line.
pub open spec fn line_start(v: WriterView, p: Seq<u8>, width: int) -> WriterView {
    if v.begin_line {
        WriterView { column: p.len() as int, ..prefix_spec(v, p, width) }
    } else {
        v
    }
}

/// The byte that follows character `k`: the next character's, when it is
/// ASCII (any other byte standing as 0x80), or zero at the end.
pub open spec fn next_byte(cs: Seq<char>, k: int) -> u8 {
    if k + 1 < cs.len() {
        if (cs[k + 1] as u32) < 0x80 {
            (cs[k + 1] as u32) as u8
        } else {
            0x80
        }
    } else {
        0
    }
}

/// How many spaces follow from character `j` on.
pub open spec fn space_run(cs: Seq<char>, j: int) -> int
    decreases cs.len() - j,
{
    if 0 <= j < cs.len() && cs[j] == ' ' {
        1 + space_run(cs, j + 1)
    } else {
        0
    }
}

/// A line grown past the width is broken at its last space: the buffer up
/// to it and a line end go out, and the rest starts the new line after the
/// prefix.
pub open spec fn wrap_check(v: WriterView, p: Seq<u8>, width: int) -> WriterView {
    if width > 0 && v.column > width && !v.begin_line && v.last_breakable > 0 {
        let lb = v.last_breakable;
        let nb = p + v.buf.subrange(lb + 1, v.buf.len() as int);
        WriterView {
            out: v.out + v.buf.subrange(0, lb) + seq![10u8],
            buf: nb,
            column: nb.len() as int,
            last_breakable: 0,
            begin_line: false,
            begin_content: false,
            ..v
        }
    } else {
        v
    }
}

/// The formatter settings that writing reads.
pub struct WriterConfig {
    /// The block prefix, in bytes.
    pub prefix: Seq<u8>,
    /// The line width; zero for none.
    pub width: int,
    /// `|` is escaped.
    pub escape_pipes: bool,
    /// `@` is escaped.
    pub autolink: bool,
}

/// A backslash before a pipe when pipes are escaped.
pub open spec fn pipe_step(v: WriterView, cfg: WriterConfig, c: char) -> WriterView {
    if cfg.escape_pipes && c == '|' {
        write_spec(v, seq![92u8], cfg.width)
    } else {
        v
    }
}

/// A space where lines may wrap: nothing at a line's start; otherwise one
/// space, which marks a place to break unless a digit follows (it could
/// start a list item), swallowing the spaces after it.  Gives the new
/// state and the index of the next character.
pub open spec fn space_step(v: WriterView, cfg: WriterConfig, cs: Seq<char>, k: int) -> (WriterView, int) {
    if !v.begin_line {
        let lns = v.buf.len() as int;
        let w = write_spec(v, seq![32u8], cfg.width);
        let w2 = WriterView { column: w.column + 1, begin_line: false, begin_content: false, ..w };
        let e = k + 1 + space_run(cs, k + 1);
        let w3 = if !(e < cs.len() && is_digit_char(cs[e])) {
            WriterView { last_breakable: lns, ..w2 }
        } else {
            w2
        };
        (w3, e)
    } else {
        (v, k + 1)
    }
}

/// A character written as it is.
pub open spec fn literal_step(v: WriterView, cfg: WriterConfig, c: char) -> WriterView {
    if c == '\n' {
        write_spec(v, seq![10u8], cfg.width)
    } else {
        let t = utf8(seq![c]);
        let w = write_spec(v, t, cfg.width);
        WriterView {
            column: w.column + t.len(),
            begin_line: false,
            begin_content: w.begin_content && is_digit_char(c),
            ..w
        }
    }
}

/// Character `k` written through `outc`.
pub open spec fn escaped_step(v: WriterView, cfg: WriterConfig, cs: Seq<char>, k: int, esc: Escaping) -> WriterView {
    let c = cs[k];
    let escaped = needs_escaping(c, esc, next_byte(cs, k), follows_digit(v.window), v.begin_content, cfg.autolink);
    let w = outc_spec(v, utf8(outc_text(c, escaped, esc)), cfg.width);
    WriterView { begin_line: false, begin_content: w.begin_content && is_digit_char(c), ..w }
}

/// One character of `output` after the line's prefix: a backslash before
/// an escaped pipe, then a wrapping space (see `space_step`), the
/// character written as it is, or the character through `outc`.  Gives
/// the new state and the index of the next character.
pub open spec fn char_step(
    v1: WriterView,
    cfg: WriterConfig,
    cs: Seq<char>,
    k: int,
    wrap: bool,
    esc: Escaping,
) -> (WriterView, int) {
    let c = cs[k];
    let v2 = pipe_step(v1, cfg, c);
    if c == ' ' && wrap {
        space_step(v2, cfg, cs, k)
    } else if esc == Escaping::Literal {
        (literal_step(v2, cfg, c), k + 1)
    } else {
        (escaped_step(v2, cfg, cs, k, esc), k + 1)
    }
}

/// A run of spaces does not run past the end.
proof fn lemma_space_run(cs: Seq<char>, j: int)
    requires
        0 <= j <= cs.len(),
    ensures
        0 <= space_run(cs, j) <= cs.len() - j,
    decreases cs.len() - j,
{
    if j < cs.len() && cs[j] == ' ' {
        lemma_space_run(cs, j + 1);
    }
}

/// One character of `output`: the prefix at a line's start, the character
/// (see `char_step`), then the line broken if it has grown too long.
pub open spec fn output_step(
    v: WriterView,
    cfg: WriterConfig,
    cs: Seq<char>,
    k: int,
    wrap: bool,
    esc: Escaping,
) -> (WriterView, int) {
    let (v3, next) = char_step(line_start(v, cfg.prefix, cfg.width), cfg, cs, k, wrap, esc);
    (wrap_check(v3, cfg.prefix, cfg.width), next)
}

/// The state after `output` writes the characters of `cs` from `k` on.
pub open spec fn output_chars(
    v: WriterView,
    cfg: WriterConfig,
    cs: Seq<char>,
    k: int,
    wrap: bool,
    esc: Escaping,
) -> WriterView
    decreases cs.len() - k,
{
    if k < 0 || k >= cs.len() {
        v
    } else {
        let (w, next) = output_step(v, cfg, cs, k, wrap, esc);
        if next <= k || next > cs.len() {
            w
        } else {
            output_chars(w, cfg, cs, next, wrap, esc)
        }
    }
}

/// The state after `output` writes the characters `cs`: a tight list item
/// owes at most one line break, the owed breaks are written, then the
/// characters one by one (see `output_step`).
pub open spec fn output_spec(
    v: WriterView,
    cfg: WriterConfig,
    cs: Seq<char>,
    wrap: bool,
    esc: Escaping,
    in_tight: bool,
) -> WriterView {
    let v1 = if in_tight && v.need_cr > 1 {
        WriterView { need_cr: 1, ..v }
    } else {
        v
    };
    let v2 = settle_crs(v1, cfg.prefix, cfg.width, trailing_newlines(v1.window));
    output_chars(v2, cfg, cs, 0, wrap, esc)
}

/// The CommonMark formatter's output state.
pub struct CommonMarkFormatter {
    /// What has gone to the output.
    pub output: String,
    /// Text waiting for the current line to end, when wrapping.
    pub wrap_buffer: String,
    /// The last two bytes written.
    pub window: Vec<u8>,
    /// What starts each line: `> ` in block quotes, spaces in list items
    /// and indented code; empty or at least two bytes long.
    pub prefix: String,
    /// The column of the current line.
    pub column: usize,
    /// How many line breaks are owed before the next text.
    pub need_cr: u8,
    /// Where in the wrap buffer the last place to break a line is, or zero.
    pub last_breakable: usize,
    /// Nothing has been written on the current line yet.
    pub begin_line: bool,
    /// Only digits have been written on the current line.
    pub begin_content: bool,
    /// Line breaks may not be introduced.
    pub no_linebreaks: bool,
    /// The text is inside an item of a tight list.
    pub in_tight_list_item: bool,
    /// `|` is escaped (inside a table cell).
    pub escape_pipes: bool,
    /// Long lines may be wrapped.
    pub allow_wrap: bool,
    /// The line width to wrap at; zero for none.
    pub width: usize,
    /// `@` is escaped, as email autolinks are recognised.
    pub autolink: bool,
}

impl CommonMarkFormatter {
    /// The state as the writing operations see it.
    pub open spec fn view(&self) -> WriterView {
        WriterView {
            out: utf8(self.output@),
            buf: utf8(self.wrap_buffer@),
            window: self.window@,
            column: self.column as int,
            need_cr: self.need_cr as int,
            last_breakable: self.last_breakable as int,
            begin_line: self.begin_line,
            begin_content: self.begin_content,
        }
    }

    /// The state is one the writing operations can work from: the window
    /// holds at most two bytes, the prefix is empty or at least two bytes
    /// long, and a place to break a line is a space in the buffer.
    pub open spec fn wf(&self) -> bool {
        &&& self.window@.len() <= 2
        &&& utf8(self.prefix@).len() != 1
        &&& self.width == 0 ==> utf8(self.wrap_buffer@).len() == 0
        &&& self.last_breakable > 0 ==> self.last_breakable < utf8(self.wrap_buffer@).len()
            && utf8(self.wrap_buffer@)[self.last_breakable as int] == 32
        &&& self.allow_wrap ==> self.width > 0
        &&& self.column <= self.text().len()
    }

    /// The settings that writing reads.
    pub open spec fn config(&self) -> WriterConfig {
        WriterConfig {
            prefix: utf8(self.prefix@),
            width: self.width as int,
            escape_pipes: self.escape_pipes,
            autolink: self.autolink,
        }
    }

    /// Writing `s` leaves the column and the text's length representable:
    /// each owed line break writes at most the prefix and a byte more, each
    /// character at most the prefix twice and sixteen bytes more.
    pub open spec fn output_room(&self, s: &str) -> bool {
        let p = utf8(self.prefix@).len() as int;
        self.text().len() + (self.need_cr as int) * (p + 1) + (s@.len() as int) * (2 * p + 16) + 16
            <= usize::MAX
    }

    /// What has been written, the wrap buffer included.
    pub open spec fn text(&self) -> Seq<u8> {
        utf8(self.output@) + utf8(self.wrap_buffer@)
    }

    /// A formatter at the start of a document, wrapping at `width` (zero
    /// for none) unless hard breaks are on.
    pub fn new(width: usize, hardbreaks: bool, autolink: bool) -> (r: Self)
        ensures
            r.wf(),
            r.view().out.len() == 0,
            r.view().buf.len() == 0,
            r.view().window.len() == 0,
            r.view().column == 0,
            r.view().need_cr == 0,
            r.view().last_breakable == 0,
            r.view().begin_line,
            r.view().begin_content,
            r.prefix@.len() == 0,
            !r.no_linebreaks,
            !r.in_tight_list_item,
            !r.escape_pipes,
            r.allow_wrap == (width > 0 && !hardbreaks),
            r.width == width,
            r.autolink == autolink,
    {
        CommonMarkFormatter {
            output: String::new(),
            wrap_buffer: String::new(),
            window: Vec::new(),
            prefix: String::new(),
            column: 0,
            need_cr: 0,
            last_breakable: 0,
            begin_line: true,
            begin_content: true,
            no_linebreaks: false,
            in_tight_list_item: false,
            escape_pipes: false,
            allow_wrap: width > 0 && !hardbreaks,
            width,
            autolink,
        }
    }

    /// Everything written, with the wrap buffer flushed.
    pub fn finish(self) -> (r: String)
        ensures
            utf8(r@) == self.text(),
    {
        let mut out = self.output;
        let buf = self.wrap_buffer;
        push_str(&mut out, buf.as_str());
        out
    }

    /// Owe a line break before the next text.
    pub fn cr(&mut self)
        ensures
            final(self).view() == (WriterView {
                need_cr: if old(self).need_cr < 1 {
                    1
                } else {
                    old(self).need_cr as int
                },
                ..old(self).view()
            }),
            final(self).wf() == old(self).wf(),
            final(self).prefix == old(self).prefix,
            final(self).width == old(self).width,
            final(self).allow_wrap == old(self).allow_wrap,
            final(self).no_linebreaks == old(self).no_linebreaks,
            final(self).in_tight_list_item == old(self).in_tight_list_item,
            final(self).escape_pipes == old(self).escape_pipes,
            final(self).autolink == old(self).autolink,
            final(self).output == old(self).output,
            final(self).wrap_buffer == old(self).wrap_buffer,
    {
        if self.need_cr < 1 {
            self.need_cr = 1;
        }
    }

    /// Owe a blank line before the next text.
    pub fn blankline(&mut self)
        ensures
            final(self).view() == (WriterView {
                need_cr: if old(self).need_cr < 2 {
                    2
                } else {
                    old(self).need_cr as int
                },
                ..old(self).view()
            }),
            final(self).wf() == old(self).wf(),
            final(self).prefix == old(self).prefix,
            final(self).width == old(self).width,
            final(self).allow_wrap == old(self).allow_wrap,
            final(self).no_linebreaks == old(self).no_linebreaks,
            final(self).in_tight_list_item == old(self).in_tight_list_item,
            final(self).escape_pipes == old(self).escape_pipes,
            final(self).autolink == old(self).autolink,
            final(self).output == old(self).output,
            final(self).wrap_buffer == old(self).wrap_buffer,
    {
        if self.need_cr < 2 {
            self.need_cr = 2;
        }
    }

    /// Writes `s` to the output or the wrap buffer, keeping the window of
    /// the last two bytes; see `write_spec`.
    pub fn write(&mut self, s: &str)
        requires
            old(self).wf(),
        ensures
            final(self).wf(),
            final(self).view() == write_spec(old(self).view(), s.spec_bytes(), old(self).width as int),
            final(self).text() == old(self).text() + s.spec_bytes(),
            final(self).prefix == old(self).prefix,
            final(self).width == old(self).width,
            final(self).allow_wrap == old(self).allow_wrap,
            final(self).no_linebreaks == old(self).no_linebreaks,
            final(self).in_tight_list_item == old(self).in_tight_list_item,
            final(self).escape_pipes == old(self).escape_pipes,
            final(self).autolink == old(self).autolink,
    {
        let bytes = s.as_bytes();
        let n = bytes.len();
        if n == 0 {
            proof {
                assert(old(self).text() + s.spec_bytes() =~= old(self).text());
            }
            return;
        }
        let ghost w = window_after(self.window@, bytes@);
        if n > 1 {
            self.window.clear();
            self.window.push(bytes[n - 2]);
            self.window.push(bytes[n - 1]);
        } else {
            if self.window.len() == 2 {
                self.window.remove(0);
            }
            self.window.push(bytes[0]);
        }
        assert(self.window@ =~= w);
        let last_was_cr = self.window[self.window.len() - 1] == 10;
        let ghost out0 = utf8(self.output@);
        let ghost buf0 = utf8(self.wrap_buffer@);
        if self.width == 0 {
            push_str(&mut self.output, s);
        } else if last_was_cr {
            push_str(&mut self.output, self.wrap_buffer.as_str());
            push_str(&mut self.output, s);
            self.wrap_buffer = String::new();
            proof {
                assert(utf8(self.wrap_buffer@) =~= Seq::<u8>::empty());
            }
        } else {
            push_str(&mut self.wrap_buffer, s);
        }
        if last_was_cr {
            self.column = 0;
            self.begin_line = true;
            self.begin_content = true;
            self.last_breakable = 0;
        }
        proof {
            assert(self.text() =~= out0 + buf0 + s.spec_bytes());
        }
    }

    /// Writes the block prefix, whose last two bytes become the window;
    /// see `prefix_spec`.
    pub fn write_prefix(&mut self)
        requires
            old(self).wf(),
        ensures
            final(self).wf(),
            final(self).view() == prefix_spec(old(self).view(), utf8(old(self).prefix@), old(self).width as int),
            final(self).text() == old(self).text() + utf8(old(self).prefix@),
            final(self).prefix == old(self).prefix,
            final(self).width == old(self).width,
            final(self).allow_wrap == old(self).allow_wrap,
            final(self).no_linebreaks == old(self).no_linebreaks,
            final(self).in_tight_list_item == old(self).in_tight_list_item,
            final(self).escape_pipes == old(self).escape_pipes,
            final(self).autolink == old(self).autolink,
    {
        let p = self.prefix.as_str().as_bytes();
        let n = p.len();
        if n == 0 {
            proof {
                assert(old(self).text() + utf8(old(self).prefix@) =~= old(self).text());
            }
            return;
        }
        let ghost out0 = utf8(self.output@);
        let ghost buf0 = utf8(self.wrap_buffer@);
        if self.width == 0 {
            push_str(&mut self.output, self.prefix.as_str());
        } else {
            push_str(&mut self.wrap_buffer, self.prefix.as_str());
        }
        let a = p[n - 2];
        let b = p[n - 1];
        self.window.clear();
        self.window.push(a);
        self.window.push(b);
        proof {
            assert(self.window@ =~= utf8(self.prefix@).subrange(n - 2, n as int));
            assert(self.text() =~= out0 + buf0 + utf8(self.prefix@));
        }
    }

    /// Writes one character, escaped as `escaping` asks; `nextb` is the
    /// byte after it, if any.  See `needs_escaping` and `outc_text`.
    pub fn outc(&mut self, c: char, escaping: Escaping, nextb: Option<u8>)
        requires
            old(self).wf(),
            old(self).column + 6 <= usize::MAX,
        ensures
            ({
                let nb: u8 = match nextb {
                    Some(b) => b,
                    None => 0,
                };
                let escaped = needs_escaping(
                    c,
                    escaping,
                    nb,
                    follows_digit(old(self).window@),
                    old(self).begin_content,
                    old(self).autolink,
                );
                let text = utf8(outc_text(c, escaped, escaping));
                &&& final(self).view() == outc_spec(old(self).view(), text, old(self).width as int)
                &&& final(self).text() == old(self).text() + text
            }),
            final(self).wf(),
            final(self).prefix == old(self).prefix,
            final(self).width == old(self).width,
            final(self).allow_wrap == old(self).allow_wrap,
            final(self).no_linebreaks == old(self).no_linebreaks,
            final(self).in_tight_list_item == old(self).in_tight_list_item,
            final(self).escape_pipes == old(self).escape_pipes,
            final(self).autolink == old(self).autolink,
    {
        let follows_digit = self.window.len() > 0 && isdigit(self.window[self.window.len() - 1]);
        let nextb: u8 = match nextb {
            Some(b) => b,
            None => 0,
        };
        let v = c as u32;
        let needs_escaping = v < 0x80 && escaping != Escaping::Literal && ((escaping
            == Escaping::Normal && (v < 0x20 || c == '*' || c == '_' || c == '[' || c == ']' || c
            == '#' || c == '<' || c == '>' || c == '\\' || c == '`' || c == '!' || (self.autolink
            && c == '@') || (c == '&' && isalpha(nextb)) || (c == '!' && nextb == 0x5b) || (
        self.begin_content && (c == '-' || c == '+' || c == '=') && !follows_digit) || (
        self.begin_content && (c == '.' || c == ')') && follows_digit && (nextb == 0 || isspace(
            nextb,
        ))))) || (escaping == Escaping::Url && (c == '`' || c == '<' || c == '>' || isspace_char(c)
            || c == '\\' || c == ')' || c == '(')) || (escaping == Escaping::Title && (c == '`' || c
            == '<' || c == '>' || c == '"' || c == '\\')));
        let out = outc_string(c, needs_escaping, escaping);
        let len = out.as_str().as_bytes().len();
        self.write(out.as_str());
        self.column = self.column + len;
    }

    /// Writes `s`: first the line breaks owed, then each character as
    /// `output_step` describes, wrapping long lines when `wrap` is asked for
    /// and allowed.
    pub fn output(&mut self, s: &str, wrap: bool, escaping: Escaping)
        requires
            old(self).wf(),
            old(self).output_room(s),
        ensures
            final(self).wf(),
            final(self).view() == output_spec(
                old(self).view(),
                old(self).config(),
                s@,
                old(self).allow_wrap && wrap && !old(self).no_linebreaks,
                escaping,
                old(self).in_tight_list_item,
            ),
            final(self).prefix == old(self).prefix,
            final(self).width == old(self).width,
            final(self).allow_wrap == old(self).allow_wrap,
            final(self).no_linebreaks == old(self).no_linebreaks,
            final(self).in_tight_list_item == old(self).in_tight_list_item,
            final(self).escape_pipes == old(self).escape_pipes,
            final(self).autolink == old(self).autolink,
    {
        let wrap = self.allow_wrap && wrap && !self.no_linebreaks;
        let ghost cfg = self.config();
        let ghost p = cfg.prefix;
        let ghost plen = p.len() as int;
        let ghost n = s@.len() as int;
        let ghost d = 2 * plen + 16;
        if self.in_tight_list_item && self.need_cr > 1 {
            self.need_cr = 1;
        }
        let ghost v1 = self.view();
        let wl = self.window.len();
        let mut consume: usize = if wl > 0 && self.window[wl - 1] == 10 {
            if wl == 2 && self.window[0] == 10 {
                2
            } else {
                1
            }
        } else {
            0
        };
        proof {
            let t = self.text().len() as int;
            let a = old(self).need_cr as int;
            let b = self.need_cr as int;
            assert(t + b * (plen + 1) + n * d + 16 <= usize::MAX) by (nonlinear_arith)
                requires
                    t + a * (plen + 1) + n * d + 16 <= usize::MAX,
                    b <= a,
                    plen >= 0,
            ;
        }
        while self.need_cr > 0
            invariant
                self.wf(),
                cfg == self.config(),
                p == cfg.prefix,
                plen == p.len(),
                d == 2 * plen + 16,
                n == s@.len(),
                self.text().len() + (self.need_cr as int) * (plen + 1) + n * d + 16 <= usize::MAX,
                settle_crs(self.view(), p, cfg.width, consume as int) == settle_crs(v1, p, cfg.width, trailing_newlines(v1.window)),
                self.prefix == old(self).prefix,
                self.width == old(self).width,
                self.allow_wrap == old(self).allow_wrap,
                self.no_linebreaks == old(self).no_linebreaks,
                self.in_tight_list_item == old(self).in_tight_list_item,
                self.escape_pipes == old(self).escape_pipes,
                self.autolink == old(self).autolink,
            decreases self.need_cr,
        {
            let ghost t0 = self.text().len();
            if self.window.len() == 0 {
            } else if consume > 0 {
                consume = consume - 1;
            } else {
                self.write_ascii('\n');
                if self.need_cr > 1 {
                    self.write_prefix();
                    self.column = self.prefix.as_str().as_bytes().len();
                }
            }
            self.need_cr = self.need_cr - 1;
            proof {
                assert(self.text().len() <= t0 + plen + 1);
                assert((self.need_cr as int) * (plen + 1) + (plen + 1) == (self.need_cr + 1) * (plen + 1)) by (nonlinear_arith);
            }
        }
        let ghost v2 = self.view();
        assert(v2 == settle_crs(v1, p, cfg.width, trailing_newlines(v1.window)));
        self.output_chars_exec(s, wrap, escaping);
    }

    /// Writes the characters of `s` one by one; see `output_step`.
    fn output_chars_exec(&mut self, s: &str, wrap: bool, escaping: Escaping)
        requires
            old(self).wf(),
            wrap ==> old(self).width > 0,
            old(self).text().len() + (s@.len() as int) * (2 * (utf8(old(self).prefix@).len() as int) + 16) + 16
                <= usize::MAX,
        ensures
            final(self).wf(),
            final(self).view() == output_chars(old(self).view(), old(self).config(), s@, 0, wrap, escaping),
            final(self).prefix == old(self).prefix,
            final(self).width == old(self).width,
            final(self).allow_wrap == old(self).allow_wrap,
            final(self).no_linebreaks == old(self).no_linebreaks,
            final(self).in_tight_list_item == old(self).in_tight_list_item,
            final(self).escape_pipes == old(self).escape_pipes,
            final(self).autolink == old(self).autolink,
    {
        let ghost cfg = self.config();
        let ghost plen = cfg.prefix.len() as int;
        let ghost d = 2 * plen + 16;
        let cs = str_chars(s);
        let n = cs.len();
        let mut k: usize = 0;
        while k < n
            invariant
                self.wf(),
                cfg == self.config(),
                plen == cfg.prefix.len(),
                d == 2 * plen + 16,
                wrap ==> self.width > 0,
                cs@ == s@,
                n == cs@.len(),
                k <= n,
                self.text().len() + (n - k) * d + 16 <= usize::MAX,
                output_chars(self.view(), cfg, cs@, k as int, wrap, escaping) == output_chars(old(self).view(), cfg, s@, 0, wrap, escaping),
                self.prefix == old(self).prefix,
                self.width == old(self).width,
                self.allow_wrap == old(self).allow_wrap,
                self.no_linebreaks == old(self).no_linebreaks,
                self.in_tight_list_item == old(self).in_tight_list_item,
                self.escape_pipes == old(self).escape_pipes,
                self.autolink == old(self).autolink,
            decreases n - k,
        {
            let ghost v = self.view();
            let ghost t0 = self.text().len() as int;
            self.start_line();
            proof {
                assert(t0 + plen + 16 <= t0 + (n - k) * d) by (nonlinear_arith)
                    requires
                        n - k >= 1,
                        d == 2 * plen + 16,
                        plen >= 0,
                ;
            }
            let next = self.char_part(&cs, k, wrap, escaping);
            self.wrap_line();
            proof {
                assert((n - next) * d <= (n - k) * d - d) by (nonlinear_arith)
                    requires
                        next >= k + 1,
                        d >= 0,
                ;
            }
            k = next;
        }
    }

    /// Writes the prefix if nothing has been written on the line yet.
    fn start_line(&mut self)
        requires
            old(self).wf(),
        ensures
            final(self).wf(),
            final(self).view() == line_start(old(self).view(), utf8(old(self).prefix@), old(self).width as int),
            final(self).text().len() <= old(self).text().len() + utf8(old(self).prefix@).len(),
            final(self).prefix == old(self).prefix,
            final(self).width == old(self).width,
            final(self).allow_wrap == old(self).allow_wrap,
            final(self).no_linebreaks == old(self).no_linebreaks,
            final(self).in_tight_list_item == old(self).in_tight_list_item,
            final(self).escape_pipes == old(self).escape_pipes,
            final(self).autolink == old(self).autolink,
    {
        if self.begin_line {
            self.write_prefix();
            self.column = self.prefix.as_str().as_bytes().len();
        }
    }

    /// Writes character `k` of `cs`; see `char_step`.  Gives the index of
    /// the next character.
    fn char_part(&mut self, cs: &Vec<char>, k: usize, wrap: bool, escaping: Escaping) -> (next: usize)
        requires
            old(self).wf(),
            k < cs@.len(),
            wrap ==> old(self).width > 0,
            old(self).text().len() + 16 <= usize::MAX,
        ensures
            final(self).wf(),
            (final(self).view(), next as int) == char_step(old(self).view(), old(self).config(), cs@, k as int, wrap, escaping),
            k < next <= cs@.len(),
            final(self).text().len() <= old(self).text().len() + 8,
            final(self).prefix == old(self).prefix,
            final(self).width == old(self).width,
            final(self).allow_wrap == old(self).allow_wrap,
            final(self).no_linebreaks == old(self).no_linebreaks,
            final(self).in_tight_list_item == old(self).in_tight_list_item,
            final(self).escape_pipes == old(self).escape_pipes,
            final(self).autolink == old(self).autolink,
    {
        let n = cs.len();
        let c = cs[k];
        proof {
            assert(('\\' as u8) == 92u8);
        }
        if self.escape_pipes && c == '|' {
            self.write_ascii('\\');
        }
        if c == ' ' && wrap {
            self.space_part(cs, k)
        } else if escaping == Escaping::Literal {
            self.literal_part(c);
            k + 1
        } else {
            self.escaped_part(cs, k, escaping);
            k + 1
        }
    }

    /// A space where lines may wrap; see `space_step`.
    fn space_part(&mut self, cs: &Vec<char>, k: usize) -> (next: usize)
        requires
            old(self).wf(),
            k < cs@.len(),
            old(self).width > 0,
            old(self).text().len() + 8 <= usize::MAX,
        ensures
            final(self).wf(),
            (final(self).view(), next as int) == space_step(old(self).view(), old(self).config(), cs@, k as int),
            k < next <= cs@.len(),
            final(self).text().len() <= old(self).text().len() + 1,
            final(self).prefix == old(self).prefix,
            final(self).width == old(self).width,
            final(self).allow_wrap == old(self).allow_wrap,
            final(self).no_linebreaks == old(self).no_linebreaks,
            final(self).in_tight_list_item == old(self).in_tight_list_item,
            final(self).escape_pipes == old(self).escape_pipes,
            final(self).autolink == old(self).autolink,
    {
        let n = cs.len();
        let mut next = k + 1;
        proof {
            lemma_space_run(cs@, k + 1);
            assert((' ' as u8) == 32u8);
        }
        if !self.begin_line {
            let last_nonspace = self.wrap_buffer.as_str().as_bytes().len();
            self.write_ascii(' ');
            self.column = self.column + 1;
            self.begin_line = false;
            self.begin_content = false;
            while next < n && cs[next] == ' '
                invariant
                    k + 1 <= next <= n,
                    n == cs@.len(),
                    next + space_run(cs@, next as int) == k + 1 + space_run(cs@, k + 1),
                decreases n - next,
            {
                next = next + 1;
            }
            if !(next < n && (cs[next] as u32) >= 48 && (cs[next] as u32) <= 57) {
                self.last_breakable = last_nonspace;
            }
        }
        next
    }

    /// A character written as it is; see `literal_step`.
    fn literal_part(&mut self, c: char)
        requires
            old(self).wf(),
            old(self).text().len() + 8 <= usize::MAX,
        ensures
            final(self).wf(),
            final(self).view() == literal_step(old(self).view(), old(self).config(), c),
            final(self).text().len() <= old(self).text().len() + 4,
            final(self).prefix == old(self).prefix,
            final(self).width == old(self).width,
            final(self).allow_wrap == old(self).allow_wrap,
            final(self).no_linebreaks == old(self).no_linebreaks,
            final(self).in_tight_list_item == old(self).in_tight_list_item,
            final(self).escape_pipes == old(self).escape_pipes,
            final(self).autolink == old(self).autolink,
    {
        proof {
            assert(('\n' as u8) == 10u8);
        }
        if c == '\n' {
            self.write_ascii('\n');
        } else {
            let mut t = String::new();
            push_char(&mut t, c);
            let tl = t.as_str().as_bytes().len();
            proof {
                reveal_with_fuel(encode_utf8, 2);
                assert(t@ =~= seq![c]);
                assert(seq![c].drop_first() =~= Seq::<char>::empty());
            }
            self.write(t.as_str());
            self.column = self.column + tl;
            self.begin_line = false;
            self.begin_content = self.begin_content && (c as u32) >= 48 && (c as u32) <= 57;
        }
    }

    /// Character `k` written through `outc`; see `escaped_step`.
    fn escaped_part(&mut self, cs: &Vec<char>, k: usize, escaping: Escaping)
        requires
            old(self).wf(),
            k < cs@.len(),
            old(self).text().len() + 8 <= usize::MAX,
        ensures
            final(self).wf(),
            final(self).view() == escaped_step(old(self).view(), old(self).config(), cs@, k as int, escaping),
            final(self).text().len() <= old(self).text().len() + 6,
            final(self).prefix == old(self).prefix,
            final(self).width == old(self).width,
            final(self).allow_wrap == old(self).allow_wrap,
            final(self).no_linebreaks == old(self).no_linebreaks,
            final(self).in_tight_list_item == old(self).in_tight_list_item,
            final(self).escape_pipes == old(self).escape_pipes,
            final(self).autolink == old(self).autolink,
    {
        let n = cs.len();
        let c = cs[k];
        let nextb: Option<u8> = if k + 1 < n {
            let e = cs[k + 1];
            if (e as u32) < 0x80 {
                Some(e as u32 as u8)
            } else {
                Some(0x80)
            }
        } else {
            None
        };
        proof {
            let nb: u8 = match nextb {
                Some(b) => b,
                None => 0,
            };
            assert(nb == next_byte(cs@, k as int));
            lemma_outc_text_len(c, needs_escaping(c, escaping, nb, follows_digit(self.window@), self.begin_content, self.autolink), escaping);
        }
        self.outc(c, escaping, nextb);
        self.begin_line = false;
        self.begin_content = self.begin_content && (c as u32) >= 48 && (c as u32) <= 57;
    }

    /// Breaks the current line at its last space if it has grown past the
    /// width; see `wrap_check`.
    fn wrap_line(&mut self)
        requires
            old(self).wf(),
        ensures
            final(self).wf(),
            final(self).view() == wrap_check(old(self).view(), utf8(old(self).prefix@), old(self).width as int),
            final(self).text().len() <= old(self).text().len() + utf8(old(self).prefix@).len(),
            final(self).prefix == old(self).prefix,
            final(self).width == old(self).width,
            final(self).allow_wrap == old(self).allow_wrap,
            final(self).no_linebreaks == old(self).no_linebreaks,
            final(self).in_tight_list_item == old(self).in_tight_list_item,
            final(self).escape_pipes == old(self).escape_pipes,
            final(self).autolink == old(self).autolink,
    {
        let bl = self.wrap_buffer.as_str().as_bytes().len();
        if self.width > 0 && self.column > self.width && !self.begin_line && self.last_breakable > 0 {
            let lb = self.last_breakable;
            let ghost buf = utf8(self.wrap_buffer@);
            let ghost out = utf8(self.output@);
            proof {
                encode_utf8_valid_utf8(self.wrap_buffer@);
                crate::text::lemma_ascii_boundary(buf, lb as int);
                crate::text::lemma_ascii_boundary(buf, lb + 1);
            }
            let head = substr(self.wrap_buffer.as_str(), 0, lb);
            push_str(&mut self.output, head);
            push_ascii(&mut self.output, '\n');
            remove_from_start(&mut self.wrap_buffer, lb + 1);
            let mut nb = String::new();
            push_str(&mut nb, self.prefix.as_str());
            push_str(&mut nb, self.wrap_buffer.as_str());
            self.wrap_buffer = nb;
            self.column = self.wrap_buffer.as_str().as_bytes().len();
            self.last_breakable = 0;
            self.begin_line = false;
            self.begin_content = false;
            proof {
                assert(utf8(self.wrap_buffer@) =~= utf8(self.prefix@) + buf.subrange(lb + 1, buf.len() as int));
                assert(utf8(self.output@) =~= out + buf.subrange(0, lb as int) + seq![10u8]);
            }
        }
    }

    /// Writes one ASCII character.
    fn write_ascii(&mut self, c: char)
        requires
            old(self).wf(),
            (c as u32) < 0x80,
        ensures
            final(self).wf(),
            final(self).view() == write_spec(old(self).view(), seq![c as u8], old(self).width as int),
            final(self).text() == old(self).text() + seq![c as u8],
            final(self).prefix == old(self).prefix,
            final(self).width == old(self).width,
            final(self).allow_wrap == old(self).allow_wrap,
            final(self).no_linebreaks == old(self).no_linebreaks,
            final(self).in_tight_list_item == old(self).in_tight_list_item,
            final(self).escape_pipes == old(self).escape_pipes,
            final(self).autolink == old(self).autolink,
    {
        let mut t = String::new();
        push_ascii(&mut t, c);
        proof {
            assert(utf8(Seq::<char>::empty()) =~= Seq::<u8>::empty());
            assert(utf8(t@) =~= seq![c as u8]);
        }
        self.write(t.as_str());
    }
}

} // verus!
