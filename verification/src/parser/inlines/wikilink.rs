//! Wikilinks: `[[url]]`, and `[[url|label]]` or `[[label|url]]` depending
//! on the syntax chosen.

use vstd::prelude::*;
use vstd::string::*;
use vstd::utf8::*;

use crate::ctype::{is_punct_byte, ispunct};
use crate::parser::inlines::code_span::no_nul_from;
use crate::parser::inlines::{Scanner, MAX_LINK_LABEL_LENGTH};
use crate::parser::options::{Options, WikiLinksMode};
use crate::strings::{trim_bytes, trim_slice};
use crate::text::{lemma_ascii_boundary, lemma_str_valid, push_str, substr, utf8};

verus! {

broadcast use vstd::utf8::group_utf8_lib;

/// The parts of a wikilink: its URL, and its label with the columns where
/// the label's text starts and ends, when it has one.
pub struct WikilinkComponents {
    /// The URL, trimmed.
    pub url: String,
    /// The label, trimmed, and where it starts and ends.
    pub link_label: Option<(String, usize, usize)>,
}

/// Where the text of a wikilink component that began before `s` ends, from
/// `i` on: at the next `[`, `]` or `|`, or the end; a backslash takes ASCII
/// punctuation after it along; a component of more than 1000 bytes is none.
pub open spec fn wiki_scan(b: Seq<u8>, i: int, s: int) -> Option<int>
    decreases b.len() - i,
{
    if i < 0 || i >= b.len() {
        Some(i)
    } else if b[i] == 91 || b[i] == 93 || b[i] == 124 {
        Some(i)
    } else {
        let i2 = if b[i] == 92 && i + 1 < b.len() && is_punct_byte(b[i + 1]) {
            i + 2
        } else {
            i + 1
        };
        if i2 - s - 1 > MAX_LINK_LABEL_LENGTH {
            None
        } else {
            wiki_scan(b, i2, s)
        }
    }
}

/// Where the wikilink component that starts with the `[` or `|` at `s`
/// ends.
pub open spec fn wiki_component_end(b: Seq<u8>, s: int) -> Option<int> {
    if 0 <= s < b.len() && (b[s] == 91 || b[s] == 124) {
        wiki_scan(b, s + 1, s)
    } else {
        None
    }
}

/// Whether `]]` stands at `i`.
pub open spec fn closes_wiki(b: Seq<u8>, i: int) -> bool {
    0 <= i && i + 1 < b.len() && b[i] == 93 && b[i + 1] == 93
}

/// The wikilink whose inner `[` is at `pos`: its URL, its label with where
/// the label starts and ends, and where the wikilink ends, past its `]]`.
/// The label goes after the pipe when `url_first`, else before it.
pub open spec fn wikilink_spec(b: Seq<u8>, pos: int, url_first: bool) -> Option<
    (Seq<u8>, Option<(Seq<u8>, int, int)>, int),
> {
    if !(0 <= pos < b.len() && b[pos] == 91) {
        None
    } else {
        match wiki_component_end(b, pos) {
            None => None,
            Some(le) => {
                let left = trim_bytes(b.subrange(pos + 1, le));
                if closes_wiki(b, le) {
                    Some((left, None, le + 2))
                } else if !(le < b.len() && b[le] == 124) {
                    None
                } else {
                    match wiki_component_end(b, le) {
                        None => None,
                        Some(re) => {
                            let right = trim_bytes(b.subrange(le + 1, re));
                            if closes_wiki(b, re) {
                                if url_first {
                                    Some((left, Some((right, le + 1, re - 1)), re + 2))
                                } else {
                                    Some((right, Some((left, pos + 1, le - 1)), re + 2))
                                }
                            } else {
                                None
                            }
                        },
                    }
                }
            },
        }
    }
}

proof fn lemma_wiki_scan(b: Seq<u8>, i: int, s: int)
    requires
        0 <= i <= b.len(),
    ensures
        wiki_scan(b, i, s) matches Some(e) ==> i <= e <= b.len() && (e == b.len() || b[e] == 91 || b[e]
            == 93 || b[e] == 124),
    decreases b.len() - i,
{
    if i < b.len() && !(b[i] == 91 || b[i] == 93 || b[i] == 124) {
        let i2 = if b[i] == 92 && i + 1 < b.len() && is_punct_byte(b[i + 1]) {
            i + 2
        } else {
            i + 1
        };
        if i2 - s - 1 <= MAX_LINK_LABEL_LENGTH {
            lemma_wiki_scan(b, i2, s);
        }
    }
}

impl Scanner {
    /// Finds the end of a wikilink component starting with the `[` or `|`
    /// at the position (see `wiki_component_end`); the scanner moves there
    /// when there is one, and stays otherwise.
    pub fn wikilink_component(&mut self, input: &str) -> (r: bool)
        requires
            old(self).pos <= input.spec_bytes().len(),
            no_nul_from(input.spec_bytes(), old(self).pos as int),
        ensures
            r == wiki_component_end(input.spec_bytes(), old(self).pos as int) is Some,
            r ==> final(self).pos == wiki_component_end(input.spec_bytes(), old(self).pos as int)->Some_0,
            !r ==> final(self).pos == old(self).pos,
    {
        let ghost b = input.spec_bytes();
        let bytes = input.as_bytes();
        let len = bytes.len();
        let startpos = self.pos;
        if startpos >= len || !(bytes[startpos] == 91u8 || bytes[startpos] == 124u8) {
            return false;
        }
        self.pos = startpos + 1;
        let mut length: usize = 0;
        while self.pos < len
            invariant
                b == input.spec_bytes(),
                bytes@ == b,
                len == b.len(),
                startpos + 1 <= self.pos <= len,
                length == self.pos - startpos - 1,
                length <= MAX_LINK_LABEL_LENGTH,
                startpos == old(self).pos,
                wiki_component_end(b, startpos as int) == wiki_scan(b, startpos + 1, startpos as int),
                wiki_scan(b, self.pos as int, startpos as int) == wiki_scan(b, startpos + 1, startpos as int),
            ensures
                startpos + 1 <= self.pos <= len,
                wiki_scan(b, self.pos as int, startpos as int) == wiki_scan(b, startpos + 1, startpos as int),
                wiki_scan(b, self.pos as int, startpos as int) == Some(self.pos as int),
            decreases len - self.pos,
        {
            let ghost p = self.pos;
            let c = bytes[self.pos];
            if c == 91u8 || c == 93u8 || c == 124u8 {
                break;
            }
            if c == 92u8 {
                self.pos = self.pos + 1;
                length = length + 1;
                if self.pos < len && ispunct(bytes[self.pos]) {
                    self.pos = self.pos + 1;
                    length = length + 1;
                }
            } else {
                self.pos = self.pos + 1;
                length = length + 1;
            }
            if length > MAX_LINK_LABEL_LENGTH {
                self.pos = startpos;
                return false;
            }
        }
        true
    }

    /// Reads a wikilink whose inner `[` is at the position (see
    /// `wikilink_spec`, the label after the pipe with the URL-first
    /// syntax); the scanner moves past its `]]` when there is one, and
    /// stays otherwise.
    pub fn wikilink_url_link_label(&mut self, input: &str, options: &Options) -> (r: Option<WikilinkComponents>)
        requires
            old(self).pos <= input.spec_bytes().len(),
            no_nul_from(input.spec_bytes(), old(self).pos as int),
            options.extension.wikilinks_title_before_pipe || options.extension.wikilinks_title_after_pipe,
        ensures
            ({
                let b = input.spec_bytes();
                let url_first = options.extension.wikilinks_title_after_pipe;
                match wikilink_spec(b, old(self).pos as int, url_first) {
                    None => r is None && final(self).pos == old(self).pos,
                    Some((url, label, end)) => r matches Some(c) && utf8(c.url@) == url && final(self).pos
                        == end && match label {
                        None => c.link_label is None,
                        Some((l, ls, le)) => c.link_label matches Some((t, ts, te)) && utf8(t@) == l && ts
                            == ls && te == le,
                    },
                }
            }),
    {
        let ghost b = input.spec_bytes();
        let bytes = input.as_bytes();
        let len = bytes.len();
        let left_startpos = self.pos;
        if left_startpos >= len || bytes[left_startpos] != 91u8 {
            return None;
        }
        let found_left = self.wikilink_component(input);
        if !found_left {
            self.pos = left_startpos;
            return None;
        }
        let le = self.pos;
        proof {
            lemma_wiki_scan(b, left_startpos + 1, left_startpos as int);
            lemma_str_valid(input);
            lemma_ascii_boundary(b, left_startpos + 1);
            lemma_ascii_boundary(b, le as int);
        }
        let left_str = trim_slice(substr(input, left_startpos + 1, le));
        let mut left = String::new();
        push_str(&mut left, left_str);
        if le < len && le + 1 < len && bytes[le] == 93u8 && bytes[le + 1] == 93u8 {
            self.pos = le + 2;
            return Some(WikilinkComponents { url: left, link_label: None });
        } else if !(le < len && bytes[le] == 124u8) {
            self.pos = left_startpos;
            return None;
        }
        let found_right = self.wikilink_component(input);
        if !found_right {
            self.pos = left_startpos;
            return None;
        }
        let re = self.pos;
        proof {
            lemma_wiki_scan(b, le + 1, le as int);
            lemma_ascii_boundary(b, le + 1);
            lemma_ascii_boundary(b, re as int);
        }
        let right_str = trim_slice(substr(input, le + 1, re));
        let mut right = String::new();
        push_str(&mut right, right_str);
        if re < len && re + 1 < len && bytes[re] == 93u8 && bytes[re + 1] == 93u8 {
            self.pos = re + 2;
            if options.extension.wikilinks_title_after_pipe {
                Some(WikilinkComponents { url: left, link_label: Some((right, le + 1, re - 1)) })
            } else {
                Some(WikilinkComponents { url: right, link_label: Some((left, left_startpos + 1, le - 1)) })
            }
        } else {
            self.pos = left_startpos;
            None
        }
    }
}

} // verus!
