//! List item markers: a bullet (`*`, `-`, `+`) or an ordinal of up to nine
//! digits followed by `.` or `)`, then whitespace.

use vstd::prelude::*;
use vstd::string::*;

use crate::ctype::{is_digit_byte, is_space_byte, isdigit, isspace};
use crate::nodes::{ListDelimType, ListType, NodeList};
use crate::strings::{is_line_end_byte, is_line_end_char, is_space_or_tab, is_space_or_tab_byte};

verus! {

/// Where a run of spaces and tabs from `i` on ends.
pub open spec fn skip_space_tab(b: Seq<u8>, i: int) -> int
    decreases b.len() - i,
{
    if 0 <= i < b.len() && is_space_or_tab_byte(b[i]) {
        skip_space_tab(b, i + 1)
    } else {
        i
    }
}

/// How many digits an ordinal at `i` takes, `k` of them taken already: it
/// goes on while digits follow, up to nine.
pub open spec fn digit_count(b: Seq<u8>, i: int, k: nat) -> nat
    decreases 9 - k,
{
    if k < 9 && 0 <= i + k < b.len() && is_digit_byte(b[i + k]) {
        digit_count(b, i, k + 1)
    } else {
        k
    }
}

/// The value of the `k` decimal digits at `i`.
pub open spec fn digits_value(b: Seq<u8>, i: int, k: nat) -> nat
    decreases k,
{
    if k == 0 {
        0
    } else {
        digits_value(b, i, (k - 1) as nat) * 10 + (b[i + k - 1] - 48) as nat
    }
}

/// The list a bullet marker starts.
pub open spec fn bullet_list(c: u8) -> NodeList {
    NodeList {
        list_type: ListType::Bullet,
        marker_offset: 0,
        padding: 0,
        start: 1,
        delimiter: ListDelimType::Period,
        bullet_char: c,
        tight: false,
        is_task_list: false,
    }
}

/// The list an ordinal marker starts.
pub open spec fn ordered_list(start: nat, d: u8) -> NodeList {
    NodeList {
        list_type: ListType::Ordered,
        marker_offset: 0,
        padding: 0,
        start: start as usize,
        delimiter: if d == 46 {
            ListDelimType::Period
        } else {
            ListDelimType::Paren
        },
        bullet_char: 0,
        tight: false,
        is_task_list: false,
    }
}

/// The list marker at `pos` of line `b`, with its length.  A marker must be
/// followed by whitespace; when it would interrupt a paragraph, an ordinal
/// must be 1 and the item may not be empty.
pub open spec fn list_marker_spec(b: Seq<u8>, pos: int, interrupts: bool) -> Option<(nat, NodeList)> {
    let c = b[pos];
    if c == 42 || c == 45 || c == 43 {
        if !is_space_byte(b[pos + 1]) {
            None
        } else if interrupts && b[skip_space_tab(b, pos + 1)] == 10 {
            None
        } else {
            Some((1, bullet_list(c)))
        }
    } else if is_digit_byte(c) {
        let k = digit_count(b, pos, 1);
        let start = digits_value(b, pos, k);
        let d = b[pos + k];
        if interrupts && start != 1 {
            None
        } else if d != 46 && d != 41 {
            None
        } else if !is_space_byte(b[pos + k + 1]) {
            None
        } else if interrupts && is_line_end_byte(b[skip_space_tab(b, pos + k + 1)]) {
            None
        } else {
            Some(((k + 1) as nat, ordered_list(start, d)))
        }
    } else {
        None
    }
}

/// Ten to the power `k`.
spec fn ten_pow(k: nat) -> nat
    decreases k,
{
    if k == 0 {
        1
    } else {
        10 * ten_pow((k - 1) as nat)
    }
}

/// `k` digits make a number below ten to the `k`, and at most a hundred
/// million for eight digits or fewer.
proof fn lemma_digits_value_bound(b: Seq<u8>, i: int, k: nat)
    requires
        forall|j: int| i <= j < i + k ==> is_digit_byte(#[trigger] b[j]),
        0 <= i,
        i + k <= b.len(),
    ensures
        digits_value(b, i, k) < ten_pow(k),
        k <= 8 ==> digits_value(b, i, k) < 100000000,
    decreases k,
{
    if k > 0 {
        lemma_digits_value_bound(b, i, (k - 1) as nat);
    }
    reveal_with_fuel(ten_pow, 9);
}

/// Where a run of spaces and tabs from `i` on ends, in a line ending in a
/// newline.
fn skip_space_tab_exec(bytes: &[u8], i: usize) -> (r: usize)
    requires
        i < bytes@.len(),
        bytes@.last() == 10,
    ensures
        r == skip_space_tab(bytes@, i as int),
        r < bytes@.len(),
{
    let mut j = i;
    while is_space_or_tab(bytes[j])
        invariant
            i <= j < bytes@.len(),
            bytes@.last() == 10,
            skip_space_tab(bytes@, j as int) == skip_space_tab(bytes@, i as int),
        decreases bytes@.len() - j,
    {
        j = j + 1;
    }
    j
}

/// Parses the list marker at `pos` of `line`, which ends in a newline, as
/// the block parser hands lines over: the marker's length and the list it
/// starts (see `list_marker_spec`).
pub fn parse_list_marker(line: &str, pos: usize, interrupts_paragraph: bool) -> (r: Option<(usize, NodeList)>)
    requires
        pos < line.spec_bytes().len(),
        line.spec_bytes().last() == 10,
    ensures
        (match r {
            Some((n, l)) => Some((n as nat, l)),
            None => None,
        }) == list_marker_spec(line.spec_bytes(), pos as int, interrupts_paragraph),
{
    let bytes = line.as_bytes();
    let ghost b = bytes@;
    let mut c = bytes[pos];
    let startpos = pos;
    let mut pos = pos;
    if c == 42 || c == 45 || c == 43 {
        pos = pos + 1;
        if !isspace(bytes[pos]) {
            return None;
        }
        if interrupts_paragraph {
            let i = skip_space_tab_exec(bytes, pos);
            if bytes[i] == 10 {
                return None;
            }
        }
        return Some((
            pos - startpos,
            NodeList {
                list_type: ListType::Bullet,
                marker_offset: 0,
                padding: 0,
                start: 1,
                delimiter: ListDelimType::Period,
                bullet_char: c,
                tight: false,
                is_task_list: false,
            },
        ));
    } else if isdigit(c) {
        let mut start: usize = 0;
        let mut digits: usize = 0;
        loop
            invariant_except_break
                digits < 9,
                is_digit_byte(b[pos as int]),
                digit_count(b, startpos as int, (digits + 1) as nat) == digit_count(b, startpos as int, 1),
            invariant
                b == bytes@,
                b.last() == 10,
                startpos < b.len(),
                pos == startpos + digits,
                pos < b.len(),
                forall|j: int| startpos <= j < pos ==> is_digit_byte(#[trigger] b[j]),
                start == digits_value(b, startpos as int, digits as nat),
            ensures
                1 <= digits <= 9,
                digits == digit_count(b, startpos as int, 1),
            decreases 9 - digits,
        {
            proof {
                lemma_digits_value_bound(b, startpos as int, digits as nat);
            }
            start = (10 * start) + (bytes[pos] - 48) as usize;
            pos = pos + 1;
            digits = digits + 1;
            if !(digits < 9 && isdigit(bytes[pos])) {
                assert(digit_count(b, startpos as int, digits as nat) == digits);
                break;
            }
        }
        assert(digits == digit_count(b, startpos as int, 1));
        if interrupts_paragraph && start != 1 {
            return None;
        }
        c = bytes[pos];
        if c != 46 && c != 41 {
            return None;
        }
        pos = pos + 1;
        if !isspace(bytes[pos]) {
            return None;
        }
        if interrupts_paragraph {
            let i = skip_space_tab_exec(bytes, pos);
            if is_line_end_char(bytes[i]) {
                return None;
            }
        }
        return Some((
            pos - startpos,
            NodeList {
                list_type: ListType::Ordered,
                marker_offset: 0,
                padding: 0,
                start,
                delimiter: if c == 46 {
                    ListDelimType::Period
                } else {
                    ListDelimType::Paren
                },
                bullet_char: 0,
                tight: false,
                is_task_list: false,
            },
        ));
    } else {
        return None;
    }
}

} // verus!
