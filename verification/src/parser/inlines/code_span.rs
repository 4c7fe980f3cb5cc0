//! Code spans: a run of backticks opens one, and the next run of exactly
//! as many backticks closes it.
//!
//! To avoid scanning the rest of a subject again and again, the parser
//! remembers where it last saw a run of each length, and whether it has
//! scanned to the end; a later search for a run it knows cannot come is
//! cut short.

use vstd::prelude::*;
use vstd::string::*;
use vstd::utf8::*;

use crate::nodes::{NodeCode, NodeValue};
use crate::parser::inlines::delims::run_of;
use crate::parser::inlines::{readable, Scanner};
use crate::strings::{cow_into_owned, normalize_code, normalize_code_bytes};
use crate::text::{lemma_ascii_boundary, lemma_str_valid, push_ascii, substr, utf8};

verus! {

broadcast use vstd::utf8::group_utf8_lib;

/// The longest run of backticks whose position is remembered.
pub const MAXBACKTICKS: usize = 80;

/// A run of backticks is at least one long.
pub proof fn lemma_run_pos(b: Seq<u8>, i: int)
    requires
        0 <= i < b.len(),
        b[i] == 96,
    ensures
        run_of(b, i, 96) >= 1,
        i + run_of(b, i, 96) <= b.len(),
{
    lemma_run_bound(b, i, 96);
}

/// A run does not pass the end.
pub proof fn lemma_run_bound(b: Seq<u8>, i: int, d: u8)
    requires
        0 <= i <= b.len(),
    ensures
        i + run_of(b, i, d) <= b.len(),
        forall|j: int| i <= j < i + run_of(b, i, d) ==> b[j] == d,
        i + run_of(b, i, d) < b.len() ==> b[i + run_of(b, i, d)] != d,
    decreases b.len() - i,
{
    if i < b.len() && b[i] == d {
        lemma_run_bound(b, i + 1, d);
    }
}

/// The search for a closing run of `n` backticks from `i`: every run met
/// on the way is remembered (the runs up to the longest remembered
/// length) in `bt`.  Gives the end of the closing run if one comes, the
/// memory after the search, and where the search stopped.
pub open spec fn closing_scan(b: Seq<u8>, i: int, n: nat, bt: Seq<usize>) -> (Option<int>, Seq<usize>, int)
    decreases b.len() - i,
{
    if i < 0 || i >= b.len() {
        (None, bt, i)
    } else if b[i] != 96 {
        closing_scan(b, i + 1, n, bt)
    } else {
        let k = run_of(b, i, 96);
        let bt2 = if k <= MAXBACKTICKS {
            bt.update(k as int, i as usize)
        } else {
            bt
        };
        if k == n {
            (Some(i + k), bt2, i + k)
        } else {
            proof {
                lemma_run_pos(b, i);
            }
            closing_scan(b, i + k, n, bt2)
        }
    }
}

/// No NUL byte from `i` on: the parser replaces NUL before scanning.
pub open spec fn no_nul_from(b: Seq<u8>, i: int) -> bool {
    forall|j: int| i <= j < b.len() ==> b[j] != 0
}

/// Where runs of backticks were last seen.
pub struct BacktickMemo {
    /// For each length up to `MAXBACKTICKS`, where the last run of that
    /// length seen starts.
    pub backticks: Vec<usize>,
    /// A search has reached the end of the subject.
    pub scanned_for_backticks: bool,
}

impl Scanner {
    /// Moves past the run of `b` at the position; gives its length.
    pub fn take_while(&mut self, input: &str, b: u8) -> (r: usize)
        requires
            old(self).pos <= input.spec_bytes().len(),
            b != 0,
            readable(input.spec_bytes(), old(self).pos + run_of(input.spec_bytes(), old(self).pos as int, b)),
        ensures
            r == run_of(input.spec_bytes(), old(self).pos as int, b),
            final(self).pos == old(self).pos + r,
    {
        let ghost bs = input.spec_bytes();
        let start_pos = self.pos;
        let len = input.as_bytes().len();
        proof {
            lemma_run_bound(bs, start_pos as int, b);
        }
        while self.peek_byte(input) == Some(b)
            invariant
                bs == input.spec_bytes(),
                bs.len() == len,
                b != 0,
                start_pos <= self.pos <= bs.len(),
                self.pos + run_of(bs, self.pos as int, b) == start_pos + run_of(bs, start_pos as int, b),
                readable(bs, start_pos + run_of(bs, start_pos as int, b)),
                start_pos + run_of(bs, start_pos as int, b) <= bs.len(),
                forall|j: int| start_pos <= j < start_pos + run_of(bs, start_pos as int, b) ==> bs[j] == b,
            decreases bs.len() - self.pos,
        {
            self.pos = self.pos + 1;
        }
        self.pos - start_pos
    }
}

impl BacktickMemo {
    /// Nothing remembered yet.
    pub fn new() -> (r: Self)
        ensures
            r.backticks@ == Seq::new((MAXBACKTICKS + 1) as nat, |i: int| 0usize),
            !r.scanned_for_backticks,
    {
        let mut backticks: Vec<usize> = Vec::new();
        let mut i: usize = 0;
        while i <= MAXBACKTICKS
            invariant
                i <= MAXBACKTICKS + 1,
                backticks@ == Seq::new(i as nat, |j: int| 0usize),
            decreases MAXBACKTICKS + 1 - i,
        {
            backticks.push(0);
            i = i + 1;
            proof {
                assert(backticks@ =~= Seq::new(i as nat, |j: int| 0usize));
            }
        }
        BacktickMemo { backticks, scanned_for_backticks: false }
    }

    /// Searches from the scanner's position for a run of exactly
    /// `openticklength` backticks; gives the position after it.  A search
    /// for a run longer than `MAXBACKTICKS`, or for one the memory says
    /// cannot come after the position (the subject was scanned to the end
    /// and the last such run starts no later), fails at once.  Otherwise
    /// the search runs as `closing_scan` describes, remembering the runs it
    /// meets and, when it reaches the end, that it did.
    pub fn scan_to_closing_backtick(&mut self, scanner: &mut Scanner, input: &str, openticklength: usize) -> (r: Option<usize>)
        requires
            old(self).backticks@.len() == MAXBACKTICKS + 1,
            old(scanner).pos <= input.spec_bytes().len(),
            no_nul_from(input.spec_bytes(), old(scanner).pos as int),
        ensures
            final(self).backticks@.len() == MAXBACKTICKS + 1,
            final(scanner).pos <= input.spec_bytes().len(),
            (openticklength > MAXBACKTICKS || (old(self).scanned_for_backticks
                && old(self).backticks@[openticklength as int] <= old(scanner).pos)) ==> r is None
                && *final(self) == *old(self) && final(scanner).pos == old(scanner).pos,
            !(openticklength > MAXBACKTICKS || (old(self).scanned_for_backticks
                && old(self).backticks@[openticklength as int] <= old(scanner).pos)) ==> {
                let (res, bt, end) = closing_scan(
                    input.spec_bytes(),
                    old(scanner).pos as int,
                    openticklength as nat,
                    old(self).backticks@,
                );
                &&& (match r {
                    Some(e) => Some(e as int),
                    None => None,
                }) == res
                &&& final(self).backticks@ == bt
                &&& final(scanner).pos == end
                &&& final(self).scanned_for_backticks == (old(self).scanned_for_backticks || res is None)
            },
    {
        let ghost bs = input.spec_bytes();
        let ghost p0 = scanner.pos as int;
        let len = input.as_bytes().len();
        if openticklength > MAXBACKTICKS {
            return None;
        }
        if self.scanned_for_backticks && self.backticks[openticklength] <= scanner.pos {
            return None;
        }
        loop
            invariant
                bs == input.spec_bytes(),
                bs.len() == len,
                p0 <= scanner.pos <= len,
                openticklength <= MAXBACKTICKS,
                self.backticks@.len() == MAXBACKTICKS + 1,
                self.scanned_for_backticks == old(self).scanned_for_backticks,
                !(openticklength > MAXBACKTICKS || (old(self).scanned_for_backticks
                    && old(self).backticks@[openticklength as int] <= p0)),
                p0 == old(scanner).pos,
                no_nul_from(bs, scanner.pos as int),
                closing_scan(bs, scanner.pos as int, openticklength as nat, self.backticks@) == closing_scan(
                    bs,
                    p0,
                    openticklength as nat,
                    old(self).backticks@,
                ),
            decreases len - scanner.pos,
        {
            let ghost it_start = scanner.pos;
            while scanner.pos < len && input.as_bytes()[scanner.pos] != 96
                invariant
                    it_start <= scanner.pos,
                    bs == input.spec_bytes(),
                    bs.len() == len,
                    p0 <= scanner.pos <= len,
                    openticklength <= MAXBACKTICKS,
                    no_nul_from(bs, scanner.pos as int),
                    closing_scan(bs, scanner.pos as int, openticklength as nat, self.backticks@)
                        == closing_scan(bs, p0, openticklength as nat, old(self).backticks@),
                decreases len - scanner.pos,
            {
                scanner.pos = scanner.pos + 1;
            }
            if scanner.pos >= len {
                self.scanned_for_backticks = true;
                return None;
            }
            let start = scanner.pos;
            proof {
                lemma_run_pos(bs, start as int);
                lemma_run_bound(bs, start as int, 96);
            }
            let ghost bt0 = self.backticks@;
            let numticks = scanner.take_while(input, 96);
            assert(numticks >= 1);
            assert(scanner.pos == start + numticks);
            if numticks <= MAXBACKTICKS {
                self.backticks.set(numticks, scanner.pos - numticks);
            }
            assert(self.backticks@ == if numticks <= MAXBACKTICKS {
                bt0.update(numticks as int, start as usize)
            } else {
                bt0
            });
            if numticks == openticklength {
                return Some(scanner.pos);
            }
        }
    }

    /// Parses a code span at the scanner's position, which is on a
    /// backtick: with a closing run, the code between the runs (see
    /// `normalize_code`); without one, the opening backticks as text.
    pub fn handle_backticks(&mut self, scanner: &mut Scanner, input: &str) -> (r: NodeValue)
        requires
            old(self).backticks@.len() == MAXBACKTICKS + 1,
            old(scanner).pos < input.spec_bytes().len(),
            input.spec_bytes()[old(scanner).pos as int] == 96,
            no_nul_from(input.spec_bytes(), old(scanner).pos as int),
        ensures
            ({
                let b = input.spec_bytes();
                let start = old(scanner).pos as int;
                let open = run_of(b, start, 96);
                let skip = open > MAXBACKTICKS || (old(self).scanned_for_backticks
                    && old(self).backticks@[open as int] <= start + open);
                let res = closing_scan(b, start + open, open, old(self).backticks@).0;
                &&& (skip || res is None) ==> (r matches NodeValue::Text(t) && t@ == Seq::new(
                    open,
                    |i: int| '`',
                ) && final(scanner).pos == start + open)
                &&& !skip ==> (res matches Some(e) ==> (r matches NodeValue::Code(c) && c.num_backticks
                    == open && utf8(c.literal@) == normalize_code_bytes(b.subrange(start + open, e - open))
                    && final(scanner).pos == e))
            }),
            final(self).backticks@.len() == MAXBACKTICKS + 1,
    {
        let ghost b = input.spec_bytes();
        let startpos = scanner.pos;
        proof {
            lemma_run_bound(b, startpos as int, 96);
        }
        let openticks = scanner.take_while(input, 96);
        let endpos = self.scan_to_closing_backtick(scanner, input, openticks);
        match endpos {
            None => {
                scanner.pos = startpos + openticks;
                let mut t = String::new();
                let mut i: usize = 0;
                while i < openticks
                    invariant
                        i <= openticks,
                        t@ == Seq::new(i as nat, |j: int| '`'),
                    decreases openticks - i,
                {
                    push_ascii(&mut t, '`');
                    i = i + 1;
                    proof {
                        assert(t@ =~= Seq::new(i as nat, |j: int| '`'));
                    }
                }
                NodeValue::Text(t)
            },
            Some(endpos) => {
                proof {
                    lemma_closing_scan_end(b, startpos + openticks, openticks as nat, old(self).backticks@);
                    lemma_str_valid(input);
                    lemma_ascii_boundary(b, startpos + openticks);
                    lemma_ascii_boundary(b, endpos - openticks);
                }
                let buf = substr(input, startpos + openticks, endpos - openticks);
                let lit = normalize_code(buf);
                NodeValue::Code(NodeCode { num_backticks: openticks, literal: cow_into_owned(lit) })
            },
        }
    }
}

/// A closing run found by the search lies after where it started, and its
/// backticks are preceded by the ones it consists of.
proof fn lemma_closing_scan_end(b: Seq<u8>, i: int, n: nat, bt: Seq<usize>)
    requires
        0 <= i <= b.len(),
        n >= 1,
    ensures
        closing_scan(b, i, n, bt).0 matches Some(e) ==> i + n <= e <= b.len() && b[e - n] == 96
            && closing_scan(b, i, n, bt).2 == e,
    decreases b.len() - i,
{
    if i < b.len() {
        if b[i] != 96 {
            lemma_closing_scan_end(b, i + 1, n, bt);
        } else {
            let k = run_of(b, i, 96);
            lemma_run_bound(b, i, 96);
            lemma_run_pos(b, i);
            let bt2 = if k <= MAXBACKTICKS {
                bt.update(k as int, i as usize)
            } else {
                bt
            };
            if k != n {
                lemma_closing_scan_end(b, i + k, n, bt2);
            }
        }
    }
}

} // verus!
