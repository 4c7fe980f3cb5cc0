//! The delimiter stack of the inline parser, and the pass that turns runs
//! of `*`, `_`, `~`, `^` and `|` into emphasis and its relatives.
//!
//! Each delimiter run that may open or close a span is recorded on a
//! stack, linked to its neighbours both ways.  Once a span of text has
//! been read, `process_emphasis` walks the stack from the bottom up,
//! looking for each closer's nearest matching opener, and `insert_emph`
//! moves the inlines between a matched pair into a new node.

use vstd::prelude::*;

use crate::arena_tree::{
    lemma_append_places_last, lemma_detach_unlinks, lemma_insert_after_places_next, lemma_places,
    Arena, Id,
};
use crate::nodes::{Ast, LineColumn, NodeValue, Sourcepos};
use crate::parser::inlines::special::is_emph_delim;
use crate::parser::options::Options;
use crate::text::truncate_string;

verus! {

/// A delimiter run that may open or close a span.
#[derive(Debug, Clone, Copy)]
pub struct Delimiter {
    /// The text node that holds the run.
    pub inl: Id,
    /// Where the subject stood just after the run.
    pub position: usize,
    /// The length of the run, in bytes, when it was read.
    pub length: usize,
    /// The byte the run is made of.
    pub delim_byte: u8,
    /// Whether the run can open a span.
    pub can_open: bool,
    /// Whether the run can close a span.
    pub can_close: bool,
    /// The delimiter below this one on the stack.
    pub prev: Option<usize>,
    /// The delimiter above this one on the stack.
    pub next: Option<usize>,
}

/// Two delimiters agree in everything but their links.
pub open spec fn same_record(a: Delimiter, b: Delimiter) -> bool {
    &&& a.inl == b.inl
    &&& a.position == b.position
    &&& a.length == b.length
    &&& a.delim_byte == b.delim_byte
    &&& a.can_open == b.can_open
    &&& a.can_close == b.can_close
}

/// The links of the slots `d` agree with the stack `l`, bottom first: each
/// delimiter on it points to its neighbours, `last` is the top, and
/// positions rise from the bottom up.
pub open spec fn linked(d: Seq<Delimiter>, l: Seq<usize>, last: Option<usize>) -> bool {
    &&& l.no_duplicates()
    &&& forall|k: int| 0 <= k < l.len() ==> #[trigger] l[k] < d.len()
    &&& forall|k: int|
        0 <= k < l.len() ==> (#[trigger] d[l[k] as int]).prev == (if k == 0 {
            None
        } else {
            Some(l[k - 1])
        })
    &&& forall|k: int|
        0 <= k < l.len() ==> (#[trigger] d[l[k] as int]).next == (if k + 1 == l.len() {
            None
        } else {
            Some(l[k + 1])
        })
    &&& last == (if l.len() == 0 {
        None
    } else {
        Some(l.last())
    })
    &&& forall|i: int, j: int|
        0 <= i < j < l.len() ==> d[#[trigger] l[i] as int].position < d[#[trigger] l[j] as int].position
}

/// Unlinking the delimiter at index `k` of the stack, by pointing its
/// neighbours at each other, leaves slots linked to the stack without it.
proof fn lemma_unlink(
    od: Seq<Delimiter>,
    nd: Seq<Delimiter>,
    l: Seq<usize>,
    k: int,
    last: Option<usize>,
    nlast: Option<usize>,
)
    requires
        linked(od, l, last),
        0 <= k < l.len(),
        nd.len() == od.len(),
        forall|j: int|
            0 <= j < od.len() && (k == 0 || j != l[k - 1]) && (k + 1 == l.len() || j != l[k + 1])
                ==> #[trigger] nd[j] == od[j],
        k > 0 ==> nd[l[k - 1] as int] == (Delimiter { next: od[l[k] as int].next, ..od[l[k - 1] as int] }),
        k + 1 < l.len() ==> nd[l[k + 1] as int] == (Delimiter {
            prev: od[l[k] as int].prev,
            ..od[l[k + 1] as int]
        }),
        nlast == (if k + 1 == l.len() {
            od[l[k] as int].prev
        } else {
            last
        }),
    ensures
        linked(nd, l.remove(k), nlast),
{
    assert forall|j: int| 0 <= j < od.len() implies (#[trigger] nd[j]).prev == (if k + 1 < l.len() && j
        == l[k + 1] {
        od[l[k] as int].prev
    } else {
        od[j].prev
    }) && nd[j].next == (if k > 0 && j == l[k - 1] {
        od[l[k] as int].next
    } else {
        od[j].next
    }) && nd[j].position == od[j].position by {
        if k > 0 && j == l[k - 1] {
        } else if k + 1 < l.len() && j == l[k + 1] {
        } else {
            assert(nd[j] == od[j]);
        }
    }
    assert(od[l[k] as int].prev == (if k == 0 {
        None
    } else {
        Some(l[k - 1])
    }));
    lemma_unlink_prev(od, nd, l, k, last, nlast);
    lemma_unlink_next(od, nd, l, k, last, nlast);
    lemma_unlink_rest(od, nd, l, k, last, nlast);
    lemma_unlink_positions(od, nd, l, k, last, nlast);
}

/// After unlinking, each delimiter left points down to its new neighbour.
proof fn lemma_unlink_prev(
    od: Seq<Delimiter>,
    nd: Seq<Delimiter>,
    l: Seq<usize>,
    k: int,
    last: Option<usize>,
    nlast: Option<usize>,
)
    requires
        l.no_duplicates(),
        0 <= k < l.len(),
        forall|i: int| 0 <= i < l.len() ==> #[trigger] l[i] < od.len(),
        forall|i: int|
            0 <= i < l.len() ==> (#[trigger] od[l[i] as int]).prev == (if i == 0 {
                None
            } else {
                Some(l[i - 1])
            }),
        nd.len() == od.len(),
        forall|j: int|
            0 <= j < od.len() ==> (#[trigger] nd[j]).prev == (if k + 1 < l.len() && j == l[k + 1] {
                od[l[k] as int].prev
            } else {
                od[j].prev
            }),
    ensures
        forall|j: int| 0 <= j < l.remove(k).len() ==> (#[trigger] nd[l.remove(k)[j] as int]).prev == (if j == 0 {
            None
        } else {
            Some(l.remove(k)[j - 1])
        }),
{
    let nl = l.remove(k);
    assert forall|j: int| 0 <= j < nl.len() implies (#[trigger] nd[nl[j] as int]).prev == (if j == 0 {
        None
    } else {
        Some(nl[j - 1])
    }) by {
        let j2 = if j < k {
            j
        } else {
            j + 1
        };
        assert(nl[j] == l[j2]);
        assert(od[l[j2] as int].prev == (if j2 == 0 {
            None
        } else {
            Some(l[j2 - 1])
        }));
        assert(nd[l[j2] as int].prev == (if k + 1 < l.len() && l[j2] == l[k + 1] {
            od[l[k] as int].prev
        } else {
            od[l[j2] as int].prev
        }));
    }
}

/// After unlinking, each delimiter left points up to its new neighbour.
proof fn lemma_unlink_next(
    od: Seq<Delimiter>,
    nd: Seq<Delimiter>,
    l: Seq<usize>,
    k: int,
    last: Option<usize>,
    nlast: Option<usize>,
)
    requires
        l.no_duplicates(),
        0 <= k < l.len(),
        forall|i: int| 0 <= i < l.len() ==> #[trigger] l[i] < od.len(),
        forall|i: int|
            0 <= i < l.len() ==> (#[trigger] od[l[i] as int]).next == (if i + 1 == l.len() {
                None
            } else {
                Some(l[i + 1])
            }),
        nd.len() == od.len(),
        forall|j: int|
            0 <= j < od.len() ==> (#[trigger] nd[j]).next == (if k > 0 && j == l[k - 1] {
                od[l[k] as int].next
            } else {
                od[j].next
            }),
    ensures
        forall|j: int| 0 <= j < l.remove(k).len() ==> (#[trigger] nd[l.remove(k)[j] as int]).next == (if j + 1
            == l.remove(k).len() {
            None
        } else {
            Some(l.remove(k)[j + 1])
        }),
{
    let nl = l.remove(k);
    assert forall|j: int| 0 <= j < nl.len() implies (#[trigger] nd[nl[j] as int]).next == (if j + 1
        == nl.len() {
        None
    } else {
        Some(nl[j + 1])
    }) by {
        let j2 = if j < k {
            j
        } else {
            j + 1
        };
        assert(nl[j] == l[j2]);
        assert(od[l[j2] as int].next == (if j2 + 1 == l.len() {
            None
        } else {
            Some(l[j2 + 1])
        }));
        assert(nd[l[j2] as int].next == (if k > 0 && l[j2] == l[k - 1] {
            od[l[k] as int].next
        } else {
            od[l[j2] as int].next
        }));
    }
}

/// After unlinking, the stack left is in range, without repeats, and
/// topped by `nlast`.
proof fn lemma_unlink_rest(
    od: Seq<Delimiter>,
    nd: Seq<Delimiter>,
    l: Seq<usize>,
    k: int,
    last: Option<usize>,
    nlast: Option<usize>,
)
    requires
        l.no_duplicates(),
        0 <= k < l.len(),
        forall|i: int| 0 <= i < l.len() ==> #[trigger] l[i] < od.len(),
        last == (if l.len() == 0 {
            None
        } else {
            Some(l.last())
        }),
        od[l[k] as int].prev == (if k == 0 {
            None
        } else {
            Some(l[k - 1])
        }),
        nd.len() == od.len(),
        nlast == (if k + 1 == l.len() {
            od[l[k] as int].prev
        } else {
            last
        }),
    ensures
        l.remove(k).no_duplicates(),
        forall|a: int| 0 <= a < l.remove(k).len() ==> #[trigger] l.remove(k)[a] < nd.len(),
        nlast == (if l.remove(k).len() == 0 {
            None
        } else {
            Some(l.remove(k).last())
        }),
{
    let nl = l.remove(k);
    assert forall|a: int| 0 <= a < nl.len() implies #[trigger] nl[a] < nd.len() by {
        if a < k {
            assert(nl[a] == l[a]);
        } else {
            assert(nl[a] == l[a + 1]);
        }
    }
    assert forall|a: int, b: int| 0 <= a < nl.len() && 0 <= b < nl.len() && a != b implies nl[a] != nl[b] by {
        let a2 = if a < k {
            a
        } else {
            a + 1
        };
        let b2 = if b < k {
            b
        } else {
            b + 1
        };
        assert(nl[a] == l[a2]);
        assert(nl[b] == l[b2]);
    }
    if nl.len() > 0 && k + 1 == l.len() {
        assert(nl.last() == l[k - 1]);
    }
    if k + 1 < l.len() {
        assert(nl.last() == l.last());
    }
}

/// After unlinking, the stack left still rises in position.
proof fn lemma_unlink_positions(
    od: Seq<Delimiter>,
    nd: Seq<Delimiter>,
    l: Seq<usize>,
    k: int,
    last: Option<usize>,
    nlast: Option<usize>,
)
    requires
        0 <= k < l.len(),
        forall|i: int| 0 <= i < l.len() ==> #[trigger] l[i] < od.len(),
        forall|i: int, j: int|
            0 <= i < j < l.len() ==> od[#[trigger] l[i] as int].position < od[#[trigger] l[j] as int].position,
        nd.len() == od.len(),
        forall|j: int| 0 <= j < od.len() ==> #[trigger] nd[j].position == od[j].position,
    ensures
        forall|i: int, j: int|
            0 <= i < j < l.remove(k).len() ==> nd[#[trigger] l.remove(k)[i] as int].position < nd[#[trigger] l.remove(k)[j] as int].position,
{
    let nl = l.remove(k);
    assert forall|i: int, j: int|
        0 <= i < j < nl.len() implies nd[#[trigger] nl[i] as int].position < nd[#[trigger] nl[j] as int].position by {
        let i2 = if i < k {
            i
        } else {
            i + 1
        };
        let j2 = if j < k {
            j
        } else {
            j + 1
        };
        assert(nl[i] == l[i2]);
        assert(nl[j] == l[j2]);
        assert(od[l[i2] as int].position < od[l[j2] as int].position);
    }
}

/// The delimiters read so far.  Every delimiter ever pushed keeps its
/// slot; those still on the stack are linked from the top down through
/// `prev` and from the bottom up through `next`.
pub struct DelimiterStack {
    delimiters: Vec<Delimiter>,
    last_delimiter: Option<usize>,
    live: Ghost<Seq<usize>>,
}

impl DelimiterStack {
    /// Every delimiter ever pushed, by the order of pushing.
    pub closed spec fn entries(&self) -> Seq<Delimiter> {
        self.delimiters@
    }

    /// The delimiters still on the stack, bottom first, by slot.
    pub closed spec fn live(&self) -> Seq<usize> {
        self.live@
    }

    /// The top of the stack.
    pub closed spec fn top(&self) -> Option<usize> {
        self.last_delimiter
    }

    /// The links agree with the stack: each delimiter on it points to its
    /// neighbours, the top is the last one, and positions rise from the
    /// bottom up.
    #[verifier::opaque]
    pub closed spec fn wf(&self) -> bool {
        linked(self.delimiters@, self.live@, self.last_delimiter)
    }

    /// What the links say of the delimiter at index `k` of the stack: its
    /// neighbours, its slot, and its position against those above it.
    pub proof fn lemma_links(&self, k: int)
        requires
            self.wf(),
            0 <= k < self.live().len(),
        ensures
            self.live().no_duplicates(),
            self.live()[k] < self.entries().len(),
            self.entries()[self.live()[k] as int].prev == (if k == 0 {
                None
            } else {
                Some(self.live()[k - 1])
            }),
            self.entries()[self.live()[k] as int].next == (if k + 1 == self.live().len() {
                None
            } else {
                Some(self.live()[k + 1])
            }),
            forall|j: int|
                k < j < self.live().len() ==> self.entries()[self.live()[k] as int].position
                    < #[trigger] self.entries()[self.live()[j] as int].position,
    {
        reveal(DelimiterStack::wf);
    }

    /// An empty stack.
    pub fn new() -> (r: DelimiterStack)
        ensures
            r.wf(),
            r.entries().len() == 0,
            r.live().len() == 0,
    {
        reveal(DelimiterStack::wf);
        DelimiterStack { delimiters: Vec::new(), last_delimiter: None, live: Ghost(Seq::empty()) }
    }

    /// The top of the stack, unless it is empty.
    pub fn last_delimiter(&self) -> (r: Option<usize>)
        requires
            self.wf(),
        ensures
            r == (if self.live().len() == 0 {
                None
            } else {
                Some(self.live().last())
            }),
    {
        reveal(DelimiterStack::wf);
        self.last_delimiter
    }

    /// The delimiter in slot `id`.
    pub fn get(&self, id: usize) -> (r: &Delimiter)
        requires
            id < self.entries().len(),
        ensures
            *r == self.entries()[id as int],
    {
        &self.delimiters[id]
    }

    /// Push a delimiter on top of the stack.  Its position must lie past
    /// that of the delimiter below.
    pub fn push_delimiter(
        &mut self,
        b: u8,
        can_open: bool,
        can_close: bool,
        inl: Id,
        position: usize,
        length: usize,
    ) -> (r: usize)
        requires
            old(self).wf(),
            old(self).entries().len() < usize::MAX,
            old(self).live().len() > 0 ==> old(self).entries()[old(self).live().last() as int].position
                < position,
        ensures
            final(self).wf(),
            r == old(self).entries().len(),
            final(self).live() == old(self).live().push(r),
            final(self).entries().len() == old(self).entries().len() + 1,
            forall|j: int|
                0 <= j < old(self).entries().len() ==> same_record(
                    #[trigger] final(self).entries()[j],
                    old(self).entries()[j],
                ),
            final(self).entries()[r as int] == (Delimiter {
                inl,
                position,
                length,
                delim_byte: b,
                can_open,
                can_close,
                prev: old(self).top(),
                next: None,
            }),
    {
        reveal(DelimiterStack::wf);
        let d = self.delimiters.len();
        let ghost l = self.live@;
        let ghost od = self.delimiters@;
        self.delimiters.push(
            Delimiter {
                inl,
                position,
                length,
                delim_byte: b,
                can_open,
                can_close,
                prev: self.last_delimiter,
                next: None,
            },
        );
        if let Some(last) = self.last_delimiter {
            self.delimiters[last].next = Some(d);
        }
        self.last_delimiter = Some(d);
        self.live = Ghost(l.push(d));
        proof {
            let nd = self.delimiters@;
            let nl = self.live@;
            assert forall|k: int| 0 <= k < l.len() implies l[k] != d by {
                assert(l[k] < od.len());
            }
            assert(nl.no_duplicates());
            assert forall|k: int| 0 <= k < nl.len() implies #[trigger] nl[k] < nd.len() by {
                if k < l.len() {
                    assert(l[k] < od.len());
                }
            }
            assert forall|k: int|
                0 <= k < nl.len() implies (#[trigger] nd[nl[k] as int]).prev == (if k == 0 {
                    None
                } else {
                    Some(nl[k - 1])
                }) by {
                if k < l.len() {
                    assert(od[l[k] as int].prev == (if k == 0 {
                        None
                    } else {
                        Some(l[k - 1])
                    }));
                }
            }
            assert forall|k: int|
                0 <= k < nl.len() implies (#[trigger] nd[nl[k] as int]).next == (if k + 1 == nl.len() {
                    None
                } else {
                    Some(nl[k + 1])
                }) by {
                if k < l.len() {
                    assert(od[l[k] as int].next == (if k + 1 == l.len() {
                        None
                    } else {
                        Some(l[k + 1])
                    }));
                }
            }
            assert forall|i: int, j: int|
                0 <= i < j < nl.len() implies nd[#[trigger] nl[i] as int].position < nd[#[trigger] nl[
                j] as int].position by {
                if j < l.len() {
                    assert(od[l[i] as int].position < od[l[j] as int].position);
                } else if i + 1 < l.len() {
                    assert(od[l[i] as int].position < od[l[l.len() - 1] as int].position);
                }
            }
        }
        d
    }

    /// Take the delimiter in slot `id` off the stack, linking its
    /// neighbours to each other.  Its own slot keeps its record.
    #[verifier::spinoff_prover]
    pub fn remove_delimiter(&mut self, id: usize)
        requires
            old(self).wf(),
            old(self).live().contains(id),
        ensures
            final(self).wf(),
            final(self).live() == old(self).live().remove(old(self).live().index_of(id)),
            final(self).entries().len() == old(self).entries().len(),
            forall|j: int|
                0 <= j < old(self).entries().len() ==> same_record(
                    #[trigger] final(self).entries()[j],
                    old(self).entries()[j],
                ),
            final(self).entries()[id as int] == old(self).entries()[id as int],
    {
        reveal(DelimiterStack::wf);
        let ghost l = self.live@;
        let ghost od = self.delimiters@;
        let ghost k = l.index_of(id);
        let ghost last = self.last_delimiter;
        proof {
            assert(l[k] == id);
            if k + 1 < l.len() {
                assert(l[k + 1] != id);
            }
            if k > 0 {
                assert(l[k - 1] != id);
            }
            if k > 0 && k + 1 < l.len() {
                assert(l[k - 1] != l[k + 1]);
            }
        }
        let prev = self.delimiters[id].prev;
        let next = self.delimiters[id].next;
        match next {
            Some(n) => {
                self.delimiters[n].prev = prev;
            },
            None => {
                self.last_delimiter = prev;
            },
        }
        match prev {
            Some(p) => {
                self.delimiters[p].next = next;
            },
            None => {},
        }
        self.live = Ghost(l.remove(k));
        proof {
            lemma_unlink(od, self.delimiters@, l, k, last, self.last_delimiter);
        }
    }

    /// Match the opener `opener_id` with the closer `closer_id` above it:
    /// make a node of the kind the delimiters call for, move the inlines
    /// between the two runs into it, and use up one or two delimiters of
    /// each run.  The delimiters between the two leave the stack, and so
    /// does a run used up, which also leaves the tree.  Returns the closer
    /// to look at next: the same one while some of it is left, else the
    /// one above it.  A match of `~` runs that strikethrough or subscript
    /// turn down changes nothing and returns `None`.
    #[verifier::spinoff_prover]
    #[verifier::rlimit(60)]
    pub fn insert_emph(
        &mut self,
        arena: &mut Arena<Ast>,
        options: &Options,
        opener_id: usize,
        closer_id: usize,
    ) -> (r: Option<usize>)
        requires
            old(self).wf(),
            old(arena).wf(),
            old(arena).nodes().len() < usize::MAX,
            old(self).live().contains(opener_id),
            old(self).live().contains(closer_id),
            old(self).live().index_of(opener_id) < old(self).live().index_of(closer_id),
            ({
                let n = old(arena).nodes();
                let od = old(self).entries()[opener_id as int];
                let cd = old(self).entries()[closer_id as int];
                &&& od.delim_byte == cd.delim_byte
                &&& od.inl.0 < n.len()
                &&& cd.inl.0 < n.len()
                &&& run_node(n[od.inl.0 as int].value(), od.delim_byte)
                &&& run_node(n[cd.inl.0 as int].value(), cd.delim_byte)
                &&& n[od.inl.0 as int].parent_link() is Some
                &&& n[cd.inl.0 as int].parent_link() == n[od.inl.0 as int].parent_link()
                &&& old(arena).places()[od.inl.0 as int] < old(arena).places()[cd.inl.0 as int]
            }),
        ensures
            emph_refused(*old(self), *old(arena), *options, opener_id, closer_id) ==> r is None
                && *final(self) == *old(self) && *final(arena) == *old(arena),
            !emph_refused(*old(self), *old(arena), *options, opener_id, closer_id) ==> final(self).wf()
                && final(arena).wf(),
            !emph_refused(*old(self), *old(arena), *options, opener_id, closer_id) ==> final(self).entries().len()
                == old(self).entries().len() && forall|j: int|
                0 <= j < old(self).entries().len() ==> same_record(
                    #[trigger] final(self).entries()[j],
                    old(self).entries()[j],
                ),
            !emph_refused(*old(self), *old(arena), *options, opener_id, closer_id) ==> final(self).live()
                == stack_after_match(
                old(self).live(),
                opener_id,
                closer_id,
                left_of(*old(self), *old(arena), opener_id, opener_id, closer_id),
                left_of(*old(self), *old(arena), closer_id, opener_id, closer_id),
            ),
            !emph_refused(*old(self), *old(arena), *options, opener_id, closer_id) ==> r == next_closer(
                old(self).live(),
                closer_id,
                left_of(*old(self), *old(arena), closer_id, opener_id, closer_id),
            ),
            !emph_refused(*old(self), *old(arena), *options, opener_id, closer_id) ==> tree_after_match(
                *old(arena),
                *final(arena),
                *options,
                old(self).entries()[opener_id as int].inl.0 as int,
                old(self).entries()[closer_id as int].inl.0 as int,
                old(self).entries()[opener_id as int].delim_byte,
                used(*old(self), *old(arena), opener_id, closer_id),
                left_of(*old(self), *old(arena), opener_id, opener_id, closer_id),
                left_of(*old(self), *old(arena), closer_id, opener_id, closer_id),
            ),
    {
        let ghost lo = self.live@;
        let ghost ko = lo.index_of(opener_id);
        let ghost kc = lo.index_of(closer_id);
        let ghost n0 = arena.nodes();
        let ghost q0 = arena.places();
        let ghost a0 = *arena;
        proof {
            self.lemma_links(ko);
            self.lemma_links(kc);
        }
        let opener_inl = self.delimiters[opener_id].inl;
        let closer_inl = self.delimiters[closer_id].inl;
        let opener_byte = self.delimiters[opener_id].delim_byte;
        let ghost oi = opener_inl.0 as int;
        let ghost ci = closer_inl.0 as int;
        let ghost oa = n0[oi].value();
        let ghost ca = n0[ci].value();
        proof {
            lemma_encode_ascii_run(text_of(oa), opener_byte);
            lemma_encode_ascii_run(text_of(ca), opener_byte);
            lemma_places(a0, opener_inl);
            lemma_places(a0, closer_inl);
            assert(oi != ci);
        }
        let opener_num_bytes_all = opener_inl.data(arena).value.text().unwrap().as_str().len();
        let closer_num_bytes_all = closer_inl.data(arena).value.text().unwrap().as_str().len();
        let use_delims: usize = if closer_num_bytes_all >= 2 && opener_num_bytes_all >= 2 {
            2
        } else {
            1
        };
        let opener_num_bytes = opener_num_bytes_all - use_delims;
        let closer_num_bytes = closer_num_bytes_all - use_delims;
        if (options.extension.strikethrough || options.extension.subscript) && opener_byte == 126u8
            && (opener_num_bytes != closer_num_bytes || opener_num_bytes > 0) {
            return None;
        }
        cut_text(arena, opener_inl, opener_num_bytes);
        let ghost n_c1 = arena.nodes();
        cut_text(arena, closer_inl, closer_num_bytes);
        let ghost n_c = arena.nodes();
        self.unlink_between(opener_id, closer_id);
        let value = emph_value(options, opener_byte, use_delims);
        let emph = place_emph(arena, opener_inl, closer_inl, value, opener_num_bytes, closer_num_bytes);
        let ghost n_s = arena.nodes();
        let ghost q_s = arena.places();
        proof {
            lemma_places(*arena, opener_inl);
        }
        settle_run(arena, opener_inl, opener_num_bytes, use_delims, true);
        let ghost l1 = self.live@;
        proof {
            assert(l1[ko] == opener_id);
            assert(l1[ko + 1] == closer_id);
        }
        if opener_num_bytes == 0 {
            proof {
                assert(l1.index_of(opener_id) == ko);
            }
            self.remove_delimiter(opener_id);
            proof {
                assert(self.live@ =~= lo.subrange(0, ko) + lo.subrange(kc, lo.len() as int));
            }
        }
        let ghost n_o = arena.nodes();
        let ghost q_o = arena.places();
        let ghost l2 = self.live@;
        let ghost kc2: int = if opener_num_bytes == 0 {
            ko
        } else {
            ko + 1
        };
        let ghost pre: Seq<usize> = if opener_num_bytes == 0 {
            lo.subrange(0, ko)
        } else {
            lo.subrange(0, ko + 1)
        };
        proof {
            assert(l2 =~= pre + lo.subrange(kc, lo.len() as int));
            assert(pre.len() == kc2);
            assert(l2[kc2] == closer_id);
            self.lemma_links(kc2);
            assert(self.delimiters@[closer_id as int].next == (if kc2 + 1 == l2.len() {
                None
            } else {
                Some(l2[kc2 + 1])
            }));
            if kc2 + 1 < l2.len() {
                assert(l2[kc2 + 1] == lo[kc + 1]);
            }
        }
        settle_run(arena, closer_inl, closer_num_bytes, use_delims, false);
        let r = if closer_num_bytes == 0 {
            proof {
                assert(l2.index_of(closer_id) == kc2);
            }
            self.remove_delimiter(closer_id);
            proof {
                assert(self.live@ =~= pre + lo.subrange(kc + 1, lo.len() as int));
            }
            self.delimiters[closer_id].next
        } else {
            proof {
                assert(l2 =~= pre + seq![closer_id] + lo.subrange(kc + 1, lo.len() as int));
            }
            Some(closer_id)
        };
        proof {
            let m = arena.nodes();
            let mq = arena.places();
            let e = n0.len() as int;
            assert forall|j: int| 0 <= j < n0.len() implies (#[trigger] n_c[j]).parent_link()
                == n0[j].parent_link() by {
                if j != oi && j != ci {
                    assert(n_c[j] == n_c1[j]);
                    assert(n_c1[j] == n0[j]);
                } else if j == oi {
                    assert(n_c[j] == n_c1[j]);
                } else {
                    assert(n_c1[j] == n0[j]);
                }
            }
            lemma_emph_places(n0, q0, n_c, n_s, q_s, n_o, q_o, m, mq, oi, ci, opener_num_bytes as int, closer_num_bytes as int);
            assert forall|j: int| 0 <= j < n0.len() && j != oi && j != ci implies (#[trigger] m[j]).value()
                == n0[j].value() by {
                assert(n_c[j] == n_c1[j]);
                assert(n_c1[j] == n0[j]);
            }
            assert(n_c[oi] == n_c1[oi]);
            assert(n_c1[ci] == n0[ci]);
            assert(m[e].value() == n_s[e].value());
            assert(m[oi].value() == n_o[oi].value());
            assert(n_o[ci].value() == n_s[ci].value());
            assert(tree_after_match(
                a0,
                *arena,
                *options,
                oi,
                ci,
                opener_byte,
                use_delims as int,
                opener_num_bytes as int,
                closer_num_bytes as int,
            ));
        }
        proof {
            assert(opener_num_bytes == left_of(*old(self), a0, opener_id, opener_id, closer_id));
            assert(closer_num_bytes == left_of(*old(self), a0, closer_id, opener_id, closer_id));
            assert(lo.subrange(0, ko + 1) =~= lo.subrange(0, ko) + seq![opener_id]);
            assert(self.live@ =~= stack_after_match(
                lo,
                opener_id,
                closer_id,
                opener_num_bytes as int,
                closer_num_bytes as int,
            ));
        }
        r
    }

    /// Turn the delimiter runs at or past `stack_bottom` into emphasis and
    /// its relatives.  Closers are taken from the bottom of that part of the
    /// stack up; each is paired with the nearest opener below it that
    /// matches, and `insert_emph` makes the node.  With smart punctuation,
    /// a quote closer becomes a closing curly quote, and the quote it pairs
    /// with an opening one.  `openers_bottom` remembers, for each kind of
    /// closer, how far down a search has already failed, so that no search
    /// covers the same ground twice.  Everything at or past `stack_bottom`
    /// is off the stack at the end; no node apart from the siblings of the
    /// runs is touched.
    #[verifier::spinoff_prover]
    #[verifier::rlimit(100)]
    pub fn process_emphasis(&mut self, arena: &mut Arena<Ast>, options: &Options, stack_bottom: usize)
        requires
            old(self).wf(),
            old(arena).wf(),
            emph_ready(*old(self), *old(arena), *options, stack_bottom),
            old(arena).nodes().len() + texts(old(self).live(), old(self).entries(), old(arena).nodes())
                < usize::MAX,
        ensures
            final(self).wf(),
            final(arena).wf(),
            final(self).live() == old(self).live().filter(
                |i: usize| old(self).entries()[i as int].position < stack_bottom,
            ),
            final(self).entries().len() == old(self).entries().len(),
            forall|j: int|
                0 <= j < old(self).entries().len() ==> same_record(
                    #[trigger] final(self).entries()[j],
                    old(self).entries()[j],
                ),
            final(arena).nodes().len() >= old(arena).nodes().len(),
            forall|j: int|
                0 <= j < old(arena).nodes().len() && apart(*old(self), *old(arena), stack_bottom, j)
                    ==> (#[trigger] final(arena).nodes()[j]).parent_link() == old(arena).nodes()[j].parent_link()
                    && final(arena).places()[j] == old(arena).places()[j]
                    && final(arena).nodes()[j].value() == old(arena).nodes()[j].value(),
            exists|t: Seq<EmphState>|
                #[trigger] emph_run(t, *old(self), *old(arena), *options, stack_bottom) && *final(arena)
                    == t.last().arena && final(self).live() == t.last().stack.live().filter(
                    |i: usize| old(self).entries()[i as int].position < stack_bottom,
                ),
    {
        let ghost lo0 = self.live@;
        let ghost d0 = self.delimiters@;
        let ghost n0 = arena.nodes();
        let ghost q0 = arena.places();
        let ghost s0 = *self;
        let ghost a0 = *arena;
        let mut openers_bottom: [usize; 12] = [stack_bottom; 12];
        let mut candidate = self.last_delimiter;
        let mut closer: Option<usize> = None;
        let ghost mut kk: int = lo0.len() as int;
        proof {
            reveal(DelimiterStack::wf);
        }
        while candidate.is_some()
            invariant
                self.wf(),
                *self == s0,
                lo0 == self.live(),
                d0 == self.entries(),
                0 <= kk <= lo0.len(),
                candidate == (if kk == 0 {
                    None::<usize>
                } else {
                    Some(lo0[kk - 1])
                }),
                closer == (if kk == lo0.len() {
                    None::<usize>
                } else {
                    Some(lo0[kk])
                }),
                forall|k: int| kk <= k < lo0.len() ==> #[trigger] d0[lo0[k] as int].position >= stack_bottom,
            ensures
                kk > 0 ==> d0[lo0[kk - 1] as int].position < stack_bottom,
            decreases kk,
        {
            proof {
                reveal(DelimiterStack::wf);
            }
            let ci = candidate.unwrap();
            if self.delimiters[ci].position < stack_bottom {
                break ;
            }
            closer = candidate;
            candidate = self.delimiters[ci].prev;
            proof {
                kk = kk - 1;
            }
        }
        let ghost kb = kk;
        let ghost p: Option<Id> = if kb < lo0.len() {
            n0[d0[lo0[kb] as int].inl.0 as int].parent_link()
        } else {
            Some(Id(0))
        };
        proof {
            self.lemma_ready_start(*arena, *options, stack_bottom, kb, p);
            lemma_texts_suffix(lo0, kb, d0, n0);
        }
        proof {
            reveal(loop_inv);
            self.lemma_first_closer(kb, stack_bottom, closer);
            assert(openers_bottom@ =~= Seq::new(12, |i: int| stack_bottom));
        }
        let ghost mut trace: Seq<EmphState> = seq![
            EmphState { stack: *self, arena: *arena, closer, bottoms: openers_bottom@ },
        ];
        while closer.is_some()
            invariant
                loop_inv(*self, *arena, *options, stack_bottom, kb, p, closer, lo0, d0, n0, q0),
                forall|i: int| 0 <= i < 12 ==> #[trigger] openers_bottom[i] >= stack_bottom,
                lo0 == s0.live(),
                d0 == s0.entries(),
                n0 == a0.nodes(),
                q0 == a0.places(),
                0 <= kb <= lo0.len(),
                forall|k: int| kb <= k < lo0.len() ==> #[trigger] d0[lo0[k] as int].position >= stack_bottom,
                kb < lo0.len() ==> p == n0[d0[lo0[kb] as int].inl.0 as int].parent_link(),
                kb == lo0.len() ==> closer is None && *arena == a0 && *self == s0,
                trace.len() >= 1,
                trace[0] == (EmphState {
                    stack: s0,
                    arena: a0,
                    closer: first_closer(s0, stack_bottom),
                    bottoms: Seq::new(12, |i: int| stack_bottom),
                }),
                forall|i: int| 0 <= i < trace.len() - 1 ==> emph_step(#[trigger] trace[i], trace[i + 1], *options),
                trace.last() == (EmphState { stack: *self, arena: *arena, closer, bottoms: openers_bottom@ }),
                forall|i: int|
                    0 <= i < trace.len() - 1 ==> (#[trigger] trace[i]).stack.wf() && trace[i].arena.wf() && (
                    trace[i].closer matches Some(c) ==> trace[i].stack.live().contains(c)),
            decreases closer_rank(*self, closer), closer_len(*self, *arena, closer),
        {
            let ghost x = trace.last();
            let ci = closer.unwrap();
            proof {
                self.lemma_loop_facts(*arena, *options, stack_bottom, kb, p, ci, lo0, d0, n0, q0);
            }
            let c = self.delimiters[ci];
            if c.can_close {
                let ix = delim_slot(c.delim_byte, c.can_open, c.length);
                let (opener, opener_found, mod_three_rule_invoked) = self.find_opener(
                    ci,
                    openers_bottom[ix],
                );
                if emph_delim(options, c.delim_byte) {
                    closer = self.step_emph(
                        arena,
                        options,
                        ci,
                        opener,
                        opener_found,
                        Ghost(stack_bottom),
                        Ghost(kb),
                        Ghost(p),
                        Ghost(lo0),
                        Ghost(d0),
                        Ghost(n0),
                        Ghost(q0),
                    );
                } else if c.delim_byte == 39u8 || c.delim_byte == 34u8 {
                    closer = self.step_quote(
                        arena,
                        ci,
                        opener,
                        opener_found,
                        Ghost(*options),
                        Ghost(stack_bottom),
                        Ghost(kb),
                        Ghost(p),
                        Ghost(lo0),
                        Ghost(d0),
                        Ghost(n0),
                        Ghost(q0),
                    );
                }
                let ghost z = EmphState { stack: *self, arena: *arena, closer, bottoms: openers_bottom@ };
                if !opener_found {
                    if !mod_three_rule_invoked {
                        openers_bottom[ix] = c.position;
                    }
                    if !c.can_open {
                        self.drop_unmatched(
                            ci,
                            Ghost(closer),
                            Ghost(*arena),
                            Ghost(*options),
                            Ghost(stack_bottom),
                            Ghost(kb),
                            Ghost(p),
                            Ghost(lo0),
                            Ghost(d0),
                            Ghost(n0),
                            Ghost(q0),
                        );
                    }
                }
                proof {
                    let y = EmphState { stack: *self, arena: *arena, closer, bottoms: openers_bottom@ };
                    assert(step_via(x, y, z, *options));
                    trace = trace.push(y);
                }
            } else {
                closer = c.next;
                proof {
                    self.lemma_step_up(*arena, *options, stack_bottom, kb, p, ci, lo0, d0, n0, q0);
                    let y = EmphState { stack: *self, arena: *arena, closer, bottoms: openers_bottom@ };
                    assert(step_via(x, y, y, *options));
                    trace = trace.push(y);
                }
            }
        }
        let ghost s_end = *self;
        let ghost a_end = *arena;
        proof {
            self.lemma_loop_end(*arena, *options, stack_bottom, kb, p, lo0, d0, n0, q0);
        }
        self.remove_delimiters(stack_bottom);
        proof {
            let below_old = |i: usize| d0[i as int].position < stack_bottom;
            let below_end = |i: usize| s_end.entries()[i as int].position < stack_bottom;
            lemma_cut_at(s_end.live(), kb, below_end);
            lemma_cut_at(lo0, kb, below_old);
            assert(self.entries().len() == d0.len());
            assert forall|j: int| 0 <= j < d0.len() implies same_record(#[trigger] self.entries()[j], d0[j]) by {
                assert(same_record(self.entries()[j], s_end.entries()[j]));
            }
            assert forall|j: int|
                0 <= j < n0.len() && apart(s0, a0, stack_bottom, j) implies (#[trigger] arena.nodes()[j]).parent_link()
                    == n0[j].parent_link() && arena.places()[j] == q0[j] && arena.nodes()[j].value()
                    == n0[j].value() by {
                if kb < lo0.len() {
                    assert(d0[lo0[kb] as int].position >= stack_bottom);
                    assert(n0[j].parent_link() != p);
                }
            }
            assert(*arena == trace.last().arena);
            lemma_run_done(trace, s0, a0, *options, stack_bottom);
            assert forall|k: int| 0 <= k < s_end.live().len() implies below_end(#[trigger] s_end.live()[k])
                == below_old(s_end.live()[k]) by {
                s_end.lemma_links(k);
                assert(same_record(s_end.entries()[s_end.live()[k] as int], d0[s_end.live()[k] as int]));
            }
            lemma_cut_at(s_end.live(), kb, below_old);
            assert(self.live() == trace.last().stack.live().filter(below_old));
        }
    }

    /// From the requirement of `process_emphasis` and the index `kb` of the
    /// lowest delimiter at or past `bottom`, the stack from `kb` up is ready
    /// under the parent of that delimiter's run.
    proof fn lemma_ready_start(&self, a: Arena<Ast>, options: Options, bottom: usize, kb: int, p: Option<Id>)
        requires
            self.wf(),
            emph_ready(*self, a, options, bottom),
            0 <= kb <= self.live().len(),
            kb > 0 ==> self.entries()[self.live()[kb - 1] as int].position < bottom,
            forall|k: int| kb <= k < self.live().len() ==> #[trigger] self.entries()[self.live()[k] as int].position >= bottom,
            p == (if kb < self.live().len() {
                a.nodes()[self.entries()[self.live()[kb] as int].inl.0 as int].parent_link()
            } else {
                Some(Id(0))
            }),
        ensures
            forall|k: int| 0 <= k < kb ==> #[trigger] self.entries()[self.live()[k] as int].position < bottom,
            ready(*self, a, options, kb, p, bottom),
            p is Some,
            kb < self.live().len() ==> self.live().index_of(self.live()[kb]) == kb,
    {
        reveal(DelimiterStack::wf);
        assert forall|k: int| 0 <= k < kb implies #[trigger] self.entries()[self.live()[k] as int].position < bottom by {
            if k < kb - 1 {
                assert(self.entries()[self.live()[k] as int].position < self.entries()[self.live()[kb - 1] as int].position);
            }
        }
        assert forall|k: int| kb <= k < self.live().len() implies {
            let x = #[trigger] self.entries()[self.live()[k] as int];
            &&& x.inl.0 < a.nodes().len()
            &&& a.nodes()[x.inl.0 as int].parent_link() == p
            &&& x.length <= isize::MAX
            &&& x.position >= bottom
            &&& if is_emph_delim(x.delim_byte, options) {
                run_node(a.nodes()[x.inl.0 as int].value(), x.delim_byte)
            } else {
                (x.delim_byte == 39 || x.delim_byte == 34) && a.nodes()[x.inl.0 as int].value().value is Text
            }
        } by {
            if k > kb {
                assert(self.entries()[self.live()[kb] as int].position >= bottom);
                assert(a.nodes()[self.entries()[self.live()[kb] as int].inl.0 as int].parent_link() == a.nodes()[self.entries()[self.live()[k] as int].inl.0 as int].parent_link());
            }
        }
        assert forall|k1: int, k2: int| kb <= k1 < k2 < self.live().len() implies a.places()[self.entries()[#[trigger] self.live()[k1] as int].inl.0 as int]
            < a.places()[self.entries()[#[trigger] self.live()[k2] as int].inl.0 as int] by {
            assert(self.entries()[self.live()[k1] as int].position >= bottom);
        }
        assert(ready(*self, a, options, kb, p, bottom));
        if kb < self.live().len() {
            assert(self.entries()[self.live()[kb] as int].position >= bottom);
            assert(p is Some);
            assert(self.live().index_of(self.live()[kb]) == kb);
        }
    }

    /// The closer that the first loop of `process_emphasis` settles on is
    /// the lowest delimiter at or past `bottom`.
    proof fn lemma_first_closer(&self, kb: int, bottom: usize, closer: Option<usize>)
        requires
            self.wf(),
            0 <= kb <= self.live().len(),
            forall|k: int| 0 <= k < kb ==> #[trigger] self.entries()[self.live()[k] as int].position < bottom,
            forall|k: int|
                kb <= k < self.live().len() ==> #[trigger] self.entries()[self.live()[k] as int].position >= bottom,
            closer == (if kb == self.live().len() {
                None::<usize>
            } else {
                Some(self.live()[kb])
            }),
        ensures
            closer == first_closer(*self, bottom),
    {
        let l = self.live();
        let d = self.entries();
        if kb < l.len() {
            assert(d[l[kb] as int].position >= bottom);
            let k = choose|k: int|
                0 <= k < l.len() && #[trigger] d[l[k] as int].position >= bottom && forall|j: int|
                    0 <= j < k ==> d[l[j] as int].position < bottom;
            assert(0 <= kb < l.len() && d[l[kb] as int].position >= bottom && forall|j: int|
                0 <= j < kb ==> d[l[j] as int].position < bottom);
            if k > kb {
                assert(d[l[kb] as int].position < bottom);
            }
            assert(k >= kb);
            assert(k == kb);
        } else {
            assert(!exists|k: int| 0 <= k < l.len() && #[trigger] d[l[k] as int].position >= bottom);
        }
    }

    /// What holds once no closer is left: the stack below `kb` is as it
    /// was and lies before `bottom`, what is above lies at or past it, and
    /// nodes under parents other than `p` are untouched.
    proof fn lemma_loop_end(
        &self,
        a: Arena<Ast>,
        options: Options,
        bottom: usize,
        kb: int,
        p: Option<Id>,
        lo0: Seq<usize>,
        d0: Seq<Delimiter>,
        n0: Seq<crate::arena_tree::Node<Ast>>,
        q0: Seq<nat>,
    )
        requires
            loop_inv(*self, a, options, bottom, kb, p, None, lo0, d0, n0, q0),
        ensures
            self.wf(),
            a.wf(),
            self.entries().len() == d0.len(),
            forall|j: int| 0 <= j < d0.len() ==> same_record(#[trigger] self.entries()[j], d0[j]),
            0 <= kb <= self.live().len(),
            kb <= lo0.len(),
            self.live().subrange(0, kb) == lo0.subrange(0, kb),
            forall|k: int| 0 <= k < kb ==> #[trigger] self.entries()[self.live()[k] as int].position < bottom,
            forall|k: int| kb <= k < self.live().len() ==> #[trigger] self.entries()[self.live()[k] as int].position >= bottom,
            forall|k: int| 0 <= k < kb ==> #[trigger] d0[lo0[k] as int].position < bottom,
            a.nodes().len() >= n0.len(),
            forall|j: int|
                0 <= j < n0.len() && n0[j].parent_link() != p ==> (#[trigger] a.nodes()[j]).parent_link()
                    == n0[j].parent_link() && a.places()[j] == q0[j] && a.nodes()[j].value() == n0[j].value(),
    {
        reveal(loop_inv);
        let l = self.live();
        assert forall|k: int| 0 <= k < kb implies #[trigger] self.entries()[l[k] as int].position < bottom by {
            assert(l[k] == l.subrange(0, kb)[k]);
            assert(lo0[k] == lo0.subrange(0, kb)[k]);
            self.lemma_links(k);
            assert(same_record(self.entries()[l[k] as int], d0[l[k] as int]));
        }
    }

    /// The pass at an emphasis closer `ci`: with an opener found, match
    /// the two; else move on to the delimiter above.
    fn step_emph(
        &mut self,
        arena: &mut Arena<Ast>,
        options: &Options,
        ci: usize,
        opener: Option<usize>,
        found: bool,
        Ghost(bottom): Ghost<usize>,
        Ghost(kb): Ghost<int>,
        Ghost(p): Ghost<Option<Id>>,
        Ghost(lo0): Ghost<Seq<usize>>,
        Ghost(d0): Ghost<Seq<Delimiter>>,
        Ghost(n0): Ghost<Seq<crate::arena_tree::Node<Ast>>>,
        Ghost(q0): Ghost<Seq<nat>>,
    ) -> (r: Option<usize>)
        requires
            loop_inv(*old(self), *old(arena), *options, bottom, kb, p, Some(ci), lo0, d0, n0, q0),
            old(self).live().contains(ci),
            ci < old(self).entries().len(),
            is_emph_delim(old(self).entries()[ci as int].delim_byte, *options),
            found ==> (opener matches Some(o) && old(self).live().contains(o) && old(self).live().index_of(o)
                < old(self).live().index_of(ci) && old(self).entries()[o as int].can_open
                && old(self).entries()[o as int].delim_byte == old(self).entries()[ci as int].delim_byte
                && old(self).entries()[o as int].position >= bottom),
        ensures
            loop_inv(*final(self), *final(arena), *options, bottom, kb, p, r, lo0, d0, n0, q0),
            closer_rank(*final(self), r) < closer_rank(*old(self), Some(ci)) || (closer_rank(*final(self), r)
                == closer_rank(*old(self), Some(ci)) && closer_len(*final(self), *final(arena), r)
                < closer_len(*old(self), *old(arena), Some(ci))),
            !found ==> r == old(self).entries()[ci as int].next && *final(self) == *old(self) && *final(arena)
                == *old(arena),
            found ==> matched(*old(self), *old(arena), *final(self), *final(arena), *options, opener->0, ci, r),
    {
        if found {
            let o = opener.unwrap();
            let ghost sp = *self;
            let ghost ap = *arena;
            let ghost l = self.live@;
            let ghost ko = l.index_of(o);
            let ghost kc = l.index_of(ci);
            proof {
                reveal(loop_inv);
                self.lemma_links(ko);
                self.lemma_links(kc);
                assert(ko >= kb) by {
                    if ko < kb {
                        assert(l[ko] == l.subrange(0, kb)[ko]);
                        assert(lo0[ko] == lo0.subrange(0, kb)[ko]);
                        assert(same_record(self.entries()[l[ko] as int], d0[l[ko] as int]));
                    }
                }
                assert(kc >= kb);
                let xo = self.entries()[l[ko] as int];
                let xc = self.entries()[l[kc] as int];
                assert(arena.places()[xo.inl.0 as int] < arena.places()[xc.inl.0 as int]);
                assert(run_node(arena.nodes()[xo.inl.0 as int].value(), xo.delim_byte));
                assert(run_node(arena.nodes()[xc.inl.0 as int].value(), xc.delim_byte));
                lemma_texts_cons(l, kc, self.entries(), arena.nodes());
                assert(arena.nodes().len() < usize::MAX);
            }
            let r = self.insert_emph(arena, options, o, ci);
            proof {
                reveal(loop_inv);
                if !emph_refused(sp, ap, *options, o, ci) {
                    self.lemma_after_match(sp, ap, *arena, *options, kb, p, bottom, o, ci, lo0, n0, q0);
                    assert(self.entries().len() == d0.len());
                    assert forall|j: int| 0 <= j < d0.len() implies same_record(#[trigger] self.entries()[j], d0[j]) by {
                        assert(same_record(self.entries()[j], sp.entries()[j]));
                        assert(same_record(sp.entries()[j], d0[j]));
                    }
                }
            }
            r
        } else {
            proof {
                self.lemma_step_up(*arena, *options, bottom, kb, p, ci, lo0, d0, n0, q0);
            }
            self.delimiters[ci].next
        }
    }

    /// The pass at a quote closer `ci`: it becomes a closing curly quote;
    /// with an opener found, that becomes an opening one and both leave
    /// the stack.  The closer to look at next is the one above.
    fn step_quote(
        &mut self,
        arena: &mut Arena<Ast>,
        ci: usize,
        opener: Option<usize>,
        found: bool,
        Ghost(options): Ghost<Options>,
        Ghost(bottom): Ghost<usize>,
        Ghost(kb): Ghost<int>,
        Ghost(p): Ghost<Option<Id>>,
        Ghost(lo0): Ghost<Seq<usize>>,
        Ghost(d0): Ghost<Seq<Delimiter>>,
        Ghost(n0): Ghost<Seq<crate::arena_tree::Node<Ast>>>,
        Ghost(q0): Ghost<Seq<nat>>,
    ) -> (r: Option<usize>)
        requires
            loop_inv(*old(self), *old(arena), options, bottom, kb, p, Some(ci), lo0, d0, n0, q0),
            old(self).live().contains(ci),
            ci < old(self).entries().len(),
            !is_emph_delim(old(self).entries()[ci as int].delim_byte, options),
            old(self).entries()[ci as int].delim_byte == 39 || old(self).entries()[ci as int].delim_byte == 34,
            found ==> (opener matches Some(o) && old(self).live().contains(o) && old(self).live().index_of(o)
                < old(self).live().index_of(ci) && old(self).entries()[o as int].delim_byte
                == old(self).entries()[ci as int].delim_byte && old(self).entries()[o as int].position
                >= bottom),
        ensures
            loop_inv(*final(self), *final(arena), options, bottom, kb, p, r, lo0, d0, n0, q0),
            closer_rank(*final(self), r) < closer_rank(*old(self), Some(ci)),
            r == old(self).entries()[ci as int].next,
            !found ==> *final(self) == *old(self),
            quoted(*old(self), *old(arena), *final(self), *final(arena), ci, opener, found, r),
    {
        let ghost sp = *self;
        let ghost ap = *arena;
        let ghost l = self.live@;
        let ghost kc = l.index_of(ci);
        proof {
            reveal(loop_inv);
            self.lemma_links(kc);
            assert(l[kc] == ci);
            lemma_texts_cons(l, kc, self.entries(), arena.nodes());
            lemma_ready_after_quote_text(sp, ap, options, kb, p, bottom, kc);
            if kc + 1 < l.len() {
                assert(l.index_of(l[kc + 1]) == kc + 1) by {
                    self.lemma_links(kc + 1);
                }
            }
        }
        let c = self.delimiters[ci];
        set_text(arena, c.inl, (if c.delim_byte == 39u8 {
            "’"
        } else {
            "”"
        }).to_owned());
        let ghost a2 = *arena;
        proof {
            lemma_ready_after_quote(sp, ap, a2, options, kb, p, bottom, kc);
            assert(ap.nodes()[c.inl.0 as int].value().value is Text);
            assert(text_set(ap, a2, c.inl, closing_quote(c.delim_byte)));
        }
        let closer = c.next;
        let ghost rest = l.subrange(kc + 1, l.len() as int);
        if found {
            let o = opener.unwrap();
            let ghost ko = l.index_of(o);
            proof {
                reveal(loop_inv);
                self.lemma_links(ko);
                assert(ko >= kb) by {
                    if ko < kb {
                        assert(l[ko] == l.subrange(0, kb)[ko]);
                        assert(lo0[ko] == lo0.subrange(0, kb)[ko]);
                        assert(same_record(self.entries()[l[ko] as int], d0[l[ko] as int]));
                    }
                }
                lemma_ready_after_quote_text(sp, ap, options, kb, p, bottom, ko);
                lemma_ready_after_quote_text(sp, a2, options, kb, p, bottom, ko);
            }
            let oinl = self.delimiters[o].inl;
            set_text(arena, oinl, (if c.delim_byte == 39u8 {
                "‘"
            } else {
                "“"
            }).to_owned());
            let ghost a3 = *arena;
            proof {
                assert(a2.nodes()[oinl.0 as int].value().value is Text);
                assert(text_set(a2, a3, oinl, opening_quote(c.delim_byte)));
                lemma_ready_after_quote(sp, a2, a3, options, kb, p, bottom, ko);
                assert forall|k: int| 0 <= k < l.len() implies #[trigger] l[k] < sp.entries().len() by {
                    sp.lemma_links(k);
                }
            }
            self.remove_delimiter(o);
            let ghost s3 = *self;
            let ghost l3 = self.live@;
            proof {
                lemma_ready_after_remove(sp, s3, a3, options, kb, p, bottom, o);
                assert(l3 =~= l.remove(ko));
                assert(l3[kc - 1] == ci);
                assert(l3.index_of(ci) == kc - 1) by {
                    self.lemma_links(kc - 1);
                }
                assert forall|k: int| 0 <= k < l3.len() implies #[trigger] l3[k] < s3.entries().len() by {
                    self.lemma_links(k);
                }
            }
            self.remove_delimiter(ci);
            proof {
                reveal(loop_inv);
                let l4 = self.live@;
                assert(l4 == l.remove(l.index_of(o)).remove(l.remove(l.index_of(o)).index_of(ci)));
                assert(forall|j: int|
                    0 <= j < sp.entries().len() ==> same_record(#[trigger] self.entries()[j], sp.entries()[j])) by {
                    assert forall|j: int| 0 <= j < sp.entries().len() implies same_record(
                        #[trigger] self.entries()[j],
                        sp.entries()[j],
                    ) by {
                        assert(same_record(self.entries()[j], s3.entries()[j]));
                        assert(same_record(s3.entries()[j], sp.entries()[j]));
                    }
                }
                assert(text_set(ap, a2, c.inl, closing_quote(c.delim_byte)));
                lemma_ready_after_remove(s3, *self, a3, options, kb, p, bottom, ci);
                assert(l4 =~= l3.remove(kc - 1));
                assert(l4.subrange(0, kb) =~= l.subrange(0, kb));
                assert forall|j: int| 0 <= j < d0.len() implies same_record(#[trigger] self.entries()[j], d0[j]) by {
                    assert(same_record(self.entries()[j], s3.entries()[j]));
                    assert(same_record(s3.entries()[j], sp.entries()[j]));
                }
                if kc + 1 < l.len() {
                    assert(l4[kc - 1] == l[kc + 1]);
                    assert(l4.index_of(l[kc + 1]) == kc - 1) by {
                        self.lemma_links(kc - 1);
                    }
                    assert(l4.subrange(kc - 1, l4.len() as int) =~= rest);
                    assert forall|i: int| 0 <= i < rest.len() implies self.entries()[#[trigger] rest[i] as int].inl
                        == sp.entries()[rest[i] as int].inl && text_of(a3.nodes()[sp.entries()[rest[i] as int].inl.0 as int].value())
                        == text_of(ap.nodes()[sp.entries()[rest[i] as int].inl.0 as int].value()) by {
                        assert(rest[i] == l[kc + 1 + i]);
                        sp.lemma_links(kc + 1 + i);
                        assert(same_record(self.entries()[rest[i] as int], sp.entries()[rest[i] as int]));
                    }
                    lemma_texts_same(rest, sp.entries(), ap.nodes(), self.entries(), a3.nodes());
                }
                assert forall|j: int|
                    0 <= j < n0.len() && n0[j].parent_link() != p implies (#[trigger] a3.nodes()[j]).parent_link()
                        == n0[j].parent_link() && a3.places()[j] == q0[j] && a3.nodes()[j].value()
                        == n0[j].value() by {
                    assert(ap.nodes()[j].parent_link() == n0[j].parent_link());
                }
            }
        } else {
            proof {
                reveal(loop_inv);
                if kc + 1 < l.len() {
                    assert forall|i: int| 0 <= i < rest.len() implies self.entries()[#[trigger] rest[i] as int].inl
                        == sp.entries()[rest[i] as int].inl && text_of(a2.nodes()[sp.entries()[rest[i] as int].inl.0 as int].value())
                        == text_of(ap.nodes()[sp.entries()[rest[i] as int].inl.0 as int].value()) by {
                        assert(rest[i] == l[kc + 1 + i]);
                        sp.lemma_links(kc + 1 + i);
                    }
                    lemma_texts_same(rest, sp.entries(), ap.nodes(), self.entries(), a2.nodes());
                    assert(l.subrange(kc + 1, l.len() as int) =~= rest);
                }
                assert forall|j: int|
                    0 <= j < n0.len() && n0[j].parent_link() != p implies (#[trigger] a2.nodes()[j]).parent_link()
                        == n0[j].parent_link() && a2.places()[j] == q0[j] && a2.nodes()[j].value()
                        == n0[j].value() by {
                    assert(ap.nodes()[j].parent_link() == n0[j].parent_link());
                }
            }
        }
        closer
    }

    /// Take the closer `ci`, which found no opener and cannot open, off
    /// the stack; the closer to look at next is the one above it.
    fn drop_unmatched(
        &mut self,
        ci: usize,
        Ghost(closer): Ghost<Option<usize>>,
        Ghost(a): Ghost<Arena<Ast>>,
        Ghost(options): Ghost<Options>,
        Ghost(bottom): Ghost<usize>,
        Ghost(kb): Ghost<int>,
        Ghost(p): Ghost<Option<Id>>,
        Ghost(lo0): Ghost<Seq<usize>>,
        Ghost(d0): Ghost<Seq<Delimiter>>,
        Ghost(n0): Ghost<Seq<crate::arena_tree::Node<Ast>>>,
        Ghost(q0): Ghost<Seq<nat>>,
    )
        requires
            loop_inv(*old(self), a, options, bottom, kb, p, closer, lo0, d0, n0, q0),
            old(self).live().contains(ci),
            old(self).live().index_of(ci) >= kb,
            ci < old(self).entries().len(),
            closer == old(self).entries()[ci as int].next,
        ensures
            loop_inv(*final(self), a, options, bottom, kb, p, closer, lo0, d0, n0, q0),
            closer_rank(*final(self), closer) == closer_rank(*old(self), closer),
            closer_len(*final(self), a, closer) == closer_len(*old(self), a, closer),
            stack_removed(*old(self), *final(self), ci),
            final(self).live() == old(self).live().remove(old(self).live().index_of(ci)),
            final(self).entries().len() == old(self).entries().len(),
            forall|j: int|
                0 <= j < old(self).entries().len() ==> same_record(
                    #[trigger] final(self).entries()[j],
                    old(self).entries()[j],
                ),
    {
        let ghost sp = *self;
        let ghost l = self.live@;
        let ghost kc = l.index_of(ci);
        proof {
            reveal(loop_inv);
            self.lemma_links(kc);
            assert(l[kc] == ci);
            assert forall|k: int| 0 <= k < l.len() implies #[trigger] l[k] < sp.entries().len() by {
                sp.lemma_links(k);
            }
            if kc + 1 < l.len() {
                assert(l.index_of(l[kc + 1]) == kc + 1) by {
                    sp.lemma_links(kc + 1);
                }
            }
        }
        self.remove_delimiter(ci);
        proof {
            reveal(loop_inv);
            let l1 = self.live@;
            lemma_ready_after_remove(sp, *self, a, options, kb, p, bottom, ci);
            assert(l1 =~= l.remove(kc));
            assert(l1.subrange(0, kb) =~= l.subrange(0, kb));
            assert forall|j: int| 0 <= j < d0.len() implies same_record(#[trigger] self.entries()[j], d0[j]) by {
                assert(same_record(self.entries()[j], sp.entries()[j]));
            }
            if kc + 1 < l.len() {
                assert(l1[kc] == l[kc + 1]);
                assert(l1.index_of(l[kc + 1]) == kc) by {
                    self.lemma_links(kc);
                }
                let rest = l.subrange(kc + 1, l.len() as int);
                assert(l1.subrange(kc, l1.len() as int) =~= rest);
                assert forall|i: int| 0 <= i < rest.len() implies self.entries()[#[trigger] rest[i] as int].inl
                    == sp.entries()[rest[i] as int].inl && text_of(a.nodes()[sp.entries()[rest[i] as int].inl.0 as int].value())
                    == text_of(a.nodes()[sp.entries()[rest[i] as int].inl.0 as int].value()) by {
                    assert(rest[i] == l[kc + 1 + i]);
                    sp.lemma_links(kc + 1 + i);
                    assert(same_record(self.entries()[rest[i] as int], sp.entries()[rest[i] as int]));
                }
                lemma_texts_same(rest, sp.entries(), a.nodes(), self.entries(), a.nodes());
                assert(same_record(self.entries()[l[kc + 1] as int], sp.entries()[l[kc + 1] as int]));
            }
        }
    }

    /// What the pass may rely on about the closer `ci` it looks at.
    proof fn lemma_loop_facts(
        &self,
        a: Arena<Ast>,
        options: Options,
        bottom: usize,
        kb: int,
        p: Option<Id>,
        ci: usize,
        lo0: Seq<usize>,
        d0: Seq<Delimiter>,
        n0: Seq<crate::arena_tree::Node<Ast>>,
        q0: Seq<nat>,
    )
        requires
            loop_inv(*self, a, options, bottom, kb, p, Some(ci), lo0, d0, n0, q0),
        ensures
            self.wf(),
            a.wf(),
            self.live().contains(ci),
            kb <= self.live().index_of(ci),
            ci < self.entries().len(),
            self.entries()[ci as int].length <= isize::MAX,
            self.entries()[ci as int].position >= bottom,
            is_emph_delim(self.entries()[ci as int].delim_byte, options) || self.entries()[ci as int].delim_byte
                == 39 || self.entries()[ci as int].delim_byte == 34,
            forall|k: int|
                0 <= k < self.live().len() && (#[trigger] self.entries()[self.live()[k] as int]).position
                    >= bottom ==> self.entries()[self.live()[k] as int].length <= isize::MAX,
    {
        reveal(loop_inv);
        let l = self.live();
        let kc = l.index_of(ci);
        self.lemma_links(kc);
        assert(l[kc] == ci);
        assert forall|k: int|
            0 <= k < l.len() && (#[trigger] self.entries()[l[k] as int]).position >= bottom implies self.entries()[l[k] as int].length
            <= isize::MAX by {
            if k < kb {
                assert(l[k] == l.subrange(0, kb)[k]);
                assert(lo0[k] == lo0.subrange(0, kb)[k]);
                self.lemma_links(k);
                assert(same_record(self.entries()[l[k] as int], d0[l[k] as int]));
            }
        }
    }

    /// Moving on to the delimiter above the closer keeps the bookkeeping,
    /// with fewer delimiters left above.
    proof fn lemma_step_up(
        &self,
        a: Arena<Ast>,
        options: Options,
        bottom: usize,
        kb: int,
        p: Option<Id>,
        ci: usize,
        lo0: Seq<usize>,
        d0: Seq<Delimiter>,
        n0: Seq<crate::arena_tree::Node<Ast>>,
        q0: Seq<nat>,
    )
        requires
            loop_inv(*self, a, options, bottom, kb, p, Some(ci), lo0, d0, n0, q0),
        ensures
            ci < self.entries().len(),
            loop_inv(*self, a, options, bottom, kb, p, self.entries()[ci as int].next, lo0, d0, n0, q0),
            closer_rank(*self, self.entries()[ci as int].next) < closer_rank(*self, Some(ci)),
    {
        reveal(loop_inv);
        let l = self.live();
        let kc = l.index_of(ci);
        self.lemma_links(kc);
        assert(l[kc] == ci);
        lemma_texts_cons(l, kc, self.entries(), a.nodes());
        if kc + 1 < l.len() {
            assert(l.index_of(l[kc + 1]) == kc + 1) by {
                self.lemma_links(kc + 1);
            }
        }
    }

    /// After a match made by `process_emphasis`, the loop's bookkeeping
    /// still holds: the stack is ready, what lies below `kb` is untouched,
    /// the closer to look at next is on the stack, and the budget of nodes
    /// still covers what may follow.
    proof fn lemma_after_match(
        &self,
        sp: DelimiterStack,
        ap: Arena<Ast>,
        a1: Arena<Ast>,
        options: Options,
        kb: int,
        p: Option<Id>,
        bottom: usize,
        o: usize,
        ci: usize,
        lo0: Seq<usize>,
        n0: Seq<crate::arena_tree::Node<Ast>>,
        q0: Seq<nat>,
    )
        requires
            sp.wf(),
            ap.wf(),
            self.wf(),
            a1.wf(),
            ready(sp, ap, options, kb, p, bottom),
            p is Some,
            sp.live().contains(o),
            sp.live().contains(ci),
            kb <= sp.live().index_of(o) < sp.live().index_of(ci),
            sp.entries()[o as int].delim_byte == sp.entries()[ci as int].delim_byte,
            is_emph_delim(sp.entries()[ci as int].delim_byte, options),
            !emph_refused(sp, ap, options, o, ci),
            self.entries().len() == sp.entries().len(),
            forall|j: int|
                0 <= j < sp.entries().len() ==> same_record(#[trigger] self.entries()[j], sp.entries()[j]),
            self.live() == stack_after_match(
                sp.live(),
                o,
                ci,
                left_of(sp, ap, o, o, ci),
                left_of(sp, ap, ci, o, ci),
            ),
            tree_after_match(
                ap,
                a1,
                options,
                sp.entries()[o as int].inl.0 as int,
                sp.entries()[ci as int].inl.0 as int,
                sp.entries()[o as int].delim_byte,
                used(sp, ap, o, ci),
                left_of(sp, ap, o, o, ci),
                left_of(sp, ap, ci, o, ci),
            ),
            sp.live().subrange(0, kb) == lo0.subrange(0, kb),
            ap.nodes().len() >= n0.len(),
            forall|j: int|
                0 <= j < n0.len() && n0[j].parent_link() != p ==> (#[trigger] ap.nodes()[j]).parent_link()
                    == n0[j].parent_link() && ap.places()[j] == q0[j] && ap.nodes()[j].value() == n0[j].value(),
            ap.nodes().len() + closer_budget(sp, ap, Some(ci)) < usize::MAX,
        ensures
            ready(*self, a1, options, kb, p, bottom),
            self.live().subrange(0, kb) == lo0.subrange(0, kb),
            a1.nodes().len() >= n0.len(),
            forall|j: int|
                0 <= j < n0.len() && n0[j].parent_link() != p ==> (#[trigger] a1.nodes()[j]).parent_link()
                    == n0[j].parent_link() && a1.places()[j] == q0[j] && a1.nodes()[j].value() == n0[j].value(),
            ({
                let r = next_closer(sp.live(), ci, left_of(sp, ap, ci, o, ci));
                &&& r matches Some(c) ==> self.live().contains(c) && self.live().index_of(c) >= kb
                &&& a1.nodes().len() + closer_budget(*self, a1, r) < usize::MAX
                &&& closer_rank(*self, r) < closer_rank(sp, Some(ci)) || (closer_rank(*self, r)
                    == closer_rank(sp, Some(ci)) && closer_len(*self, a1, r) < closer_len(sp, ap, Some(ci)))
            }),
    {
        let lo = sp.live();
        let l1 = self.live();
        let ko = lo.index_of(o);
        let kc = lo.index_of(ci);
        let on = left_of(sp, ap, o, o, ci);
        let cn = left_of(sp, ap, ci, o, ci);
        let aa: int = if on > 0 {
            1
        } else {
            0
        };
        let bb: int = if cn > 0 {
            1
        } else {
            0
        };
        let n = ap.nodes();
        let d = sp.entries();
        let oi = d[o as int].inl.0 as int;
        let cix = d[ci as int].inl.0 as int;
        assert(lo[ko] == o);
        assert(lo[kc] == ci);
        sp.lemma_links(ko);
        sp.lemma_links(kc);
        lemma_ready_after_match(sp, ap, *self, a1, options, kb, p, bottom, o, ci);
        let mid: Seq<usize> = (if on > 0 {
            seq![o]
        } else {
            seq![]
        }) + (if cn > 0 {
            seq![ci]
        } else {
            seq![]
        });
        assert(l1 =~= lo.subrange(0, ko) + mid + lo.subrange(kc + 1, lo.len() as int));
        assert(l1.subrange(0, kb) =~= lo.subrange(0, kb));
        let k1 = ko + aa;
        let rest = lo.subrange(kc + 1, lo.len() as int);
        assert(l1.subrange(k1 + bb, l1.len() as int) =~= rest);
        // the runs above the closer keep their text
        assert forall|i: int| 0 <= i < rest.len() implies self.entries()[#[trigger] rest[i] as int].inl
            == d[rest[i] as int].inl && text_of(a1.nodes()[d[rest[i] as int].inl.0 as int].value())
            == text_of(n[d[rest[i] as int].inl.0 as int].value()) by {
            assert(rest[i] == lo[kc + 1 + i]);
            sp.lemma_links(kc + 1 + i);
            assert(same_record(self.entries()[rest[i] as int], d[rest[i] as int]));
            let j = d[lo[kc + 1 + i] as int].inl.0 as int;
            assert(ap.places()[d[lo[kc] as int].inl.0 as int] < ap.places()[d[lo[kc + 1 + i] as int].inl.0 as int]);
            assert(ap.places()[d[lo[ko] as int].inl.0 as int] < ap.places()[d[lo[kc] as int].inl.0 as int]);
            assert(j != oi && j != cix);
            assert(a1.nodes()[j].value() == n[j].value());
        }
        lemma_texts_same(rest, d, n, self.entries(), a1.nodes());
        lemma_texts_cons(lo, kc, d, n);
        if cn > 0 {
            self.lemma_links(k1);
            assert(l1[k1] == ci);
            assert(l1.index_of(ci) == k1);
            lemma_texts_cons(l1, k1, self.entries(), a1.nodes());
            assert(same_record(self.entries()[ci as int], d[ci as int]));
        } else if kc + 1 < lo.len() {
            self.lemma_links(k1);
            assert(l1[k1] == lo[kc + 1]);
            assert(l1.index_of(lo[kc + 1]) == k1);
        }
    }

    /// Search down the stack from the closer `ci`, no lower than position
    /// `floor`, for an opener of the same byte that can open and is no odd
    /// match.  Returns where the search stopped, whether it found one, and
    /// whether the rule of three turned one down on the way.
    fn find_opener(&self, ci: usize, floor: usize) -> (r: (Option<usize>, bool, bool))
        requires
            self.wf(),
            self.live().contains(ci),
            self.entries()[ci as int].length <= isize::MAX,
            forall|k: int|
                0 <= k < self.live().len() && (#[trigger] self.entries()[self.live()[k] as int]).position
                    >= floor ==> self.entries()[self.live()[k] as int].length <= isize::MAX,
        ensures
            r.1 ==> (r.0 matches Some(o) && self.live().contains(o) && self.live().index_of(o)
                < self.live().index_of(ci) && self.entries()[o as int].can_open
                && self.entries()[o as int].delim_byte == self.entries()[ci as int].delim_byte
                && self.entries()[o as int].position >= floor && !odd_match(
                self.entries()[o as int],
                self.entries()[ci as int],
            )),
            r == opener_search(
                self.entries(),
                self.live(),
                self.entries()[ci as int],
                floor,
                self.live().index_of(ci) - 1,
                false,
            ),
    {
        let ghost l = self.live@;
        let ghost kc = l.index_of(ci);
        proof {
            self.lemma_links(kc);
        }
        let c = self.delimiters[ci];
        let mut opener = c.prev;
        let mut opener_found = false;
        let mut mod_three_rule_invoked = false;
        let ghost mut ko: int = kc - 1;
        proof {
            assert forall|k: int| 0 <= k < l.len() implies #[trigger] l[k] < self.entries().len() by {
                self.lemma_links(k);
            }
        }
        while opener.is_some() && self.delimiters[opener.unwrap()].position >= floor
            invariant_except_break
                !opener_found,
            invariant
                opener_search(self.entries(), l, c, floor, ko, mod_three_rule_invoked) == opener_search(
                    self.entries(),
                    l,
                    c,
                    floor,
                    kc - 1,
                    false,
                ),
                self.wf(),
                l == self.live(),
                l.contains(ci),
                kc == l.index_of(ci),
                c == self.entries()[ci as int],
                c.length <= isize::MAX,
                forall|k: int|
                    0 <= k < l.len() && (#[trigger] self.entries()[l[k] as int]).position >= floor
                        ==> self.entries()[l[k] as int].length <= isize::MAX,
                -1 <= ko < kc,
                forall|k: int| 0 <= k < l.len() ==> #[trigger] l[k] < self.entries().len(),
                opener == (if ko >= 0 {
                    Some(l[ko])
                } else {
                    None::<usize>
                }),
            ensures
                (opener, opener_found, mod_three_rule_invoked) == opener_search(
                    self.entries(),
                    l,
                    c,
                    floor,
                    kc - 1,
                    false,
                ),
                opener_found ==> (opener matches Some(o) && l.contains(o) && l.index_of(o) < kc
                    && self.entries()[o as int].can_open && self.entries()[o as int].delim_byte
                    == c.delim_byte && self.entries()[o as int].position >= floor && !odd_match(
                    self.entries()[o as int],
                    c,
                )),
            decreases ko + 1,
        {
            let oi = opener.unwrap();
            proof {
                self.lemma_links(ko);
                assert(l.index_of(oi) == ko) by {
                    assert(l[ko] == oi);
                }
            }
            let o = self.delimiters[oi];
            proof {
                assert(self.entries()[l[ko] as int].position >= floor);
            }
            if o.can_open && o.delim_byte == c.delim_byte {
                let odd_match = (c.can_open || o.can_close) && ((o.length + c.length) % 3 == 0) && !(
                o.length % 3 == 0 && c.length % 3 == 0);
                if !odd_match {
                    opener_found = true;
                    break ;
                } else {
                    mod_three_rule_invoked = true;
                }
            }
            opener = o.prev;
            proof {
                ko = ko - 1;
            }
        }
        (opener, opener_found, mod_three_rule_invoked)
    }

    /// Take off the stack the delimiters strictly between `opener_id` and
    /// `closer_id`, walking down from the closer.
    fn unlink_between(&mut self, opener_id: usize, closer_id: usize)
        requires
            old(self).wf(),
            old(self).live().contains(opener_id),
            old(self).live().contains(closer_id),
            old(self).live().index_of(opener_id) < old(self).live().index_of(closer_id),
        ensures
            final(self).wf(),
            final(self).entries().len() == old(self).entries().len(),
            forall|j: int|
                0 <= j < old(self).entries().len() ==> same_record(
                    #[trigger] final(self).entries()[j],
                    old(self).entries()[j],
                ),
            final(self).live() == old(self).live().subrange(
                0,
                old(self).live().index_of(opener_id) + 1,
            ) + old(self).live().subrange(
                old(self).live().index_of(closer_id),
                old(self).live().len() as int,
            ),
    {
        let ghost lo = self.live@;
        let ghost od = self.delimiters@;
        let ghost ko = lo.index_of(opener_id);
        let ghost kc = lo.index_of(closer_id);
        proof {
            self.lemma_links(kc);
            assert(lo[kc] == closer_id);
            assert(lo[ko] == opener_id);
            assert(od[lo[kc] as int].prev == Some(lo[kc - 1]));
        }
        let mut prev_id = self.delimiters[closer_id].prev;
        let ghost mut kp: int = kc - 1;
        proof {
            assert(lo =~= lo.subrange(0, kp + 1) + lo.subrange(kc, lo.len() as int));
        }
        while prev_id.is_some() && prev_id.unwrap() != opener_id
            invariant
                self.wf(),
                lo.no_duplicates(),
                0 <= ko <= kp < kc < lo.len(),
                lo[ko] == opener_id,
                prev_id == Some(lo[kp]),
                self.live() == lo.subrange(0, kp + 1) + lo.subrange(kc, lo.len() as int),
                self.entries().len() == od.len(),
                forall|j: int|
                    0 <= j < od.len() ==> same_record(#[trigger] self.entries()[j], od[j]),
            decreases kp,
        {
            let p = prev_id.unwrap();
            let ghost l = self.live@;
            proof {
                self.lemma_links(kp);
                assert(l[kp] == lo[kp]);
                assert(l.index_of(p) == kp) by {
                    assert(l[kp] == p);
                }
                assert(kp != ko);
                assert(self.delimiters@[p as int].prev == Some(l[kp - 1]));
            }
            self.remove_delimiter(p);
            prev_id = self.delimiters[p].prev;
            proof {
                assert(l.remove(kp) =~= lo.subrange(0, kp) + lo.subrange(kc, lo.len() as int));
                kp = kp - 1;
            }
        }
        proof {
            assert(lo[kp] == opener_id);
            assert(kp == ko);
        }
    }

    /// Take off the stack every delimiter at or past `stack_bottom`: those
    /// at the top, as positions rise from the bottom up.
    #[verifier::spinoff_prover]
    pub fn remove_delimiters(&mut self, stack_bottom: usize)
        requires
            old(self).wf(),
        ensures
            final(self).wf(),
            final(self).live() == old(self).live().filter(
                |i: usize| old(self).entries()[i as int].position < stack_bottom,
            ),
            final(self).entries().len() == old(self).entries().len(),
            forall|j: int|
                0 <= j < old(self).entries().len() ==> same_record(
                    #[trigger] final(self).entries()[j],
                    old(self).entries()[j],
                ),
    {
        reveal(DelimiterStack::wf);
        let ghost od = self.delimiters@;
        let ghost ol = self.live@;
        let ghost below = |i: usize| od[i as int].position < stack_bottom;
        loop
            invariant
                self.wf(),
                self.entries().len() == od.len(),
                forall|j: int|
                    0 <= j < od.len() ==> same_record(#[trigger] self.entries()[j], od[j]),
                ol.len() >= self.live().len(),
                self.live() == ol.subrange(0, self.live().len() as int),
                forall|k: int|
                    self.live().len() <= k < ol.len() ==> od[#[trigger] ol[k] as int].position
                        >= stack_bottom,
                forall|i: int, j: int|
                    0 <= i < j < ol.len() ==> od[#[trigger] ol[i] as int].position < od[#[trigger] ol[
                    j] as int].position,
                forall|k: int| 0 <= k < ol.len() ==> #[trigger] ol[k] < od.len(),
            ensures
                self.live().len() > 0 ==> od[self.live().last() as int].position < stack_bottom,
            decreases self.live().len(),
        {
            proof {
                reveal(DelimiterStack::wf);
            }
            let ghost l = self.live@;
            let id = match self.last_delimiter {
                None => break,
                Some(id) => id,
            };
            assert(l.last() == id);
            assert(self.delimiters@[id as int].position == od[id as int].position);
            if self.delimiters[id].position < stack_bottom {
                break;
            }
            proof {
                assert(l.index_of(id) == l.len() - 1) by {
                    assert(l[l.len() - 1] == id);
                }
            }
            self.remove_delimiter(id);
            proof {
                assert(l.remove(l.len() - 1) =~= l.drop_last());
                assert(self.live() =~= ol.subrange(0, self.live().len() as int));
            }
        }
        proof {
            let l = self.live@;
            let f = ol.filter(below);
            if l.len() > 0 {
                let top = l.last();
                assert(od[top as int].position < stack_bottom);
            }
            assert(ol =~= l + ol.subrange(l.len() as int, ol.len() as int));
            Seq::filter_distributes_over_add(
                l,
                ol.subrange(l.len() as int, ol.len() as int),
                below,
            );
            lemma_filter_all(l, below);
            lemma_filter_none(ol.subrange(l.len() as int, ol.len() as int), below);
        }
    }
}

/// The text of a `Text` node; nothing for any other node.
pub open spec fn text_of(a: Ast) -> Seq<char> {
    match a.value {
        NodeValue::Text(s) => s@,
        _ => Seq::empty(),
    }
}

/// `a` is a `Text` node holding a run of the ASCII byte `b`, whose columns
/// span the run.
pub open spec fn run_node(a: Ast, b: u8) -> bool {
    &&& a.value is Text
    &&& b < 0x80
    &&& text_of(a).len() >= 1
    &&& forall|i: int| 0 <= i < text_of(a).len() ==> #[trigger] text_of(a)[i] == (b as char)
    &&& a.sourcepos.start.column + text_of(a).len() == a.sourcepos.end.column + 1
    &&& a.sourcepos.end.column < isize::MAX
}

/// `b` is `a` with its text cut to the first `n` characters and its
/// position set to `sp`.
pub open spec fn cut_run(a: Ast, b: Ast, n: nat, sp: Sourcepos) -> bool {
    &&& b.value is Text
    &&& text_of(b) == text_of(a).subrange(0, n as int)
    &&& b.sourcepos == sp
    &&& b.internal_offset == a.internal_offset
    &&& b.content == a.content
    &&& b.open == a.open
    &&& b.last_line_blank == a.last_line_blank
    &&& b.table_visited == a.table_visited
    &&& b.line_offsets == a.line_offsets
}

/// Cut the text of the `Text` node `id` to its first `n` characters, all
/// ASCII.
fn cut_text(arena: &mut Arena<Ast>, id: Id, n: usize)
    requires
        old(arena).wf(),
        id.0 < old(arena).nodes().len(),
        old(arena).nodes()[id.0 as int].value().value is Text,
        n <= text_of(old(arena).nodes()[id.0 as int].value()).len(),
        vstd::utf8::is_ascii_chars(text_of(old(arena).nodes()[id.0 as int].value())),
    ensures
        final(arena).wf(),
        final(arena).places() == old(arena).places(),
        final(arena).nodes().len() == old(arena).nodes().len(),
        forall|j: int|
            0 <= j < old(arena).nodes().len() && j != id.0 ==> #[trigger] final(arena).nodes()[j] == old(
                arena,
            ).nodes()[j],
        crate::arena_tree::same_links(final(arena).nodes()[id.0 as int], old(arena).nodes()[id.0 as int]),
        cut_run(
            old(arena).nodes()[id.0 as int].value(),
            final(arena).nodes()[id.0 as int].value(),
            n as nat,
            old(arena).nodes()[id.0 as int].value().sourcepos,
        ),
{
    proof {
        crate::arena_tree::lemma_with_value(
            arena.nodes(),
            id.0 as int,
            arena.nodes()[id.0 as int].value(),
        );
    }
    let ghost n0 = arena.nodes();
    let a = id.data_mut(arena);
    proof {
        assert forall|v: Ast| true implies {
            let w = #[trigger] crate::arena_tree::with_value(n0, id.0 as int, v);
            &&& w.len() == n0.len()
            &&& w[id.0 as int].value() == v
            &&& crate::arena_tree::same_links(w[id.0 as int], n0[id.0 as int])
            &&& forall|j: int| 0 <= j < n0.len() && j != id.0 ==> w[j] == n0[j]
        } by {
            crate::arena_tree::lemma_with_value(n0, id.0 as int, v);
        }
    }
    match a.value.text_mut() {
        Some(t) => {
            let ghost t0 = t@;
            proof {
                crate::text::lemma_encode_ascii_seq(t@);
                vstd::utf8::encode_utf8_valid_utf8(t@);
                crate::text::lemma_ascii_boundary(crate::text::utf8(t@), n as int);
            }
            truncate_string(t, n);
            proof {
                crate::text::lemma_ascii_prefix(t@, t0, n as int);
            }
        },
        None => {},
    }
}

/// `a` is a fresh inline node of `value` spanning `sp`.
pub open spec fn fresh_inline(a: Ast, value: NodeValue, sp: Sourcepos) -> bool {
    &&& a.value == value
    &&& a.sourcepos == sp
    &&& a.content@ == Seq::<char>::empty()
    &&& a.internal_offset == 0
    &&& !a.open
    &&& !a.last_line_blank
    &&& !a.table_visited
    &&& a.line_offsets@ == Seq::<usize>::empty()
}

/// Allocate an inline node of `value` spanning `sourcepos`, with no
/// parent, siblings or children.
pub fn make_inline(arena: &mut Arena<Ast>, value: NodeValue, sourcepos: Sourcepos) -> (r: Id)
    requires
        old(arena).wf(),
        old(arena).nodes().len() < usize::MAX,
    ensures
        final(arena).wf(),
        r.0 == old(arena).nodes().len(),
        final(arena).nodes().len() == old(arena).nodes().len() + 1,
        forall|j: int|
            0 <= j < old(arena).nodes().len() ==> #[trigger] final(arena).nodes()[j] == old(
                arena,
            ).nodes()[j],
        final(arena).places() == old(arena).places().push(0),
        final(arena).nodes()[r.0 as int].parent_link() is None,
        final(arena).nodes()[r.0 as int].prev_link() is None,
        final(arena).nodes()[r.0 as int].next_link() is None,
        final(arena).nodes()[r.0 as int].first_link() is None,
        final(arena).nodes()[r.0 as int].last_link() is None,
        fresh_inline(final(arena).nodes()[r.0 as int].value(), value, sourcepos),
{
    let ast = Ast {
        value,
        content: String::new(),
        sourcepos,
        internal_offset: 0,
        open: false,
        last_line_blank: false,
        table_visited: false,
        line_offsets: Vec::new(),
    };
    arena.new_node(ast)
}

/// Set the source position of node `id`.
fn set_sourcepos(arena: &mut Arena<Ast>, id: Id, sp: Sourcepos)
    requires
        old(arena).wf(),
        id.0 < old(arena).nodes().len(),
    ensures
        final(arena).wf(),
        final(arena).places() == old(arena).places(),
        final(arena).nodes().len() == old(arena).nodes().len(),
        forall|j: int|
            0 <= j < old(arena).nodes().len() && j != id.0 ==> #[trigger] final(arena).nodes()[j] == old(
                arena,
            ).nodes()[j],
        crate::arena_tree::same_links(final(arena).nodes()[id.0 as int], old(arena).nodes()[id.0 as int]),
        final(arena).nodes()[id.0 as int].value() == (Ast {
            sourcepos: sp,
            ..old(arena).nodes()[id.0 as int].value()
        }),
{
    let ghost n0 = arena.nodes();
    proof {
        assert forall|v: Ast| true implies {
            let w = #[trigger] crate::arena_tree::with_value(n0, id.0 as int, v);
            &&& w.len() == n0.len()
            &&& w[id.0 as int].value() == v
            &&& crate::arena_tree::same_links(w[id.0 as int], n0[id.0 as int])
            &&& forall|j: int| 0 <= j < n0.len() && j != id.0 ==> w[j] == n0[j]
        } by {
            crate::arena_tree::lemma_with_value(n0, id.0 as int, v);
        }
    }
    let a = id.data_mut(arena);
    a.sourcepos = sp;
}

/// How many delimiters a match uses: two when both runs have two or more,
/// else one.
pub open spec fn use_delims(ol: int, cl: int) -> int {
    if ol >= 2 && cl >= 2 {
        2
    } else {
        1
    }
}

/// A match of `~` runs that strikethrough or subscript turn down: one
/// that would leave part of either run, or runs of unequal length.
pub open spec fn tilde_refused(options: Options, b: u8, ol: int, cl: int) -> bool {
    let u = use_delims(ol, cl);
    &&& options.extension.strikethrough || options.extension.subscript
    &&& b == 126
    &&& (ol - u != cl - u || ol - u > 0)
}

/// The node that a match of `u` delimiters of byte `b` makes, under the
/// extensions in force.
pub open spec fn emph_kind(v: NodeValue, options: Options, b: u8, u: int) -> bool {
    let ext = options.extension;
    if ext.subscript && b == 126 && u == 1 {
        v == NodeValue::Subscript
    } else if b == 126 {
        if ext.strikethrough {
            v == NodeValue::Strikethrough
        } else {
            v is EscapedTag && v->EscapedTag_0@ == (if u == 1 {
                seq!['~']
            } else {
                seq!['~', '~']
            })
        }
    } else if ext.superscript && b == 94 {
        v == NodeValue::Superscript
    } else if ext.spoiler && b == 124 {
        if u == 2 {
            v == NodeValue::SpoileredText
        } else {
            v is EscapedTag && v->EscapedTag_0@ == seq!['|']
        }
    } else if ext.underline && b == 95 && u == 2 {
        v == NodeValue::Underline
    } else if u == 1 {
        v == NodeValue::Emph
    } else {
        v == NodeValue::Strong
    }
}

/// Where node `j` stands once a match has been made between the sibling
/// runs `oi` and `ci`: the siblings between them are children of the new
/// node `e`, which sits just after the opener; a run used up has left the
/// tree; the siblings after the closer close up behind.  `on` and `cn`
/// are what is left of the two runs.
pub open spec fn emph_place(
    n: Seq<crate::arena_tree::Node<Ast>>,
    q: Seq<nat>,
    oi: int,
    ci: int,
    e: int,
    on: int,
    cn: int,
    m: Seq<crate::arena_tree::Node<Ast>>,
    mq: Seq<nat>,
    j: int,
) -> bool {
    let drop_o = on == 0;
    let drop_c = cn == 0;
    let p = n[oi].parent_link();
    let o = q[oi];
    let c = q[ci];
    let d_o: int = if drop_o {
        1
    } else {
        0
    };
    let d_c: int = if drop_c {
        1
    } else {
        0
    };
    if j == oi {
        if drop_o {
            m[j].parent_link() is None && mq[j] == 0
        } else {
            m[j].parent_link() == p && mq[j] == o
        }
    } else if j == ci {
        if drop_c {
            m[j].parent_link() is None && mq[j] == 0
        } else {
            m[j].parent_link() == p && mq[j] == o + 2 - d_o
        }
    } else if j == e {
        m[j].parent_link() == p && mq[j] == o + 1 - d_o
    } else if n[j].parent_link() == p && o < q[j] < c {
        m[j].parent_link() == Some(Id(e as usize)) && mq[j] == q[j] - o - 1
    } else if n[j].parent_link() == p && q[j] > c {
        m[j].parent_link() == p && mq[j] == q[j] - (c - o - 1) + 1 - d_o - d_c
    } else {
        m[j].parent_link() == n[j].parent_link() && mq[j] == q[j]
    }
}

/// Where node `j` stands once the first `k` siblings after `from` have
/// moved, in order, under `e`: those moved are children of `e`, numbered
/// from zero; the siblings after them close the gap; the rest stay put.
pub open spec fn moving(
    n: Seq<crate::arena_tree::Node<Ast>>,
    q: Seq<nat>,
    from: int,
    e: int,
    k: int,
    m: Seq<crate::arena_tree::Node<Ast>>,
    mq: Seq<nat>,
    j: int,
) -> bool {
    let p = n[from].parent_link();
    let o = q[from];
    if n[j].parent_link() == p && o < q[j] < o + 1 + k {
        m[j].parent_link() == Some(Id(e as usize)) && mq[j] == q[j] - o - 1
    } else if n[j].parent_link() == p && q[j] >= o + 1 + k {
        m[j].parent_link() == p && mq[j] == q[j] - k
    } else {
        m[j].parent_link() == n[j].parent_link() && mq[j] == q[j]
    }
}

/// Move the siblings strictly between `from` and `to`, in order, under the
/// lone node `emph`.
fn adopt_between(arena: &mut Arena<Ast>, from: Id, to: Id, emph: Id)
    requires
        old(arena).wf(),
        from.0 < old(arena).nodes().len(),
        to.0 < old(arena).nodes().len(),
        emph.0 < old(arena).nodes().len(),
        old(arena).nodes()[from.0 as int].parent_link() is Some,
        old(arena).nodes()[to.0 as int].parent_link() == old(arena).nodes()[from.0 as int].parent_link(),
        old(arena).places()[from.0 as int] < old(arena).places()[to.0 as int],
        old(arena).nodes()[emph.0 as int].parent_link() is None,
        old(arena).nodes()[emph.0 as int].last_link() is None,
        forall|j: int|
            0 <= j < old(arena).nodes().len() ==> (#[trigger] old(arena).nodes()[j]).parent_link()
                != Some(emph),
    ensures
        final(arena).wf(),
        final(arena).nodes().len() == old(arena).nodes().len(),
        forall|j: int|
            0 <= j < old(arena).nodes().len() ==> (#[trigger] final(arena).nodes()[j]).value() == old(
                arena,
            ).nodes()[j].value(),
        forall|j: int|
            0 <= j < old(arena).nodes().len() && j != emph.0 ==> #[trigger] moving(
                old(arena).nodes(),
                old(arena).places(),
                from.0 as int,
                emph.0 as int,
                old(arena).places()[to.0 as int] - old(arena).places()[from.0 as int] - 1,
                final(arena).nodes(),
                final(arena).places(),
                j,
            ),
        final(arena).nodes()[emph.0 as int].parent_link() is None,
        final(arena).nodes()[emph.0 as int].prev_link() is None,
        final(arena).nodes()[emph.0 as int].next_link() is None,
        final(arena).places()[emph.0 as int] == old(arena).places()[emph.0 as int],
{
    let ghost a0 = *arena;
    let ghost n0 = arena.nodes();
    let ghost q0 = arena.places();
    let ghost f = from.0 as int;
    let ghost e = emph.0 as int;
    let ghost o = q0[f];
    let ghost c = q0[to.0 as int];
    let ghost p = n0[f].parent_link();
    proof {
        lemma_places(a0, from);
        lemma_places(a0, to);
        lemma_places(a0, emph);
        assert(n0[to.0 as int].parent_link() == p);
    }
    let mut it = from.next_sibling(arena).unwrap();
    let ghost mut k: int = 0;
    proof {
        assert forall|j: int| 0 <= j < n0.len() && j != e implies #[trigger] moving(
            n0,
            q0,
            f,
            e,
            0,
            arena.nodes(),
            arena.places(),
            j,
        ) by {}
    }
    while it != to
        invariant
            arena.wf(),
            a0.wf(),
            n0 == a0.nodes(),
            q0 == a0.places(),
            q0.len() == n0.len(),
            f == from.0,
            e == emph.0,
            f < n0.len(),
            e < n0.len(),
            to.0 < n0.len(),
            p == n0[f].parent_link(),
            p is Some,
            n0[to.0 as int].parent_link() == p,
            o == q0[f],
            c == q0[to.0 as int],
            n0[e].parent_link() is None,
            forall|j: int| 0 <= j < n0.len() ==> (#[trigger] n0[j]).parent_link() != Some(emph),
            arena.nodes().len() == n0.len(),
            arena.places().len() == n0.len(),
            forall|j: int|
                0 <= j < n0.len() ==> (#[trigger] arena.nodes()[j]).value() == n0[j].value(),
            0 <= k,
            o + 1 + k <= c,
            it.0 < n0.len(),
            n0[it.0 as int].parent_link() == p,
            q0[it.0 as int] == o + 1 + k,
            forall|j: int|
                0 <= j < n0.len() && j != e ==> #[trigger] moving(
                    n0,
                    q0,
                    f,
                    e,
                    k,
                    arena.nodes(),
                    arena.places(),
                    j,
                ),
            arena.nodes()[e].parent_link() is None,
            arena.nodes()[e].prev_link() is None,
            arena.nodes()[e].next_link() is None,
            arena.places()[e] == q0[e],
            (k == 0) == (arena.nodes()[e].last_link() is None),
            arena.nodes()[e].last_link() matches Some(l) ==> l.0 < n0.len() && arena.places()[l.0 as int]
                == k - 1 && arena.nodes()[l.0 as int].parent_link() == Some(emph),
        decreases c - o - 1 - k,
    {
        let ghost m = arena.nodes();
        let ghost mq = arena.places();
        let ghost am = *arena;
        let ghost i = it.0 as int;
        proof {
            assert(moving(n0, q0, f, e, k, m, mq, i));
            assert(i != e);
            lemma_places(a0, it);
            assert(q0[i] != c);
            lemma_places(am, it);
            assert(moving(n0, q0, f, e, k, m, mq, to.0 as int));
            assert(m[to.0 as int].parent_link() == p);
            assert(mq[to.0 as int] == c - k);
            assert(m[i].next_link() is Some);
        }
        let next = it.next_sibling(arena);
        let nx = next.unwrap();
        proof {
            let xi = nx.0 as int;
            assert(m[xi].parent_link() == p);
            assert(mq[xi] == o + 2);
            assert(moving(n0, q0, f, e, k, m, mq, xi));
            assert(q0[xi] == o + 2 + k);
            lemma_detach_unlinks(am, it);
            lemma_append_places_last(am, emph, it);
        }
        emph.append(arena, it);
        proof {
            let m2 = arena.nodes();
            let q2 = arena.places();
            let d = crate::arena_tree::detach_spec(m, i);
            assert(d[e].last_link() == m[e].last_link());
            assert forall|j: int| 0 <= j < n0.len() && j != e implies #[trigger] moving(
                n0,
                q0,
                f,
                e,
                k + 1,
                m2,
                q2,
                j,
            ) by {
                assert(moving(n0, q0, f, e, k, m, mq, j));
                if j != i {
                    assert(m2[j].parent_link() == m[j].parent_link());
                }
            }
            assert(m2[e].parent_link() == m[e].parent_link());
            if let Some(l) = m[e].last_link() {
                assert(mq[l.0 as int] == k - 1);
            }
        }
        it = nx;
        proof {
            k = k + 1;
        }
    }
}

/// The number of characters in the runs of the delimiters `ids`.
pub open spec fn texts(ids: Seq<usize>, d: Seq<Delimiter>, n: Seq<crate::arena_tree::Node<Ast>>) -> nat
    decreases ids.len(),
{
    if ids.len() == 0 {
        0
    } else {
        text_of(n[d[ids[0] as int].inl.0 as int].value()).len() + texts(ids.drop_first(), d, n)
    }
}

/// Runs whose texts did not change count the same.
proof fn lemma_texts_same(
    ids: Seq<usize>,
    d: Seq<Delimiter>,
    n: Seq<crate::arena_tree::Node<Ast>>,
    d2: Seq<Delimiter>,
    n2: Seq<crate::arena_tree::Node<Ast>>,
)
    requires
        forall|i: int|
            0 <= i < ids.len() ==> d2[#[trigger] ids[i] as int].inl == d[ids[i] as int].inl && text_of(
                n2[d[ids[i] as int].inl.0 as int].value(),
            ) == text_of(n[d[ids[i] as int].inl.0 as int].value()),
    ensures
        texts(ids, d2, n2) == texts(ids, d, n),
    decreases ids.len(),
{
    if ids.len() > 0 {
        assert(d2[ids[0] as int].inl == d[ids[0] as int].inl);
        assert forall|i: int| 0 <= i < ids.drop_first().len() implies d2[#[trigger] ids.drop_first()[i] as int].inl
            == d[ids.drop_first()[i] as int].inl && text_of(
            n2[d[ids.drop_first()[i] as int].inl.0 as int].value(),
        ) == text_of(n[d[ids.drop_first()[i] as int].inl.0 as int].value()) by {
            assert(ids.drop_first()[i] == ids[i + 1]);
        }
        lemma_texts_same(ids.drop_first(), d, n, d2, n2);
    }
}

/// The delimiters from index `kb` of the stack up lie at or past `bottom`
/// and are held by siblings under `p`, in order; each is a run of an
/// emphasis byte, or a quote held by a text node.
pub open spec fn ready(
    s: DelimiterStack,
    a: Arena<Ast>,
    options: Options,
    kb: int,
    p: Option<Id>,
    bottom: usize,
) -> bool {
    let l = s.live();
    let d = s.entries();
    let n = a.nodes();
    let q = a.places();
    &&& 0 <= kb <= l.len()
    &&& forall|k: int|
        kb <= k < l.len() ==> {
            let x = #[trigger] d[l[k] as int];
            &&& x.inl.0 < n.len()
            &&& n[x.inl.0 as int].parent_link() == p
            &&& x.length <= isize::MAX
            &&& x.position >= bottom
            &&& if is_emph_delim(x.delim_byte, options) {
                run_node(n[x.inl.0 as int].value(), x.delim_byte)
            } else {
                (x.delim_byte == 39 || x.delim_byte == 34) && n[x.inl.0 as int].value().value is Text
            }
        }
    &&& forall|k1: int, k2: int|
        kb <= k1 < k2 < l.len() ==> q[d[#[trigger] l[k1] as int].inl.0 as int] < q[d[#[trigger] l[k2] as int].inl.0 as int]
}

/// The delimiters at or past `bottom` are held by siblings, in the order
/// of the stack; each is a run of an emphasis byte, or a quote held by a
/// text node.
pub open spec fn emph_ready(s: DelimiterStack, a: Arena<Ast>, options: Options, bottom: usize) -> bool {
    let l = s.live();
    let d = s.entries();
    let n = a.nodes();
    let q = a.places();
    &&& forall|k: int|
        0 <= k < l.len() && (#[trigger] d[l[k] as int]).position >= bottom ==> {
            let x = d[l[k] as int];
            &&& x.inl.0 < n.len()
            &&& n[x.inl.0 as int].parent_link() is Some
            &&& x.length <= isize::MAX
            &&& if is_emph_delim(x.delim_byte, options) {
                run_node(n[x.inl.0 as int].value(), x.delim_byte)
            } else {
                (x.delim_byte == 39 || x.delim_byte == 34) && n[x.inl.0 as int].value().value is Text
            }
        }
    &&& forall|k1: int, k2: int|
        0 <= k1 < k2 < l.len() && d[l[k1] as int].position >= bottom ==> n[d[#[trigger] l[k1] as int].inl.0 as int].parent_link()
            == n[d[#[trigger] l[k2] as int].inl.0 as int].parent_link() && q[d[l[k1] as int].inl.0 as int]
            < q[d[l[k2] as int].inl.0 as int]
}

/// Node `j` is not a sibling of any run at or past `bottom`.
pub open spec fn apart(s: DelimiterStack, a: Arena<Ast>, bottom: usize, j: int) -> bool {
    let l = s.live();
    let d = s.entries();
    let n = a.nodes();
    forall|k: int|
        0 <= k < l.len() && (#[trigger] d[l[k] as int]).position >= bottom ==> n[j].parent_link()
            != n[d[l[k] as int].inl.0 as int].parent_link()
}

/// What `process_emphasis` keeps true from one closer to the next: the
/// stack below `kb` is as it was and lies before `bottom`; the stack from
/// `kb` up is ready; nodes under parents other than `p` are untouched; the
/// closer is on the stack from `kb` up; and the nodes yet to be made fit.
#[verifier::opaque]
spec fn loop_inv(
    s: DelimiterStack,
    a: Arena<Ast>,
    options: Options,
    bottom: usize,
    kb: int,
    p: Option<Id>,
    closer: Option<usize>,
    lo0: Seq<usize>,
    d0: Seq<Delimiter>,
    n0: Seq<crate::arena_tree::Node<Ast>>,
    q0: Seq<nat>,
) -> bool {
    &&& s.wf()
    &&& a.wf()
    &&& s.entries().len() == d0.len()
    &&& forall|j: int| 0 <= j < d0.len() ==> same_record(#[trigger] s.entries()[j], d0[j])
    &&& 0 <= kb <= s.live().len()
    &&& kb <= lo0.len()
    &&& s.live().subrange(0, kb) == lo0.subrange(0, kb)
    &&& forall|k: int| 0 <= k < kb ==> #[trigger] d0[lo0[k] as int].position < bottom
    &&& ready(s, a, options, kb, p, bottom)
    &&& p is Some
    &&& a.nodes().len() >= n0.len()
    &&& forall|j: int|
        0 <= j < n0.len() && n0[j].parent_link() != p ==> (#[trigger] a.nodes()[j]).parent_link()
            == n0[j].parent_link() && a.places()[j] == q0[j] && a.nodes()[j].value() == n0[j].value()
    &&& closer matches Some(c) ==> s.live().contains(c) && s.live().index_of(c) >= kb
    &&& a.nodes().len() + closer_budget(s, a, closer) < usize::MAX
}

/// The state of the emphasis pass between closers: the stack, the tree,
/// the closer to look at next, and how far down each kind of opener search
/// has already failed.
pub struct EmphState {
    /// The delimiter stack.
    pub stack: DelimiterStack,
    /// The tree of inlines.
    pub arena: Arena<Ast>,
    /// The closer to look at next, if any is left.
    pub closer: Option<usize>,
    /// Per kind of closer, the position below which no opener is looked for.
    pub bottoms: Seq<usize>,
}

/// `b` and `a` agree in every field but their value.
pub open spec fn same_but_value(a: Ast, b: Ast) -> bool {
    &&& b.sourcepos == a.sourcepos
    &&& b.internal_offset == a.internal_offset
    &&& b.content == a.content
    &&& b.open == a.open
    &&& b.last_line_blank == a.last_line_blank
    &&& b.table_visited == a.table_visited
    &&& b.line_offsets == a.line_offsets
}

/// `a2` is `a` with the text of the text node `inl` replaced by `t`.
pub open spec fn text_set(a: Arena<Ast>, a2: Arena<Ast>, inl: Id, t: Seq<char>) -> bool {
    &&& a2.places() == a.places()
    &&& a2.nodes().len() == a.nodes().len()
    &&& inl.0 < a.nodes().len()
    &&& forall|j: int| 0 <= j < a.nodes().len() && j != inl.0 ==> #[trigger] a2.nodes()[j] == a.nodes()[j]
    &&& crate::arena_tree::same_links(a2.nodes()[inl.0 as int], a.nodes()[inl.0 as int])
    &&& a2.nodes()[inl.0 as int].value().value is Text
    &&& text_of(a2.nodes()[inl.0 as int].value()) == t
    &&& same_but_value(a.nodes()[inl.0 as int].value(), a2.nodes()[inl.0 as int].value())
}

/// The curly quote that closes a quote of byte `b`.
pub open spec fn closing_quote(b: u8) -> Seq<char> {
    if b == 39 {
        "’"@
    } else {
        "”"@
    }
}

/// The curly quote that opens a quote of byte `b`.
pub open spec fn opening_quote(b: u8) -> Seq<char> {
    if b == 39 {
        "‘"@
    } else {
        "“"@
    }
}

/// `s2` is `s` with delimiter `id` taken off the stack.
pub open spec fn stack_removed(s: DelimiterStack, s2: DelimiterStack, id: usize) -> bool {
    &&& s2.live() == s.live().remove(s.live().index_of(id))
    &&& s2.entries().len() == s.entries().len()
    &&& forall|j: int| 0 <= j < s.entries().len() ==> same_record(#[trigger] s2.entries()[j], s.entries()[j])
}

/// What a match of the opener `o` with the closer `ci` leaves, as
/// `insert_emph` states it, with `r` the closer to look at next.
pub open spec fn matched(
    s: DelimiterStack,
    a: Arena<Ast>,
    s2: DelimiterStack,
    a2: Arena<Ast>,
    options: Options,
    o: usize,
    ci: usize,
    r: Option<usize>,
) -> bool {
    if emph_refused(s, a, options, o, ci) {
        s2 == s && a2 == a && r is None
    } else {
        &&& s2.entries().len() == s.entries().len()
        &&& forall|j: int| 0 <= j < s.entries().len() ==> same_record(#[trigger] s2.entries()[j], s.entries()[j])
        &&& s2.live() == stack_after_match(s.live(), o, ci, left_of(s, a, o, o, ci), left_of(s, a, ci, o, ci))
        &&& r == next_closer(s.live(), ci, left_of(s, a, ci, o, ci))
        &&& tree_after_match(
            a,
            a2,
            options,
            s.entries()[o as int].inl.0 as int,
            s.entries()[ci as int].inl.0 as int,
            s.entries()[o as int].delim_byte,
            used(s, a, o, ci),
            left_of(s, a, o, o, ci),
            left_of(s, a, ci, o, ci),
        )
    }
}

/// What the pass does at a quote closer `ci`: it becomes a closing curly
/// quote; with an opener `o` found, that becomes an opening one and both
/// leave the stack.  The closer to look at next is the one above.
pub open spec fn quoted(
    s: DelimiterStack,
    a: Arena<Ast>,
    s2: DelimiterStack,
    a2: Arena<Ast>,
    ci: usize,
    op: Option<usize>,
    found: bool,
    r: Option<usize>,
) -> bool {
    let c = s.entries()[ci as int];
    &&& r == c.next
    &&& exists|a1: Arena<Ast>|
        #[trigger] text_set(a, a1, c.inl, closing_quote(c.delim_byte)) && if found {
            let o = op->0;
            let s1 = s.live().remove(s.live().index_of(o));
            &&& text_set(a1, a2, s.entries()[o as int].inl, opening_quote(c.delim_byte))
            &&& s2.live() == s1.remove(s1.index_of(ci))
            &&& s2.entries().len() == s.entries().len()
            &&& forall|j: int|
                0 <= j < s.entries().len() ==> same_record(#[trigger] s2.entries()[j], s.entries()[j])
        } else {
            a2 == a1 && s2 == s
        }
}

/// One step of the emphasis pass, from the state `x` at its closer to the
/// state `y` at the next: a closer that cannot close is passed over;
/// otherwise the nearest opener is searched for (as `opener_search`, no
/// lower than the bottom for its kind), an emphasis closer is matched with
/// it (`matched`) and a quote closer is curled (`quoted`); when no opener
/// is found the search's floor is raised to the closer (unless the rule of
/// three turned one down) and a closer that cannot open leaves the stack.
pub open spec fn emph_step(x: EmphState, y: EmphState, options: Options) -> bool {
    exists|z: EmphState| #[trigger] step_via(x, y, z, options)
}

/// One step of the emphasis pass from `x` to `y` that passes through `z`,
/// the state after the closer has been dealt with and before an unmatched
/// closer is settled.
pub open spec fn step_via(x: EmphState, y: EmphState, z: EmphState, options: Options) -> bool {
    x.closer matches Some(ci) && {
        let s = x.stack;
        let c = s.entries()[ci as int];
        if !c.can_close {
            y.stack == s && y.arena == x.arena && y.bottoms == x.bottoms && y.closer == c.next
        } else {
            let ix = slot_of(c.delim_byte, c.can_open, c.length);
            let found_at = opener_search(
                s.entries(),
                s.live(),
                c,
                x.bottoms[ix],
                s.live().index_of(ci) - 1,
                false,
            );
            let op = found_at.0;
            let found = found_at.1;
            let m3 = found_at.2;
            &&& z.bottoms == x.bottoms
            &&& if is_emph_delim(c.delim_byte, options) {
                if found {
                    matched(s, x.arena, z.stack, z.arena, options, op->0, ci, z.closer)
                } else {
                    z.stack == s && z.arena == x.arena && z.closer == c.next
                }
            } else {
                quoted(s, x.arena, z.stack, z.arena, ci, op, found, z.closer)
            }
            &&& if found {
                y.stack == z.stack && y.arena == z.arena && y.closer == z.closer && y.bottoms == z.bottoms
            } else {
                &&& y.arena == z.arena
                &&& y.closer == z.closer
                &&& y.bottoms == (if m3 {
                    z.bottoms
                } else {
                    z.bottoms.update(ix, c.position)
                })
                &&& if c.can_open {
                    y.stack == z.stack
                } else {
                    stack_removed(z.stack, y.stack, ci)
                }
            }
        }
    }
}

/// The first closer the pass looks at: the lowest delimiter on the stack
/// at or past `bottom`.
pub open spec fn first_closer(s: DelimiterStack, bottom: usize) -> Option<usize> {
    let l = s.live();
    let d = s.entries();
    if exists|k: int| 0 <= k < l.len() && #[trigger] d[l[k] as int].position >= bottom {
        let k = choose|k: int|
            0 <= k < l.len() && #[trigger] d[l[k] as int].position >= bottom && forall|j: int|
                0 <= j < k ==> d[l[j] as int].position < bottom;
        Some(l[k])
    } else {
        None
    }
}

/// `t` is a run of the emphasis pass over the stack `s0` and tree `a0`
/// from `bottom`: it starts at the first closer with every search floor at
/// `bottom`, each state follows from the one before by `emph_step`, every
/// state's stack and tree are well formed with its closer on the stack, and
/// the run ends when no closer is left.
pub open spec fn emph_run(t: Seq<EmphState>, s0: DelimiterStack, a0: Arena<Ast>, options: Options, bottom: usize) -> bool {
    &&& t.len() >= 1
    &&& t[0].stack == s0
    &&& t[0].arena == a0
    &&& t[0].closer == first_closer(s0, bottom)
    &&& t[0].bottoms == Seq::new(12, |i: int| bottom)
    &&& forall|i: int| 0 <= i < t.len() - 1 ==> emph_step(#[trigger] t[i], t[i + 1], options)
    &&& forall|i: int|
        0 <= i < t.len() ==> (#[trigger] t[i]).stack.wf() && t[i].arena.wf() && (t[i].closer matches Some(
            c,
        ) ==> t[i].stack.live().contains(c))
    &&& t.last().closer is None
}

/// A run whose every step is made and whose last state has no closer and
/// is well formed is a run of the pass.
proof fn lemma_run_done(t: Seq<EmphState>, s0: DelimiterStack, a0: Arena<Ast>, options: Options, bottom: usize)
    requires
        t.len() >= 1,
        t[0] == (EmphState {
            stack: s0,
            arena: a0,
            closer: first_closer(s0, bottom),
            bottoms: Seq::new(12, |i: int| bottom),
        }),
        forall|i: int| 0 <= i < t.len() - 1 ==> emph_step(#[trigger] t[i], t[i + 1], options),
        forall|i: int|
            0 <= i < t.len() - 1 ==> (#[trigger] t[i]).stack.wf() && t[i].arena.wf() && (t[i].closer matches Some(
                c,
            ) ==> t[i].stack.live().contains(c)),
        t.last().stack.wf(),
        t.last().arena.wf(),
        t.last().closer is None,
    ensures
        emph_run(t, s0, a0, options, bottom),
{
}

/// How many delimiters lie at or above the closer.
spec fn closer_rank(s: DelimiterStack, closer: Option<usize>) -> int {
    match closer {
        Some(c) => if s.live().contains(c) {
            s.live().len() - s.live().index_of(c)
        } else {
            0
        },
        None => 0,
    }
}

/// The length of the closer's run.
spec fn closer_len(s: DelimiterStack, a: Arena<Ast>, closer: Option<usize>) -> int {
    match closer {
        Some(c) => run_text(s, a, c).len() as int,
        None => 0,
    }
}

/// The characters in the runs at or above the closer: a bound on how many
/// more nodes the pass makes.
spec fn closer_budget(s: DelimiterStack, a: Arena<Ast>, closer: Option<usize>) -> int {
    match closer {
        Some(c) => texts(
            s.live().subrange(s.live().index_of(c), s.live().len() as int),
            s.entries(),
            a.nodes(),
        ) as int,
        None => 0,
    }
}

/// What a search for an opener of `c` finds going down the stack `l` from
/// index `k`, no lower than position `floor`: where it stopped (the first
/// delimiter below `floor`, or the opener found, or nothing at the bottom),
/// whether it found an opener of the same byte that can open and is no odd
/// match, and whether the rule of three turned one down on the way (`m3`
/// being whether it already had).
pub open spec fn opener_search(
    d: Seq<Delimiter>,
    l: Seq<usize>,
    c: Delimiter,
    floor: usize,
    k: int,
    m3: bool,
) -> (Option<usize>, bool, bool)
    decreases k + 1,
{
    if k < 0 {
        (None, false, m3)
    } else if d[l[k] as int].position < floor {
        (Some(l[k]), false, m3)
    } else {
        let o = d[l[k] as int];
        if o.can_open && o.delim_byte == c.delim_byte && !odd_match(o, c) {
            (Some(l[k]), true, m3)
        } else if o.can_open && o.delim_byte == c.delim_byte {
            opener_search(d, l, c, floor, k - 1, true)
        } else {
            opener_search(d, l, c, floor, k - 1, m3)
        }
    }
}

/// Under the rule of three, a run that can both open and close does not
/// pair with one whose length makes the sum of the two a multiple of three,
/// unless both are.
pub open spec fn odd_match(o: Delimiter, c: Delimiter) -> bool {
    &&& c.can_open || o.can_close
    &&& (o.length + c.length) % 3 == 0
    &&& !(o.length % 3 == 0 && c.length % 3 == 0)
}

/// Whether `b` delimits emphasis-like spans under `options`.
fn emph_delim(options: &Options, b: u8) -> (r: bool)
    ensures
        r == is_emph_delim(b, *options),
{
    b == 42u8 || b == 95u8 || ((options.extension.strikethrough || options.extension.subscript) && b
        == 126u8) || (options.extension.superscript && b == 94u8) || (options.extension.spoiler && b
        == 124u8)
}

/// Replace the text of the `Text` node `id`.
fn set_text(arena: &mut Arena<Ast>, id: Id, t: String)
    requires
        old(arena).wf(),
        id.0 < old(arena).nodes().len(),
    ensures
        final(arena).wf(),
        final(arena).places() == old(arena).places(),
        final(arena).nodes().len() == old(arena).nodes().len(),
        forall|j: int|
            0 <= j < old(arena).nodes().len() && j != id.0 ==> #[trigger] final(arena).nodes()[j] == old(
                arena,
            ).nodes()[j],
        crate::arena_tree::same_links(final(arena).nodes()[id.0 as int], old(arena).nodes()[id.0 as int]),
        old(arena).nodes()[id.0 as int].value().value is Text ==> final(arena).nodes()[id.0 as int].value()
            == (Ast { value: NodeValue::Text(t), ..old(arena).nodes()[id.0 as int].value() }),
        !(old(arena).nodes()[id.0 as int].value().value is Text) ==> final(arena).nodes()[id.0 as int].value()
            == old(arena).nodes()[id.0 as int].value(),
{
    let ghost n0 = arena.nodes();
    proof {
        assert forall|v: Ast| true implies {
            let w = #[trigger] crate::arena_tree::with_value(n0, id.0 as int, v);
            &&& w.len() == n0.len()
            &&& w[id.0 as int].value() == v
            &&& crate::arena_tree::same_links(w[id.0 as int], n0[id.0 as int])
            &&& forall|j: int| 0 <= j < n0.len() && j != id.0 ==> w[j] == n0[j]
        } by {
            crate::arena_tree::lemma_with_value(n0, id.0 as int, v);
        }
    }
    let a = id.data_mut(arena);
    match a.value.text_mut() {
        Some(x) => {
            *x = t;
        },
        None => {},
    }
}

/// The slot of `openers_bottom` for a closer of byte `b`: `|`, `~`, `^`,
/// `"`, `'` and `_` take the first six in that order; `*` takes one of six
/// more by whether it can open and its length modulo three.
pub open spec fn slot_of(b: u8, can_open: bool, length: usize) -> int {
    if b == 124 {
        0
    } else if b == 126 {
        1
    } else if b == 94 {
        2
    } else if b == 34 {
        3
    } else if b == 39 {
        4
    } else if b == 95 {
        5
    } else {
        6 + (if can_open {
            3int
        } else {
            0
        }) + (length % 3) as int
    }
}

/// The slot of `openers_bottom` for a closer: one per byte, and for `*`
/// one per combination of whether it can open and its length modulo three.
fn delim_slot(b: u8, can_open: bool, length: usize) -> (r: usize)
    requires
        b == 124 || b == 126 || b == 94 || b == 34 || b == 39 || b == 95 || b == 42,
    ensures
        r == slot_of(b, can_open, length),
        r < 12,
{
    if b == 124u8 {
        0
    } else if b == 126u8 {
        1
    } else if b == 94u8 {
        2
    } else if b == 34u8 {
        3
    } else if b == 39u8 {
        4
    } else if b == 95u8 {
        5
    } else {
        6 + (if can_open {
            3
        } else {
            0
        }) + (length % 3)
    }
}

/// Where a sibling at place `v` under the parent of a match ends up, when
/// it stays there: the opener keeps its place, the closer follows the new
/// node, and the later siblings close up behind.
pub open spec fn place_after(o: int, c: int, on: int, cn: int, v: int) -> int {
    let d_o: int = if on == 0 {
        1
    } else {
        0
    };
    let d_c: int = if cn == 0 {
        1
    } else {
        0
    };
    if v <= o {
        v
    } else if v == c {
        o + 2 - d_o
    } else {
        v - (c - o - 1) + 1 - d_o - d_c
    }
}

/// The index on the old stack of the delimiter at index `k` of the stack
/// that a match leaves.
pub open spec fn old_index(k: int, ko: int, kc: int, on: int, cn: int) -> int {
    let a: int = if on > 0 {
        1
    } else {
        0
    };
    let b: int = if cn > 0 {
        1
    } else {
        0
    };
    if k < ko {
        k
    } else if k < ko + a {
        ko
    } else if k < ko + a + b {
        kc
    } else {
        k - ko - a - b + kc + 1
    }
}

/// The stack a match leaves holds the old delimiters at `old_index`, in
/// order.
proof fn lemma_old_index(lo: Seq<usize>, o: usize, c: usize, on: int, cn: int)
    requires
        lo.contains(o),
        lo.contains(c),
        lo.index_of(o) < lo.index_of(c),
    ensures
        ({
            let l1 = stack_after_match(lo, o, c, on, cn);
            let ko = lo.index_of(o);
            let kc = lo.index_of(c);
            &&& l1.len() == lo.len() - (kc - ko - 1) - (if on > 0 {
                0int
            } else {
                1
            }) - (if cn > 0 {
                0int
            } else {
                1
            })
            &&& forall|k: int|
                0 <= k < l1.len() ==> 0 <= old_index(k, ko, kc, on, cn) < lo.len() && #[trigger] l1[k]
                    == lo[old_index(k, ko, kc, on, cn)]
            &&& forall|k: int| 0 <= k < l1.len() ==> {
                let g = #[trigger] old_index(k, ko, kc, on, cn);
                g == ko || g == kc || g < ko || g > kc
            }
            &&& forall|k: int| 0 <= k < l1.len() && on > 0 && k == ko ==> l1[k] == o
            &&& forall|k1: int, k2: int|
                0 <= k1 < k2 < l1.len() ==> #[trigger] old_index(k1, ko, kc, on, cn) < #[trigger] old_index(
                    k2,
                    ko,
                    kc,
                    on,
                    cn,
                )
        }),
{
    let ko = lo.index_of(o);
    let kc = lo.index_of(c);
    let l1 = stack_after_match(lo, o, c, on, cn);
    assert(lo[ko] == o);
    assert(lo[kc] == c);
    let a: int = if on > 0 {
        1
    } else {
        0
    };
    let b: int = if cn > 0 {
        1
    } else {
        0
    };
    assert forall|k: int| 0 <= k < l1.len() implies 0 <= old_index(k, ko, kc, on, cn) < lo.len()
        && #[trigger] l1[k] == lo[old_index(k, ko, kc, on, cn)] by {
        if k < ko {
        } else if k < ko + a {
        } else if k < ko + a + b {
        } else {
        }
    }
}

/// A match keeps the stack ready from `kb` up: the runs that stay keep
/// their order under the same parent, and what was cut of the opener and
/// closer is still a run.  Nodes under other parents are not touched.
proof fn lemma_ready_after_match(
    s0: DelimiterStack,
    a0: Arena<Ast>,
    s1: DelimiterStack,
    a1: Arena<Ast>,
    options: Options,
    kb: int,
    p: Option<Id>,
    bottom: usize,
    o_id: usize,
    c_id: usize,
)
    requires
        a0.wf(),
        s0.wf(),
        ready(s0, a0, options, kb, p, bottom),
        p is Some,
        s0.live().contains(o_id),
        s0.live().contains(c_id),
        kb <= s0.live().index_of(o_id) < s0.live().index_of(c_id),
        s0.entries()[o_id as int].delim_byte == s0.entries()[c_id as int].delim_byte,
        is_emph_delim(s0.entries()[o_id as int].delim_byte, options),
        s1.entries().len() == s0.entries().len(),
        forall|j: int|
            0 <= j < s0.entries().len() ==> same_record(#[trigger] s1.entries()[j], s0.entries()[j]),
        s1.live() == stack_after_match(
            s0.live(),
            o_id,
            c_id,
            left_of(s0, a0, o_id, o_id, c_id),
            left_of(s0, a0, c_id, o_id, c_id),
        ),
        tree_after_match(
            a0,
            a1,
            options,
            s0.entries()[o_id as int].inl.0 as int,
            s0.entries()[c_id as int].inl.0 as int,
            s0.entries()[o_id as int].delim_byte,
            used(s0, a0, o_id, c_id),
            left_of(s0, a0, o_id, o_id, c_id),
            left_of(s0, a0, c_id, o_id, c_id),
        ),
    ensures
        ready(s1, a1, options, kb, p, bottom),
        forall|j: int|
            0 <= j < a0.nodes().len() && a0.nodes()[j].parent_link() != p ==> (#[trigger] a1.nodes()[j]).parent_link()
                == a0.nodes()[j].parent_link() && a1.places()[j] == a0.places()[j]
                && a1.nodes()[j].value() == a0.nodes()[j].value(),
{
    let lo = s0.live();
    let l1 = s1.live();
    let d0 = s0.entries();
    let d1 = s1.entries();
    let n0 = a0.nodes();
    let q0 = a0.places();
    let m = a1.nodes();
    let mq = a1.places();
    let ko = lo.index_of(o_id);
    let kc = lo.index_of(c_id);
    let oi = d0[o_id as int].inl.0 as int;
    let ci = d0[c_id as int].inl.0 as int;
    let byte = d0[o_id as int].delim_byte;
    let on = left_of(s0, a0, o_id, o_id, c_id);
    let cn = left_of(s0, a0, c_id, o_id, c_id);
    let u = used(s0, a0, o_id, c_id);
    let e = n0.len() as int;
    let o = q0[oi] as int;
    let c = q0[ci] as int;
    assert(lo[ko] == o_id);
    assert(lo[kc] == c_id);
    let xo = d0[lo[ko] as int];
    let xc = d0[lo[kc] as int];
    assert(run_node(n0[oi].value(), byte));
    assert(run_node(n0[ci].value(), byte));
    assert(o < c);
    lemma_old_index(lo, o_id, c_id, on, cn);
    crate::arena_tree::lemma_places(a0, Id(oi as usize));
    // each delimiter that stays is where `place_after` puts it, and still a run
    assert forall|k: int| kb <= k < l1.len() implies {
        let g = old_index(k, ko, kc, on, cn);
        let j = d0[lo[g] as int].inl.0 as int;
        &&& d1[#[trigger] l1[k] as int].inl.0 == j
        &&& j < n0.len()
        &&& m[j].parent_link() == p
        &&& mq[j] == place_after(o, c, on, cn, q0[j] as int)
        &&& (j == oi || j == ci || m[j].value() == n0[j].value())
        &&& (q0[j] <= o || q0[j] >= c)
        &&& (j == oi ==> q0[j] == o && on > 0)
        &&& (j == ci ==> q0[j] == c && cn > 0)
        &&& (q0[j] == o ==> j == oi)
        &&& (q0[j] == c ==> j == ci)
    } by {
        let g = old_index(k, ko, kc, on, cn);
        assert(l1[k] == lo[g]);
        s0.lemma_links(g);
        let x = d0[lo[g] as int];
        assert(same_record(d1[l1[k] as int], d0[l1[k] as int]));
        let j = x.inl.0 as int;
        assert(kb <= g);
        assert(x.inl.0 < n0.len());
        assert(n0[j].parent_link() == p);
        if g < ko {
            assert(q0[d0[lo[g] as int].inl.0 as int] < q0[d0[lo[ko] as int].inl.0 as int]);
        } else if g > kc {
            assert(q0[d0[lo[kc] as int].inl.0 as int] < q0[d0[lo[g] as int].inl.0 as int]);
        }
        assert(emph_place(n0, q0, oi, ci, e, on, cn, m, mq, j));
        if g == ko {
            assert(j == oi);
        }
        if g == kc {
            assert(j == ci);
        }
    }
    let oa = n0[oi].value();
    let ca = n0[ci].value();
    if on > 0 {
        lemma_cut_run(
            oa,
            m[oi].value(),
            on as nat,
            Sourcepos {
                start: oa.sourcepos.start,
                end: LineColumn {
                    line: oa.sourcepos.end.line,
                    column: (oa.sourcepos.end.column - u) as usize,
                },
            },
            byte,
        );
    }
    if cn > 0 {
        lemma_cut_run(
            ca,
            m[ci].value(),
            cn as nat,
            Sourcepos {
                start: LineColumn {
                    line: ca.sourcepos.start.line,
                    column: (ca.sourcepos.start.column + u) as usize,
                },
                end: ca.sourcepos.end,
            },
            byte,
        );
    }
    assert forall|k: int| kb <= k < l1.len() implies {
        let x = #[trigger] d1[l1[k] as int];
        &&& x.inl.0 < m.len()
        &&& m[x.inl.0 as int].parent_link() == p
        &&& x.length <= isize::MAX
        &&& x.position >= bottom
        &&& if is_emph_delim(x.delim_byte, options) {
            run_node(m[x.inl.0 as int].value(), x.delim_byte)
        } else {
            (x.delim_byte == 39 || x.delim_byte == 34) && m[x.inl.0 as int].value().value is Text
        }
    } by {
        let g = old_index(k, ko, kc, on, cn);
        assert(l1[k] == lo[g]);
        s0.lemma_links(g);
        assert(same_record(d1[l1[k] as int], d0[l1[k] as int]));
        assert(kb <= g);
        let x0 = d0[lo[g] as int];
        assert(x0.inl.0 < n0.len());
    }
    assert forall|k1: int, k2: int|
        kb <= k1 < k2 < l1.len() implies mq[d1[#[trigger] l1[k1] as int].inl.0 as int] < mq[d1[#[trigger] l1[
        k2] as int].inl.0 as int] by {
        let g1 = old_index(k1, ko, kc, on, cn);
        let g2 = old_index(k2, ko, kc, on, cn);
        assert(g1 < g2);
        assert(kb <= g1);
        let j1 = d0[lo[g1] as int].inl.0 as int;
        let j2 = d0[lo[g2] as int].inl.0 as int;
        assert(q0[d0[lo[g1] as int].inl.0 as int] < q0[d0[lo[g2] as int].inl.0 as int]);
        assert(d1[l1[k1] as int].inl.0 == j1);
        assert(d1[l1[k2] as int].inl.0 == j2);
    }
    assert(n0[oi].parent_link() == p);
    assert(n0[ci].parent_link() == p);
    assert forall|j: int|
        0 <= j < n0.len() && n0[j].parent_link() != p implies (#[trigger] m[j]).parent_link()
            == n0[j].parent_link() && mq[j] == q0[j] && m[j].value() == n0[j].value() by {
        assert(emph_place(n0, q0, oi, ci, e, on, cn, m, mq, j));
    }
}

/// Taking a delimiter at or above `kb` off the stack keeps it ready.
proof fn lemma_ready_after_remove(
    s0: DelimiterStack,
    s1: DelimiterStack,
    a: Arena<Ast>,
    options: Options,
    kb: int,
    p: Option<Id>,
    bottom: usize,
    id: usize,
)
    requires
        ready(s0, a, options, kb, p, bottom),
        s0.live().contains(id),
        s0.live().index_of(id) >= kb,
        s1.entries().len() == s0.entries().len(),
        forall|j: int|
            0 <= j < s0.entries().len() ==> same_record(#[trigger] s1.entries()[j], s0.entries()[j]),
        s1.live() == s0.live().remove(s0.live().index_of(id)),
        forall|k: int| 0 <= k < s0.live().len() ==> #[trigger] s0.live()[k] < s0.entries().len(),
    ensures
        ready(s1, a, options, kb, p, bottom),
{
    let l0 = s0.live();
    let l1 = s1.live();
    let i = l0.index_of(id);
    let d0 = s0.entries();
    let d1 = s1.entries();
    assert forall|k: int| kb <= k < l1.len() implies {
        let x = #[trigger] d1[l1[k] as int];
        &&& x.inl.0 < a.nodes().len()
        &&& a.nodes()[x.inl.0 as int].parent_link() == p
        &&& x.length <= isize::MAX
        &&& x.position >= bottom
        &&& if is_emph_delim(x.delim_byte, options) {
            run_node(a.nodes()[x.inl.0 as int].value(), x.delim_byte)
        } else {
            (x.delim_byte == 39 || x.delim_byte == 34) && a.nodes()[x.inl.0 as int].value().value is Text
        }
    } by {
        let g = if k < i {
            k
        } else {
            k + 1
        };
        assert(l1[k] == l0[g]);
        assert(same_record(d1[l1[k] as int], d0[l1[k] as int]));
        assert(d0[l0[g] as int] == d0[l0[g] as int]);
    }
    assert forall|k1: int, k2: int|
        kb <= k1 < k2 < l1.len() implies a.places()[d1[#[trigger] l1[k1] as int].inl.0 as int]
        < a.places()[d1[#[trigger] l1[k2] as int].inl.0 as int] by {
        let g1 = if k1 < i {
            k1
        } else {
            k1 + 1
        };
        let g2 = if k2 < i {
            k2
        } else {
            k2 + 1
        };
        assert(l1[k1] == l0[g1]);
        assert(l1[k2] == l0[g2]);
        assert(same_record(d1[l1[k1] as int], d0[l1[k1] as int]));
        assert(same_record(d1[l1[k2] as int], d0[l1[k2] as int]));
        assert(a.places()[d0[l0[g1] as int].inl.0 as int] < a.places()[d0[l0[g2] as int].inl.0 as int]);
    }
}

/// Putting new text in the text node of a quote delimiter at or above
/// `kb` keeps the stack ready.
proof fn lemma_ready_after_quote(
    s: DelimiterStack,
    a0: Arena<Ast>,
    a1: Arena<Ast>,
    options: Options,
    kb: int,
    p: Option<Id>,
    bottom: usize,
    k0: int,
)
    requires
        ready(s, a0, options, kb, p, bottom),
        kb <= k0 < s.live().len(),
        !is_emph_delim(s.entries()[s.live()[k0] as int].delim_byte, options),
        a1.places() == a0.places(),
        a1.nodes().len() == a0.nodes().len(),
        ({
            let i = s.entries()[s.live()[k0] as int].inl.0 as int;
            &&& forall|j: int| 0 <= j < a0.nodes().len() && j != i ==> #[trigger] a1.nodes()[j] == a0.nodes()[j]
            &&& crate::arena_tree::same_links(a1.nodes()[i], a0.nodes()[i])
            &&& a1.nodes()[i].value().value is Text
        }),
    ensures
        ready(s, a1, options, kb, p, bottom),
{
    let l = s.live();
    let d = s.entries();
    let i = d[l[k0] as int].inl.0 as int;
    assert forall|k: int| kb <= k < l.len() implies {
        let x = #[trigger] d[l[k] as int];
        &&& x.inl.0 < a1.nodes().len()
        &&& a1.nodes()[x.inl.0 as int].parent_link() == p
        &&& x.length <= isize::MAX
        &&& x.position >= bottom
        &&& if is_emph_delim(x.delim_byte, options) {
            run_node(a1.nodes()[x.inl.0 as int].value(), x.delim_byte)
        } else {
            (x.delim_byte == 39 || x.delim_byte == 34) && a1.nodes()[x.inl.0 as int].value().value is Text
        }
    } by {
        let x = d[l[k] as int];
        if k != k0 {
            if x.inl.0 == i {
                if k < k0 {
                    assert(a0.places()[d[l[k] as int].inl.0 as int] < a0.places()[d[l[k0] as int].inl.0 as int]);
                } else {
                    assert(a0.places()[d[l[k0] as int].inl.0 as int] < a0.places()[d[l[k] as int].inl.0 as int]);
                }
            }
        }
    }
}

/// The quote closer at index `kc` is held by a text node under `p`, apart
/// from the nodes of every other delimiter from `kb` up.
proof fn lemma_ready_after_quote_text(
    s: DelimiterStack,
    a: Arena<Ast>,
    options: Options,
    kb: int,
    p: Option<Id>,
    bottom: usize,
    kc: int,
)
    requires
        ready(s, a, options, kb, p, bottom),
        kb <= kc < s.live().len(),
    ensures
        ({
            let d = s.entries();
            let l = s.live();
            let i = d[l[kc] as int].inl.0 as int;
            &&& 0 <= i < a.nodes().len()
            &&& a.nodes()[i].parent_link() == p
            &&& forall|k: int|
                kb <= k < l.len() && k != kc ==> #[trigger] d[l[k] as int].inl.0 != i
        }),
{
    let d = s.entries();
    let l = s.live();
    assert(d[l[kc] as int].inl.0 < a.nodes().len());
    assert forall|k: int| kb <= k < l.len() && k != kc implies #[trigger] d[l[k] as int].inl.0
        != d[l[kc] as int].inl.0 by {
        if k < kc {
            assert(a.places()[d[l[k] as int].inl.0 as int] < a.places()[d[l[kc] as int].inl.0 as int]);
        } else {
            assert(a.places()[d[l[kc] as int].inl.0 as int] < a.places()[d[l[k] as int].inl.0 as int]);
        }
    }
}

/// The runs of a stack, counted from its first delimiter on.
proof fn lemma_texts_cons(ids: Seq<usize>, k: int, d: Seq<Delimiter>, n: Seq<crate::arena_tree::Node<Ast>>)
    requires
        0 <= k < ids.len(),
    ensures
        texts(ids.subrange(k, ids.len() as int), d, n) == text_of(n[d[ids[k] as int].inl.0 as int].value()).len()
            + texts(ids.subrange(k + 1, ids.len() as int), d, n),
{
    assert(ids.subrange(k, ids.len() as int).drop_first() =~= ids.subrange(k + 1, ids.len() as int));
}

/// A tail of a stack counts no more than the whole.
proof fn lemma_texts_suffix(ids: Seq<usize>, k: int, d: Seq<Delimiter>, n: Seq<crate::arena_tree::Node<Ast>>)
    requires
        0 <= k <= ids.len(),
    ensures
        texts(ids.subrange(k, ids.len() as int), d, n) <= texts(ids, d, n),
    decreases k,
{
    if k > 0 {
        lemma_texts_suffix(ids, k - 1, d, n);
        lemma_texts_cons(ids, k - 1, d, n);
    } else {
        assert(ids.subrange(0, ids.len() as int) =~= ids);
    }
}

/// A node held by a match leaves a run of its byte, with columns to suit.
proof fn lemma_cut_run(a: Ast, b: Ast, n: nat, sp: Sourcepos, byte: u8)
    requires
        run_node(a, byte),
        1 <= n <= text_of(a).len(),
        cut_run(a, b, n, sp),
        sp.start.column + n == sp.end.column + 1,
        sp.end.column <= a.sourcepos.end.column,
    ensures
        run_node(b, byte),
{
    assert forall|i: int| 0 <= i < text_of(b).len() implies #[trigger] text_of(b)[i] == (byte as char) by {
        assert(text_of(b)[i] == text_of(a)[i]);
    }
}

/// The places that `insert_emph` leaves, step by step: the siblings
/// between the runs move under the new node, then a used-up opener and a
/// used-up closer leave the tree.
proof fn lemma_emph_places(
    n0: Seq<crate::arena_tree::Node<Ast>>,
    q0: Seq<nat>,
    n_c: Seq<crate::arena_tree::Node<Ast>>,
    n_s: Seq<crate::arena_tree::Node<Ast>>,
    q_s: Seq<nat>,
    n_o: Seq<crate::arena_tree::Node<Ast>>,
    q_o: Seq<nat>,
    m: Seq<crate::arena_tree::Node<Ast>>,
    mq: Seq<nat>,
    oi: int,
    ci: int,
    on: int,
    cn: int,
)
    requires
        n0.len() == n_c.len(),
        q0.len() == n0.len(),
        0 <= oi < n0.len(),
        0 <= ci < n0.len(),
        oi != ci,
        n0[oi].parent_link() is Some,
        n0[oi].parent_link() != Some(Id(n0.len() as usize)),
        n0[ci].parent_link() == n0[oi].parent_link(),
        q0[oi] < q0[ci],
        forall|j: int|
            0 <= j < n0.len() && #[trigger] n0[j].parent_link() == n0[oi].parent_link() && q0[j]
                == q0[oi] ==> j == oi,
        forall|j: int|
            0 <= j < n0.len() && #[trigger] n0[j].parent_link() == n0[oi].parent_link() && q0[j]
                == q0[ci] ==> j == ci,
        on >= 0,
        cn >= 0,
        n_s.len() == n0.len() + 1,
        q_s.len() == n0.len() + 1,
        n_o.len() == n0.len() + 1,
        q_o.len() == n0.len() + 1,
        m.len() == n0.len() + 1,
        mq.len() == n0.len() + 1,
        forall|j: int| 0 <= j < n0.len() ==> (#[trigger] n_c[j]).parent_link() == n0[j].parent_link(),
        forall|j: int|
            0 <= j <= n0.len() ==> #[trigger] surrounded(n_c, q0, oi, ci, n0.len() as int, n_s, q_s, j),
        forall|j: int|
            0 <= j <= n0.len() && j != oi ==> (#[trigger] n_o[j]).parent_link() == n_s[j].parent_link(),
        on == 0 ==> n_o[oi].parent_link() is None && q_o == crate::arena_tree::detach_pos(n_s, q_s, oi),
        on > 0 ==> n_o[oi].parent_link() == n_s[oi].parent_link() && q_o == q_s,
        forall|j: int|
            0 <= j <= n0.len() && j != ci ==> (#[trigger] m[j]).parent_link() == n_o[j].parent_link(),
        cn == 0 ==> m[ci].parent_link() is None && mq == crate::arena_tree::detach_pos(n_o, q_o, ci),
        cn > 0 ==> m[ci].parent_link() == n_o[ci].parent_link() && mq == q_o,
    ensures
        forall|j: int|
            0 <= j <= n0.len() ==> #[trigger] emph_place(n0, q0, oi, ci, n0.len() as int, on, cn, m, mq, j),
{
    let e = n0.len() as int;
    let p = n0[oi].parent_link();
    let o = q0[oi];
    let c = q0[ci];
    assert(surrounded(n_c, q0, oi, ci, e, n_s, q_s, oi));
    assert(surrounded(n_c, q0, oi, ci, e, n_s, q_s, ci));
    assert(n_c[oi].parent_link() == p);
    assert(n_c[ci].parent_link() == p);
    assert(n_s[oi].parent_link() == p && q_s[oi] == o);
    assert(n_s[ci].parent_link() == p && q_s[ci] == o + 2);
    assert(n_o[ci].parent_link() == p);
    let d_o: int = if on == 0 {
        1
    } else {
        0
    };
    assert(q_o[ci] == o + 2 - d_o);
    assert forall|j: int| 0 <= j <= n0.len() implies #[trigger] emph_place(
        n0,
        q0,
        oi,
        ci,
        e,
        on,
        cn,
        m,
        mq,
        j,
    ) by {
        assert(surrounded(n_c, q0, oi, ci, e, n_s, q_s, j));
        if j < n0.len() {
            assert(n_c[j].parent_link() == n0[j].parent_link());
        }
        if j != oi {
            assert(n_o[j].parent_link() == n_s[j].parent_link());
        }
        if j != ci {
            assert(m[j].parent_link() == n_o[j].parent_link());
        }
        if on == 0 {
            assert(q_o[j] == crate::arena_tree::detach_pos(n_s, q_s, oi)[j]);
        }
        if cn == 0 {
            assert(mq[j] == crate::arena_tree::detach_pos(n_o, q_o, ci)[j]);
        }
        if j == oi {
            assert(emph_place(n0, q0, oi, ci, e, on, cn, m, mq, j));
        } else if j == ci {
            assert(emph_place(n0, q0, oi, ci, e, on, cn, m, mq, j));
        } else if j == e {
            assert(n_s[j].parent_link() == p && q_s[j] == o + 1);
            assert(emph_place(n0, q0, oi, ci, e, on, cn, m, mq, j));
        } else if n0[j].parent_link() == p && o < q0[j] < c {
            assert(emph_place(n0, q0, oi, ci, e, on, cn, m, mq, j));
        } else if n0[j].parent_link() == p && q0[j] > c {
            assert(n_s[j].parent_link() == p);
            assert(q_s[j] == q0[j] - (c - o - 1) + 1);
            assert(emph_place(n0, q0, oi, ci, e, on, cn, m, mq, j));
        } else {
            assert(emph_place(n0, q0, oi, ci, e, on, cn, m, mq, j));
        }
    }
}

/// A run of one ASCII byte encodes as that many bytes, and is ASCII.
proof fn lemma_encode_ascii_run(t: Seq<char>, b: u8)
    requires
        b < 0x80,
        forall|i: int| 0 <= i < t.len() ==> #[trigger] t[i] == (b as char),
    ensures
        vstd::utf8::is_ascii_chars(t),
        vstd::utf8::encode_utf8(t).len() == t.len(),
{
    assert forall|i: int| 0 <= i < t.len() implies '\0' <= #[trigger] t[i] <= '\u{7f}' by {
        assert(t[i] == (b as char));
    }
    crate::text::lemma_encode_ascii_seq(t);
}

/// The text of the run held by delimiter `id`.
pub open spec fn run_text(stack: DelimiterStack, arena: Arena<Ast>, id: usize) -> Seq<char> {
    text_of(arena.nodes()[stack.entries()[id as int].inl.0 as int].value())
}

/// How many delimiters a match of `o` with `c` uses.
pub open spec fn used(stack: DelimiterStack, arena: Arena<Ast>, o: usize, c: usize) -> int {
    use_delims(run_text(stack, arena, o).len() as int, run_text(stack, arena, c).len() as int)
}

/// How much of the run of `id` a match of `o` with `c` leaves.
pub open spec fn left_of(stack: DelimiterStack, arena: Arena<Ast>, id: usize, o: usize, c: usize) -> int {
    run_text(stack, arena, id).len() - used(stack, arena, o, c)
}

/// A match of `o` with `c` that strikethrough or subscript turn down.
pub open spec fn emph_refused(
    stack: DelimiterStack,
    arena: Arena<Ast>,
    options: Options,
    o: usize,
    c: usize,
) -> bool {
    tilde_refused(
        options,
        stack.entries()[o as int].delim_byte,
        run_text(stack, arena, o).len() as int,
        run_text(stack, arena, c).len() as int,
    )
}

/// The stack after a match of `o` with `c` that leaves `on` and `cn` of
/// their runs: what lay between them is gone, and so is a run used up.
pub open spec fn stack_after_match(lo: Seq<usize>, o: usize, c: usize, on: int, cn: int) -> Seq<usize> {
    lo.subrange(0, lo.index_of(o)) + (if on > 0 {
        seq![o]
    } else {
        seq![]
    }) + (if cn > 0 {
        seq![c]
    } else {
        seq![]
    }) + lo.subrange(lo.index_of(c) + 1, lo.len() as int)
}

/// The closer to look at after a match leaving `cn` of the closer `c`:
/// `c` itself while some of it is left, else the delimiter above it.
pub open spec fn next_closer(lo: Seq<usize>, c: usize, cn: int) -> Option<usize> {
    if cn > 0 {
        Some(c)
    } else if lo.index_of(c) + 1 < lo.len() {
        Some(lo[lo.index_of(c) + 1])
    } else {
        None
    }
}

/// The tree after a match between the runs `oi` and `ci` of byte `b`,
/// using `u` delimiters and leaving `on` and `cn`: each run is cut and
/// narrowed, a new node of the kind the match calls for spans what lies
/// between, and every node stands where `emph_place` puts it.
pub open spec fn tree_after_match(
    a: Arena<Ast>,
    f: Arena<Ast>,
    options: Options,
    oi: int,
    ci: int,
    b: u8,
    u: int,
    on: int,
    cn: int,
) -> bool {
    let n = a.nodes();
    let m = f.nodes();
    let e = n.len() as int;
    let oa = n[oi].value();
    let ca = n[ci].value();
    &&& m.len() == n.len() + 1
    &&& forall|j: int|
        0 <= j < n.len() && j != oi && j != ci ==> (#[trigger] m[j]).value() == n[j].value()
    &&& cut_run(
        oa,
        m[oi].value(),
        on as nat,
        if on > 0 {
            Sourcepos {
                start: oa.sourcepos.start,
                end: LineColumn {
                    line: oa.sourcepos.end.line,
                    column: (oa.sourcepos.end.column - u) as usize,
                },
            }
        } else {
            oa.sourcepos
        },
    )
    &&& cut_run(
        ca,
        m[ci].value(),
        cn as nat,
        if cn > 0 {
            Sourcepos {
                start: LineColumn {
                    line: ca.sourcepos.start.line,
                    column: (ca.sourcepos.start.column + u) as usize,
                },
                end: ca.sourcepos.end,
            }
        } else {
            ca.sourcepos
        },
    )
    &&& emph_kind(m[e].value().value, options, b, u)
    &&& fresh_inline(
        m[e].value(),
        m[e].value().value,
        Sourcepos {
            start: LineColumn {
                line: oa.sourcepos.start.line,
                column: (oa.sourcepos.start.column + on) as usize,
            },
            end: LineColumn { line: ca.sourcepos.end.line, column: (ca.sourcepos.end.column - cn) as usize },
        },
    )
    &&& forall|j: int|
        0 <= j <= n.len() ==> #[trigger] emph_place(n, a.places(), oi, ci, e, on, cn, m, f.places(), j)
}

/// Where node `j` stands once the siblings strictly between `oi` and `ci`
/// have moved under `e`, and `e` has taken their place.
pub open spec fn surrounded(
    n: Seq<crate::arena_tree::Node<Ast>>,
    q: Seq<nat>,
    oi: int,
    ci: int,
    e: int,
    m: Seq<crate::arena_tree::Node<Ast>>,
    mq: Seq<nat>,
    j: int,
) -> bool {
    let p = n[oi].parent_link();
    let o = q[oi];
    let c = q[ci];
    if j == e {
        m[j].parent_link() == p && mq[j] == o + 1
    } else if n[j].parent_link() == p && o < q[j] < c {
        m[j].parent_link() == Some(Id(e as usize)) && mq[j] == q[j] - o - 1
    } else if n[j].parent_link() == p && q[j] >= c {
        m[j].parent_link() == p && mq[j] == q[j] - (c - o - 1) + 1
    } else {
        m[j].parent_link() == n[j].parent_link() && mq[j] == q[j]
    }
}

/// Move the siblings strictly between `opener` and `closer` under the
/// lone node `emph`, and put `emph` in their place.
fn surround(arena: &mut Arena<Ast>, opener: Id, closer: Id, emph: Id)
    requires
        old(arena).wf(),
        opener.0 < old(arena).nodes().len(),
        closer.0 < old(arena).nodes().len(),
        emph.0 < old(arena).nodes().len(),
        old(arena).nodes()[opener.0 as int].parent_link() is Some,
        old(arena).nodes()[closer.0 as int].parent_link() == old(arena).nodes()[opener.0 as int].parent_link(),
        old(arena).places()[opener.0 as int] < old(arena).places()[closer.0 as int],
        old(arena).nodes()[emph.0 as int].parent_link() is None,
        old(arena).nodes()[emph.0 as int].last_link() is None,
        forall|j: int|
            0 <= j < old(arena).nodes().len() ==> (#[trigger] old(arena).nodes()[j]).parent_link()
                != Some(emph),
    ensures
        final(arena).wf(),
        final(arena).nodes().len() == old(arena).nodes().len(),
        forall|j: int|
            0 <= j < old(arena).nodes().len() ==> (#[trigger] final(arena).nodes()[j]).value() == old(
                arena,
            ).nodes()[j].value(),
        forall|j: int|
            0 <= j < old(arena).nodes().len() ==> #[trigger] surrounded(
                old(arena).nodes(),
                old(arena).places(),
                opener.0 as int,
                closer.0 as int,
                emph.0 as int,
                final(arena).nodes(),
                final(arena).places(),
                j,
            ),
{
    let ghost n0 = arena.nodes();
    let ghost q0 = arena.places();
    let ghost a0 = *arena;
    let ghost o = q0[opener.0 as int];
    let ghost c = q0[closer.0 as int];
    let ghost p = n0[opener.0 as int].parent_link();
    let ghost e = emph.0 as int;
    proof {
        lemma_places(a0, opener);
        lemma_places(a0, closer);
        lemma_places(a0, emph);
        assert(opener != emph);
        assert(closer != emph);
    }
    adopt_between(arena, opener, closer, emph);
    let ghost a1 = *arena;
    let ghost m1 = arena.nodes();
    let ghost q1 = arena.places();
    proof {
        assert(moving(n0, q0, opener.0 as int, e, c - o - 1, m1, q1, opener.0 as int));
        assert(moving(n0, q0, opener.0 as int, e, c - o - 1, m1, q1, closer.0 as int));
        assert(m1[opener.0 as int].parent_link() == p);
        assert(q1[opener.0 as int] == o);
        assert(m1[closer.0 as int].parent_link() == p);
        assert(q1[closer.0 as int] == o + 1);
        lemma_places(a1, opener);
        lemma_places(a1, closer);
        let pid = p->0;
        assert(pid.0 < n0.len());
        assert(p != Some(emph));
        assert(m1[opener.0 as int].next_link() == Some(closer));
        lemma_detach_unlinks(a1, emph);
        lemma_insert_after_places_next(a1, opener, emph);
    }
    opener.insert_after(arena, emph);
    proof {
        let m2 = arena.nodes();
        let q2 = arena.places();
        let d = crate::arena_tree::detach_spec(m1, e);
        assert(d == m1);
        assert(d[opener.0 as int].next_link() == Some(closer));
        assert forall|j: int| 0 <= j < n0.len() implies #[trigger] surrounded(
            n0,
            q0,
            opener.0 as int,
            closer.0 as int,
            e,
            m2,
            q2,
            j,
        ) by {
            if j != e {
                assert(moving(n0, q0, opener.0 as int, e, c - o - 1, m1, q1, j));
                assert(m2[j].parent_link() == m1[j].parent_link());
            }
        }
    }
}

/// The node that a match of `use_delims` delimiters of byte `b` makes.
fn emph_value(options: &Options, b: u8, use_delims: usize) -> (v: NodeValue)
    ensures
        emph_kind(v, *options, b, use_delims as int),
{
    if options.extension.subscript && b == 126u8 && use_delims == 1 {
        NodeValue::Subscript
    } else if b == 126u8 {
        if options.extension.strikethrough {
            NodeValue::Strikethrough
        } else if use_delims == 1 {
            proof {
                reveal_strlit("~");
                assert("~"@ =~= seq!['~']);
            }
            NodeValue::EscapedTag("~".to_owned())
        } else {
            proof {
                reveal_strlit("~~");
                assert("~~"@ =~= seq!['~', '~']);
            }
            NodeValue::EscapedTag("~~".to_owned())
        }
    } else if options.extension.superscript && b == 94u8 {
        NodeValue::Superscript
    } else if options.extension.spoiler && b == 124u8 {
        if use_delims == 2 {
            NodeValue::SpoileredText
        } else {
            proof {
                reveal_strlit("|");
                assert("|"@ =~= seq!['|']);
            }
            NodeValue::EscapedTag("|".to_owned())
        }
    } else if options.extension.underline && b == 95u8 && use_delims == 2 {
        NodeValue::Underline
    } else if use_delims == 1 {
        NodeValue::Emph
    } else {
        NodeValue::Strong
    }
}

/// Make the node `value` for a match between the sibling runs `opener`
/// and `closer`, spanning all but the first `on` columns of the opener and
/// the last `cn` of the closer, and move the siblings between the runs
/// into it.
fn place_emph(arena: &mut Arena<Ast>, opener: Id, closer: Id, value: NodeValue, on: usize, cn: usize) -> (emph: Id)
    requires
        old(arena).wf(),
        old(arena).nodes().len() < usize::MAX,
        opener.0 < old(arena).nodes().len(),
        closer.0 < old(arena).nodes().len(),
        old(arena).nodes()[opener.0 as int].parent_link() is Some,
        old(arena).nodes()[closer.0 as int].parent_link() == old(arena).nodes()[opener.0 as int].parent_link(),
        old(arena).places()[opener.0 as int] < old(arena).places()[closer.0 as int],
        old(arena).nodes()[opener.0 as int].value().sourcepos.start.column + on <= isize::MAX,
        old(arena).nodes()[closer.0 as int].value().sourcepos.end.column <= isize::MAX,
        old(arena).nodes()[closer.0 as int].value().sourcepos.end.column >= cn,
    ensures
        final(arena).wf(),
        emph.0 == old(arena).nodes().len(),
        final(arena).nodes().len() == old(arena).nodes().len() + 1,
        forall|j: int|
            0 <= j < old(arena).nodes().len() ==> (#[trigger] final(arena).nodes()[j]).value() == old(
                arena,
            ).nodes()[j].value(),
        fresh_inline(
            final(arena).nodes()[emph.0 as int].value(),
            value,
            Sourcepos {
                start: LineColumn {
                    line: old(arena).nodes()[opener.0 as int].value().sourcepos.start.line,
                    column: (old(arena).nodes()[opener.0 as int].value().sourcepos.start.column
                        + on) as usize,
                },
                end: LineColumn {
                    line: old(arena).nodes()[closer.0 as int].value().sourcepos.end.line,
                    column: (old(arena).nodes()[closer.0 as int].value().sourcepos.end.column
                        - cn) as usize,
                },
            },
        ),
        forall|j: int|
            0 <= j <= old(arena).nodes().len() ==> #[trigger] surrounded(
                old(arena).nodes(),
                old(arena).places(),
                opener.0 as int,
                closer.0 as int,
                old(arena).nodes().len() as int,
                final(arena).nodes(),
                final(arena).places(),
                j,
            ),
{
    let ghost n0 = arena.nodes();
    let ghost q0 = arena.places();
    let ghost a0 = *arena;
    proof {
        lemma_places(a0, opener);
        assert forall|j: int| 0 <= j < n0.len() implies (#[trigger] n0[j]).parent_link() != Some(
            Id(n0.len() as usize),
        ) by {
            lemma_places(a0, Id(j as usize));
        }
    }
    let os = opener.data(arena).sourcepos;
    let cs = closer.data(arena).sourcepos;
    let emph = make_inline(
        arena,
        value,
        Sourcepos {
            start: os.start.column_add(on as isize),
            end: cs.end.column_add(-(cn as isize)),
        },
    );
    let ghost n_m = arena.nodes();
    let ghost q_m = arena.places();
    proof {
        assert forall|j: int| 0 <= j < n_m.len() implies (#[trigger] n_m[j]).parent_link() != Some(
            emph,
        ) by {
            if j < n0.len() {
                assert(n_m[j] == n0[j]);
            }
        }
        assert(n_m[opener.0 as int] == n0[opener.0 as int]);
        assert(n_m[closer.0 as int] == n0[closer.0 as int]);
        assert(q_m[opener.0 as int] == q0[opener.0 as int]);
        assert(q_m[closer.0 as int] == q0[closer.0 as int]);
    }
    surround(arena, opener, closer, emph);
    proof {
        assert forall|j: int| 0 <= j <= n0.len() implies #[trigger] surrounded(
            n0,
            q0,
            opener.0 as int,
            closer.0 as int,
            n0.len() as int,
            arena.nodes(),
            arena.places(),
            j,
        ) by {
            if j < n0.len() {
                assert(surrounded(n_m, q_m, opener.0 as int, closer.0 as int, emph.0 as int, arena.nodes(), arena.places(), j));
                assert(n_m[j] == n0[j]);
                assert(q_m[j] == q0[j]);
            } else {
                assert(surrounded(n_m, q_m, opener.0 as int, closer.0 as int, emph.0 as int, arena.nodes(), arena.places(), j));
            }
        }
    }
    emph
}

/// After a match, take the run `inl` out of the tree when nothing is left
/// of it, else narrow its columns by the `u` delimiters used: at its end
/// for an opener, at its start for a closer.
fn settle_run(arena: &mut Arena<Ast>, inl: Id, left: usize, u: usize, opener: bool)
    requires
        old(arena).wf(),
        inl.0 < old(arena).nodes().len(),
        left > 0 && opener ==> old(arena).nodes()[inl.0 as int].value().sourcepos.end.column >= u,
        left > 0 && !opener ==> old(arena).nodes()[inl.0 as int].value().sourcepos.start.column + u
            <= usize::MAX,
    ensures
        final(arena).wf(),
        final(arena).nodes().len() == old(arena).nodes().len(),
        forall|j: int|
            0 <= j < old(arena).nodes().len() && j != inl.0 ==> (#[trigger] final(arena).nodes()[j]).value()
                == old(arena).nodes()[j].value(),
        forall|j: int|
            0 <= j < old(arena).nodes().len() && j != inl.0 ==> (#[trigger] final(arena).nodes()[j]).parent_link()
                == old(arena).nodes()[j].parent_link(),
        left == 0 ==> final(arena).nodes()[inl.0 as int].parent_link() is None,
        left == 0 ==> final(arena).places() == crate::arena_tree::detach_pos(
            old(arena).nodes(),
            old(arena).places(),
            inl.0 as int,
        ),
        left == 0 ==> final(arena).nodes()[inl.0 as int].value() == old(arena).nodes()[inl.0 as int].value(),
        left > 0 ==> final(arena).places() == old(arena).places(),
        left > 0 ==> final(arena).nodes()[inl.0 as int].parent_link() == old(arena).nodes()[inl.0 as int].parent_link(),
        left > 0 && opener ==> final(arena).nodes()[inl.0 as int].value() == (Ast {
            sourcepos: Sourcepos {
                start: old(arena).nodes()[inl.0 as int].value().sourcepos.start,
                end: LineColumn {
                    line: old(arena).nodes()[inl.0 as int].value().sourcepos.end.line,
                    column: (old(arena).nodes()[inl.0 as int].value().sourcepos.end.column - u) as usize,
                },
            },
            ..old(arena).nodes()[inl.0 as int].value()
        }),
        left > 0 && !opener ==> final(arena).nodes()[inl.0 as int].value() == (Ast {
            sourcepos: Sourcepos {
                start: LineColumn {
                    line: old(arena).nodes()[inl.0 as int].value().sourcepos.start.line,
                    column: (old(arena).nodes()[inl.0 as int].value().sourcepos.start.column + u) as usize,
                },
                end: old(arena).nodes()[inl.0 as int].value().sourcepos.end,
            },
            ..old(arena).nodes()[inl.0 as int].value()
        }),
{
    if left == 0 {
        proof {
            lemma_detach_unlinks(*arena, inl);
        }
        inl.detach(arena);
    } else if opener {
        let mut sp = inl.data(arena).sourcepos;
        sp.end.column = sp.end.column - u;
        set_sourcepos(arena, inl, sp);
    } else {
        let mut sp = inl.data(arena).sourcepos;
        sp.start.column = sp.start.column + u;
        set_sourcepos(arena, inl, sp);
    }
}

/// Filtering a sequence whose first `kb` items pass and whose others fail
/// keeps those first `kb`.
proof fn lemma_cut_at(l: Seq<usize>, kb: int, pred: spec_fn(usize) -> bool)
    requires
        0 <= kb <= l.len(),
        forall|k: int| 0 <= k < kb ==> pred(#[trigger] l[k]),
        forall|k: int| kb <= k < l.len() ==> !pred(#[trigger] l[k]),
    ensures
        l.filter(pred) == l.subrange(0, kb),
{
    let pre = l.subrange(0, kb);
    let post = l.subrange(kb, l.len() as int);
    assert(l =~= pre + post);
    Seq::filter_distributes_over_add(pre, post, pred);
    assert forall|k: int| 0 <= k < pre.len() implies pred(#[trigger] pre[k]) by {
        assert(pre[k] == l[k]);
    }
    lemma_filter_all(pre, pred);
    assert forall|k: int| 0 <= k < post.len() implies !pred(#[trigger] post[k]) by {
        assert(post[k] == l[kb + k]);
    }
    lemma_filter_none(post, pred);
    assert(pre + Seq::<usize>::empty() =~= pre);
}

/// Filtering keeps a sequence whose items all pass.
proof fn lemma_filter_all(s: Seq<usize>, p: spec_fn(usize) -> bool)
    requires
        forall|k: int| 0 <= k < s.len() ==> p(#[trigger] s[k]),
    ensures
        s.filter(p) == s,
    decreases s.len(),
{
    reveal(Seq::filter);
    if s.len() > 0 {
        lemma_filter_all(s.drop_last(), p);
    }
    assert(s.filter(p) =~= s);
}

/// Filtering empties a sequence whose items all fail.
proof fn lemma_filter_none(s: Seq<usize>, p: spec_fn(usize) -> bool)
    requires
        forall|k: int| 0 <= k < s.len() ==> !p(#[trigger] s[k]),
    ensures
        s.filter(p) == Seq::<usize>::empty(),
    decreases s.len(),
{
    reveal(Seq::filter);
    if s.len() > 0 {
        lemma_filter_none(s.drop_last(), p);
    }
    assert(s.filter(p) =~= Seq::<usize>::empty());
}

} // verus!
