//! A stack with random access and random removal, pronounced "removable
//! stack".
//!
//! Removing an element leaves a vacant slot behind; vacant slots at the top
//! of the stack are dropped at once, and a lookup from a vacant slot moves on
//! to the next occupied slot above it.

use std::ops::Index;
use vstd::prelude::*;

verus! {

/// One slot of a `RemStack`.
enum Slot<T> {
    Occupied { val: T },
    /// A slot whose element was removed; a lookup here goes on at `next`,
    /// every slot in between being vacant as well.
    Vacant { next: usize },
}

/// A stack with random access and random removal, pronounced 'removable
/// stack'.
pub struct RemStack<T> {
    vec: Vec<Slot<T>>,
}

/// The element a slot holds, if any.
spec fn slot_view<T>(s: Slot<T>) -> Option<T> {
    match s {
        Slot::Occupied { val } => Some(val),
        Slot::Vacant { .. } => None,
    }
}

spec fn slots_view<T>(v: Seq<Slot<T>>) -> Seq<Option<T>> {
    v.map_values(|s: Slot<T>| slot_view(s))
}

/// Every vacant slot points on to a later slot, and the slots it skips that
/// exist are vacant.
spec fn links_ok<T>(v: Seq<Slot<T>>) -> bool {
    forall|i: int|
        0 <= i < v.len() ==> match #[trigger] v[i] {
            Slot::Occupied { .. } => true,
            Slot::Vacant { next } => {
                &&& i < next
                &&& forall|k: int| i < k < next && k < v.len() ==> v[k] is Vacant
            },
        }
}

/// The first occupied slot at position `idx` or above.
pub open spec fn probe<T>(s: Seq<Option<T>>, idx: int) -> Option<int>
    decreases s.len() - idx,
{
    if idx < 0 || idx >= s.len() {
        None
    } else if s[idx] is Some {
        Some(idx)
    } else {
        probe(s, idx + 1)
    }
}

/// `s` without its vacant slots at the top.
pub open spec fn prune<T>(s: Seq<Option<T>>) -> Seq<Option<T>>
    decreases s.len(),
{
    if s.len() > 0 && s.last() is None {
        prune(s.drop_last())
    } else {
        s
    }
}

/// The slots as `RemStack::debug_string` lists them: each occupied one by
/// the string given for it and each vacant one by `_`, separated by `, `.
pub open spec fn debug_items(s: Seq<Option<Seq<char>>>) -> Seq<char>
    decreases s.len(),
{
    if s.len() == 0 {
        seq![]
    } else {
        let prev = debug_items(s.drop_last());
        let sep: Seq<char> = if s.len() > 1 {
            seq![',', ' ']
        } else {
            seq![]
        };
        let item: Seq<char> = match s.last() {
            Some(t) => t,
            None => seq!['_'],
        };
        prev + sep + item
    }
}

/// A lookup finds an occupied slot at or above where it starts.
proof fn lemma_probe_found<T>(s: Seq<Option<T>>, idx: int)
    ensures
        probe(s, idx) matches Some(j) ==> idx <= j < s.len() && s[j] is Some,
    decreases s.len() - idx,
{
    if 0 <= idx < s.len() && s[idx] is None {
        lemma_probe_found(s, idx + 1);
    }
}

/// Over a run of vacant slots a lookup finds what it finds after the run.
proof fn lemma_probe_run<T>(s: Seq<Option<T>>, i: int, n: int)
    requires
        0 <= i <= n <= s.len(),
        forall|k: int| i <= k < n ==> s[k] is None,
    ensures
        probe(s, i) == probe(s, n),
    decreases n - i,
{
    if i < n {
        lemma_probe_run(s, i + 1, n);
    }
}

/// A lookup from a vacant slot finds what a lookup from its link finds.
proof fn lemma_probe_link<T>(v: Seq<Slot<T>>, i: int)
    requires
        links_ok(v),
        0 <= i < v.len(),
        v[i] is Vacant,
    ensures
        probe(slots_view(v), i) == probe(slots_view(v), v[i]->next as int),
{
    let s = slots_view(v);
    let next = v[i]->next as int;
    let n = if next < v.len() {
        next
    } else {
        v.len() as int
    };
    assert(v[i] matches Slot::Vacant { next: nx } && nx == next);
    assert forall|k: int| i <= k < n implies s[k] is None by {
        if k > i {
            assert(v[k] is Vacant);
        }
    }
    lemma_probe_run(s, i, n);
}

proof fn lemma_prune_occupied<T>(s: Seq<Option<T>>)
    requires
        s.len() == 0 || s.last() is Some,
    ensures
        prune(s) == s,
{
}

proof fn lemma_links_prefix<T>(v: Seq<Slot<T>>, n: int)
    requires
        links_ok(v),
        0 <= n <= v.len(),
    ensures
        links_ok(v.subrange(0, n)),
{
    let w = v.subrange(0, n);
    assert forall|i: int| 0 <= i < w.len() implies match #[trigger] w[i] {
        Slot::Occupied { .. } => true,
        Slot::Vacant { next } => {
            &&& i < next
            &&& forall|k: int| i < k < next && k < w.len() ==> w[k] is Vacant
        },
    } by {
        assert(w[i] == v[i]);
        if w[i] is Vacant {
            assert forall|k: int| i < k < w[i]->next && k < w.len() implies w[k] is Vacant by {
                assert(w[k] == v[k]);
            }
        }
    }
}

/// Drops the vacant slots at the top.
fn prune_slots<T>(v: &mut Vec<Slot<T>>)
    requires
        links_ok(old(v)@),
    ensures
        links_ok(final(v)@),
        slots_view(final(v)@) == prune(slots_view(old(v)@)),
        final(v)@.len() == 0 || final(v)@.last() is Occupied,
{
    loop
        invariant
            links_ok(v@),
            prune(slots_view(v@)) == prune(slots_view(old(v)@)),
        ensures
            links_ok(v@),
            prune(slots_view(v@)) == prune(slots_view(old(v)@)),
            v@.len() == 0 || v@.last() is Occupied,
        decreases v@.len(),
    {
        let n = v.len();
        if n == 0 {
            break;
        }
        if let Slot::Occupied { .. } = &v[n - 1] {
            break;
        }
        let ghost before = v@;
        v.pop();
        proof {
            assert(v@ =~= before.subrange(0, n - 1));
            lemma_links_prefix(before, n - 1);
            assert(slots_view(before).last() is None);
            assert(slots_view(before).drop_last() =~= slots_view(v@));
        }
    }
    proof {
        lemma_prune_occupied(slots_view(v@));
    }
}

impl<T> View for RemStack<T> {
    type V = Seq<Option<T>>;

    /// The slots, `None` for a vacant one.
    closed spec fn view(&self) -> Seq<Option<T>> {
        slots_view(self.vec@)
    }
}

impl<T> RemStack<T> {
    /// The links between the slots are in order.
    pub closed spec fn wf(&self) -> bool {
        links_ok(self.vec@)
    }

    /// Constructs a new, empty `RemStack<T>`.
    pub fn new() -> (r: RemStack<T>)
        ensures
            r.wf(),
            r@ == Seq::<Option<T>>::empty(),
    {
        let r = RemStack { vec: Vec::new() };
        proof {
            assert(r@ =~= Seq::<Option<T>>::empty());
        }
        r
    }

    /// The index of the first occupied slot at `idx` or above.
    fn index_probe(&self, idx: usize) -> (r: Option<usize>)
        requires
            self.wf(),
        ensures
            r matches Some(j) ==> probe(self@, idx as int) == Some(j as int) && j < self.vec@.len()
                && self.vec@[j as int] is Occupied,
            r is None ==> probe(self@, idx as int) is None,
        decreases self.vec@.len() - idx,
    {
        proof {
            lemma_probe_found(self@, idx as int);
        }
        if idx >= self.vec.len() {
            return None;
        }
        match &self.vec[idx] {
            Slot::Occupied { .. } => {
                proof {
                    assert(self@[idx as int] is Some);
                }
                Some(idx)
            },
            Slot::Vacant { next } => {
                proof {
                    lemma_probe_link(self.vec@, idx as int);
                }
                if *next >= self.vec.len() {
                    None
                } else {
                    self.index_probe(*next)
                }
            },
        }
    }

    /// Appends an element to the back of a collection.
    pub fn push(&mut self, val: T)
        requires
            old(self).wf(),
        ensures
            final(self).wf(),
            final(self)@ == prune(old(self)@).push(Some(val)),
    {
        prune_slots(&mut self.vec);
        let ghost before = self.vec@;
        self.vec.push(Slot::Occupied { val: val });
        proof {
            assert forall|i: int| 0 <= i < self.vec@.len() implies match #[trigger] self.vec@[i] {
                Slot::Occupied { .. } => true,
                Slot::Vacant { next } => {
                    &&& i < next
                    &&& forall|k: int|
                        i < k < next && k < self.vec@.len() ==> self.vec@[k] is Vacant
                },
            } by {
                if i < before.len() {
                    assert(self.vec@[i] == before[i]);
                    if before[i] is Vacant {
                        let nx = before[i]->next as int;
                        if nx > before.len() {
                            assert(before[before.len() - 1] is Vacant);
                        }
                        assert forall|k: int|
                            i < k < nx && k < self.vec@.len() implies self.vec@[k] is Vacant by {
                            assert(self.vec@[k] == before[k]);
                        }
                    }
                }
            }
            assert(self@ =~= prune(old(self)@).push(Some(val)));
        }
    }

    /// Removes the last element from a removable stack and returns it, or
    /// `None` if it is empty.
    pub fn pop(&mut self) -> (r: Option<T>)
        requires
            old(self).wf(),
        ensures
            final(self).wf(),
            prune(old(self)@).len() == 0 ==> r is None && final(self)@ == prune(old(self)@),
            prune(old(self)@).len() > 0 ==> r == prune(old(self)@).last() && final(self)@
                == prune(old(self)@).drop_last(),
    {
        prune_slots(&mut self.vec);
        let ghost before = self.vec@;
        match self.vec.pop() {
            None => None,
            Some(Slot::Occupied { val }) => {
                proof {
                    lemma_links_prefix(before, before.len() - 1);
                    assert(self.vec@ =~= before.subrange(0, before.len() - 1));
                    assert(self@ =~= slots_view(before).drop_last());
                }
                Some(val)
            },
            Some(Slot::Vacant { .. }) => {
                proof {
                    assert(false);
                }
                None
            },
        }
    }

    /// Shortens the removable stack, keeping the first `len` slots.
    ///
    /// Note that slots are retained rather than elements; if the first `len`
    /// slots are vacant, no elements will remain after truncation.
    pub fn truncate(&mut self, len: usize)
        requires
            old(self).wf(),
        ensures
            final(self).wf(),
            len <= old(self)@.len() ==> final(self)@ == prune(old(self)@.subrange(0, len as int)),
            len > old(self)@.len() ==> final(self)@ == prune(old(self)@),
    {
        let ghost before = self.vec@;
        self.vec.truncate(len);
        proof {
            if len <= before.len() {
                assert(self.vec@ =~= before.subrange(0, len as int));
                lemma_links_prefix(before, len as int);
                assert(self@ =~= slots_view(before).subrange(0, len as int));
            } else {
                assert(self.vec@ =~= before);
            }
        }
        prune_slots(&mut self.vec);
    }

    /// Return the first element found in the removable stack from slot position
    /// `idx` onward, or `None` if out of bounds.
    pub fn get(&self, idx: usize) -> (r: Option<&T>)
        requires
            self.wf(),
        ensures
            probe(self@, idx as int) is None ==> r is None,
            probe(self@, idx as int) matches Some(j) ==> r matches Some(x) && *x == self@[j]->0,
    {
        match self.index_probe(idx) {
            None => None,
            Some(j) => match &self.vec[j] {
                Slot::Occupied { val } => Some(val),
                Slot::Vacant { .. } => None,
            },
        }
    }

    /// Return a mutable reference to the first element found in the removable
    /// stack from slot position `idx` onward, or `None` if out of bounds.
    pub fn get_mut(&mut self, idx: usize) -> (r: Option<&mut T>)
        requires
            old(self).wf(),
        ensures
            probe(old(self)@, idx as int) is None ==> r is None && final(self)@ == old(self)@,
            probe(old(self)@, idx as int) matches Some(j) ==> r matches Some(x) && *x == old(
                self,
            )@[j]->0 && final(self)@ == old(self)@.update(j, Some(*final(x))),
            final(self).wf(),
    {
        match self.index_probe(idx) {
            None => None,
            Some(j) => match &mut self.vec[j] {
                Slot::Occupied { val } => Some(val),
                Slot::Vacant { .. } => None,
            },
        }
    }

    /// Remove the element found at slot position `idx` if any.
    pub fn remove(&mut self, idx: usize)
        requires
            old(self).wf(),
        ensures
            final(self).wf(),
            probe(old(self)@, idx as int) is None ==> final(self)@ == prune(old(self)@),
            probe(old(self)@, idx as int) matches Some(j) ==> final(self)@ == prune(
                old(self)@.update(j, None),
            ),
    {
        match self.index_probe(idx) {
            None => {},
            Some(j) => {
                let ghost before = self.vec@;
                let n = self.vec.len();
                assert(j < n);
                self.vec.set(j, Slot::Vacant { next: j + 1 });
                proof {
                    assert forall|i: int| 0 <= i < self.vec@.len() implies match #[trigger] self.vec@[i] {
                        Slot::Occupied { .. } => true,
                        Slot::Vacant { next } => {
                            &&& i < next
                            &&& forall|k: int|
                                i < k < next && k < self.vec@.len() ==> self.vec@[k] is Vacant
                        },
                    } by {
                        if i != j {
                            assert(self.vec@[i] == before[i]);
                            if before[i] is Vacant {
                                assert forall|k: int|
                                    i < k < before[i]->next && k < self.vec@.len()
                                    implies self.vec@[k] is Vacant by {
                                    if k != j {
                                        assert(self.vec@[k] == before[k]);
                                    }
                                }
                            }
                        }
                    }
                    assert(self@ =~= old(self)@.update(j as int, None));
                }
            },
        }
        prune_slots(&mut self.vec);
    }

    /// Return the number of slots in the removable stack's underlying vector.
    pub fn len(&self) -> (r: usize)
        ensures
            r == self@.len(),
    {
        self.vec.len()
    }
}

impl<T> RemStack<T> {
    /// Lists the slots as `RemStack [a, _, c]`: each element as `show`
    /// writes it and each vacant slot as `_`.
    pub fn debug_string<F: Fn(&T) -> String>(&self, show: F) -> (r: String)
        requires
            forall|x: &T| call_requires(show, (x,)),
        ensures
            exists|items: Seq<Option<Seq<char>>>|
                {
                    &&& items.len() == self@.len()
                    &&& forall|i: int|
                        0 <= i < items.len() ==> (#[trigger] items[i] is None <==> self@[i] is None)
                    &&& forall|i: int|
                        0 <= i < items.len() && #[trigger] items[i] is Some ==> exists|t: String|
                            call_ensures(show, (&self@[i]->0,), t) && t@ == items[i]->0
                    &&& r@ == "RemStack ["@ + debug_items(items) + "]"@
                },
    {
        let mut out = String::new();
        out.append("RemStack [");
        let ghost mut items: Seq<Option<Seq<char>>> = Seq::empty();
        let mut i: usize = 0;
        proof {
            assert(out@ =~= "RemStack ["@ + debug_items(items));
        }
        while i < self.vec.len()
            invariant
                forall|x: &T| call_requires(show, (x,)),
                i <= self.vec@.len(),
                items.len() == i,
                forall|k: int| 0 <= k < i ==> (#[trigger] items[k] is None <==> self@[k] is None),
                forall|k: int|
                    0 <= k < i && #[trigger] items[k] is Some ==> exists|t: String|
                        call_ensures(show, (&self@[k]->0,), t) && t@ == items[k]->0,
                out@ == "RemStack ["@ + debug_items(items),
            decreases self.vec@.len() - i,
        {
            let ghost prev_items = items;
            if i > 0 {
                out.append(", ");
            }
            match &self.vec[i] {
                Slot::Occupied { val } => {
                    let t = show(val);
                    out.append(t.as_str());
                    proof {
                        items = items.push(Some(t@));
                        assert(self@[i as int] is Some);
                    }
                },
                Slot::Vacant { .. } => {
                    out.append("_");
                    proof {
                        reveal_strlit("_");
                        items = items.push(None);
                        assert(self@[i as int] is None);
                    }
                },
            }
            proof {
                reveal_strlit(", ");
                assert(items.drop_last() =~= prev_items);
                assert(out@ =~= "RemStack ["@ + debug_items(items));
            }
            i += 1;
        }
        out.append("]");
        out
    }
}

impl<T> From<Vec<T>> for RemStack<T> {
    /// A removable stack with the elements of `vec` pushed in order.
    fn from(vec: Vec<T>) -> (r: RemStack<T>)
        ensures
            r.wf(),
            r@ == vec@.map_values(|x: T| Some(x)),
    {
        let mut rs: RemStack<T> = RemStack::new();
        let ghost orig = vec@;
        for x in it: vec.into_iter()
            invariant
                rs.wf(),
                it.seq() == orig,
                rs@ == it.seq().take(it.index() as int).map_values(|x: T| Some(x)),
        {
            proof {
                lemma_prune_occupied(rs@);
            }
            rs.push(x);
            proof {
                assert(rs@ =~= it.seq().take(it.index() + 1).map_values(|x: T| Some(x)));
            }
        }
        proof {
            assert(orig.take(orig.len() as int) =~= orig);
        }
        rs
    }
}

impl<T> vstd::std_specs::convert::FromSpecImpl<Vec<T>> for RemStack<T> {
    open spec fn obeys_from_spec() -> bool {
        false
    }

    open spec fn from_spec(v: Vec<T>) -> RemStack<T> {
        arbitrary()
    }
}

impl<T> vstd::std_specs::core::IndexSpecImpl<usize> for RemStack<T> {
    open spec fn index_req(&self, index: &usize) -> bool {
        self.wf() && probe(self@, *index as int) is Some
    }
}

impl<T> Index<usize> for RemStack<T> {
    type Output = T;

    /// The element that `get` finds from slot `index` onward.
    fn index(&self, index: usize) -> (r: &T)
        ensures
            probe(self@, index as int) matches Some(j) && *r == self@[j]->0,
    {
        self.get(index).unwrap()
    }
}

/// The elements of a removable stack: its occupied slots, in slot order.
pub open spec fn elements<T>(s: Seq<Option<T>>) -> Seq<T>
    decreases s.len(),
{
    if s.len() == 0 {
        Seq::empty()
    } else {
        match s.last() {
            Some(x) => elements(s.drop_last()).push(x),
            None => elements(s.drop_last()),
        }
    }
}

/// Popping takes the last element: with slots `s` before, `pop` returns
/// `None` exactly when there is no element, and otherwise returns the last
/// element and leaves the others, in order.
pub proof fn lemma_pop_takes_last<T>(s: Seq<Option<T>>)
    ensures
        elements(prune(s)) == elements(s),
        (prune(s).len() == 0) == (elements(s).len() == 0),
        prune(s).len() > 0 ==> prune(s).last() == Some(elements(s).last()) && elements(
            prune(s).drop_last(),
        ) == elements(s).drop_last(),
    decreases s.len(),
{
    if s.len() > 0 && s.last() is None {
        lemma_pop_takes_last(s.drop_last());
    } else if s.len() > 0 {
        let x = s.last()->0;
        assert(elements(s) == elements(s.drop_last()).push(x));
        assert(elements(s).drop_last() =~= elements(s.drop_last()));
    }
}

/// Writing `v` through the reference that `get_mut(idx)` hands out, when it
/// finds the slot `j`, makes `get(idx)` find `v` there and leaves every other
/// slot as it was.
pub proof fn lemma_get_after_write<T>(s: Seq<Option<T>>, idx: int, j: int, v: T)
    requires
        probe(s, idx) == Some(j),
    ensures
        probe(s.update(j, Some(v)), idx) == Some(j),
        s.update(j, Some(v))[j] == Some(v),
        forall|k: int| 0 <= k < s.len() && k != j ==> #[trigger] s.update(j, Some(v))[k] == s[k],
    decreases s.len() - idx,
{
    lemma_probe_found(s, idx);
    if idx < j {
        lemma_get_after_write(s, idx + 1, j, v);
    }
}

/// Pruning leaves an occupied slot, or nothing, at the top, and keeps the
/// slots below.
pub proof fn lemma_prune_shape<T>(s: Seq<Option<T>>)
    ensures
        prune(s).len() <= s.len(),
        prune(s) == s.subrange(0, prune(s).len() as int),
        prune(s).len() == 0 || prune(s).last() is Some,
        forall|k: int| prune(s).len() <= k < s.len() ==> s[k] is None,
    decreases s.len(),
{
    if s.len() > 0 && s.last() is None {
        lemma_prune_shape(s.drop_last());
        assert(prune(s) =~= s.subrange(0, prune(s).len() as int));
    } else {
        assert(s =~= s.subrange(0, s.len() as int));
    }
}

/// Dropping vacant slots at the top changes no lookup.
pub proof fn lemma_probe_prune<T>(s: Seq<Option<T>>, idx: int)
    ensures
        probe(prune(s), idx) == probe(s, idx),
    decreases s.len() - idx,
{
    lemma_prune_shape(s);
    let p = prune(s);
    if 0 <= idx < s.len() {
        if idx < p.len() {
            assert(p[idx] == s[idx]);
            if s[idx] is None {
                lemma_probe_prune(s, idx + 1);
            }
        } else {
            lemma_probe_run(s, idx, s.len() as int);
        }
    }
}

/// An element pushed onto the stack is what `pop` returns next, and popping
/// it leaves the stack as `push` found it, without its vacant top.
pub proof fn lemma_pop_undoes_push<T>(s: Seq<Option<T>>, val: T)
    ensures
        prune(prune(s).push(Some(val))) == prune(s).push(Some(val)),
        prune(prune(s).push(Some(val))).last() == Some(val),
        prune(prune(s).push(Some(val))).drop_last() == prune(s),
{
    let t = prune(s).push(Some(val));
    assert(t.last() is Some);
    assert(t.drop_last() =~= prune(s));
}

/// The element pushed last is found at its slot.
pub proof fn lemma_get_after_push<T>(s: Seq<Option<T>>, val: T)
    ensures
        probe(prune(s).push(Some(val)), prune(s).len() as int) == Some(prune(s).len() as int),
        prune(s).push(Some(val))[prune(s).len() as int] == Some(val),
{
}

/// After the element that a lookup from `idx` finds is removed, the same
/// lookup goes on to the next occupied slot above it.
pub proof fn lemma_get_after_remove<T>(s: Seq<Option<T>>, idx: int, j: int)
    requires
        probe(s, idx) == Some(j),
    ensures
        probe(prune(s.update(j, None)), idx) == probe(s, j + 1),
        probe(prune(s.update(j, None)), j) == probe(s, j + 1),
{
    lemma_probe_found(s, idx);
    let u = s.update(j, None);
    lemma_probe_prune(u, idx);
    lemma_probe_prune(u, j);
    lemma_probe_run_found(s, idx, j);
    assert forall|k: int| idx <= k <= j implies u[k] is None by {}
    lemma_probe_run(u, idx, j + 1);
    lemma_probe_run(u, j, j + 1);
    lemma_probe_same_above(s, u, j + 1);
}

/// Before the slot a lookup finds, every slot is vacant.
proof fn lemma_probe_run_found<T>(s: Seq<Option<T>>, idx: int, j: int)
    requires
        probe(s, idx) == Some(j),
    ensures
        forall|k: int| idx <= k < j ==> s[k] is None,
    decreases s.len() - idx,
{
    lemma_probe_found(s, idx);
    if idx < j {
        lemma_probe_run_found(s, idx + 1, j);
    }
}

/// Lookups from `from` on agree on sequences that agree from `from` on.
proof fn lemma_probe_same_above<T>(s: Seq<Option<T>>, u: Seq<Option<T>>, from: int)
    requires
        0 <= from,
        s.len() == u.len(),
        forall|k: int| from <= k < s.len() ==> s[k] == u[k],
    ensures
        probe(s, from) == probe(u, from),
    decreases s.len() - from,
{
    if from < s.len() {
        lemma_probe_same_above(s, u, from + 1);
    }
}

} // verus!
