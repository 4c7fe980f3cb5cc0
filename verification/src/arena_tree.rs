//! A DOM-like tree whose nodes live in an arena and refer to each other by
//! index.
//!
//! Each node knows its parent, its previous and next siblings, and its first
//! and last children.  The arena keeps these links consistent: the operations
//! that move nodes around (`detach`, `append`, `prepend`, `insert_after`,
//! `insert_before`) keep every link answered by its counterpart.

use vstd::prelude::*;

verus! {

/// The index of a node in its arena.
#[derive(Debug, Clone, Copy, PartialEq, Eq, Structural, Hash)]
pub struct Id(pub usize);

/// A node inside a DOM-like tree.
pub struct Node<T> {
    parent: Option<Id>,
    previous_sibling: Option<Id>,
    next_sibling: Option<Id>,
    first_child: Option<Id>,
    last_child: Option<Id>,
    /// The data held by the node.
    pub data: T,
}

impl<T> Node<T> {
    /// The data the node holds.
    pub closed spec fn value(&self) -> T {
        self.data
    }

    /// The node's parent, if it has one.
    pub closed spec fn parent_link(&self) -> Option<Id> {
        self.parent
    }

    /// The node's previous sibling, if it has one.
    pub closed spec fn prev_link(&self) -> Option<Id> {
        self.previous_sibling
    }

    /// The node's next sibling, if it has one.
    pub closed spec fn next_link(&self) -> Option<Id> {
        self.next_sibling
    }

    /// The node's first child, if it has one.
    pub closed spec fn first_link(&self) -> Option<Id> {
        self.first_child
    }

    /// The node's last child, if it has one.
    pub closed spec fn last_link(&self) -> Option<Id> {
        self.last_child
    }

    /// Create a new node from its associated data.
    ///
    /// Typically, this node needs to be moved into an arena
    /// before it can be used in a tree.
    pub fn new(data: T) -> (r: Node<T>)
        ensures
            r.parent_link() is None,
            r.prev_link() is None,
            r.next_link() is None,
            r.first_link() is None,
            r.last_link() is None,
            r.value() == data,
    {
        Node {
            parent: None,
            previous_sibling: None,
            next_sibling: None,
            first_child: None,
            last_child: None,
            data,
        }
    }

    /// The parent node, unless this node is the root of the tree.
    pub fn parent(&self) -> (r: Option<Id>)
        ensures
            r == self.parent_link(),
    {
        self.parent
    }

    /// The first child of this node, unless it has no child.
    pub fn first_child(&self) -> (r: Option<Id>)
        ensures
            r == self.first_link(),
    {
        self.first_child
    }

    /// The last child of this node, unless it has no child.
    pub fn last_child(&self) -> (r: Option<Id>)
        ensures
            r == self.last_link(),
    {
        self.last_child
    }

    /// The previous sibling of this node, unless it is a first child.
    pub fn previous_sibling(&self) -> (r: Option<Id>)
        ensures
            r == self.prev_link(),
    {
        self.previous_sibling
    }

    /// The next sibling of this node, unless it is a last child.
    pub fn next_sibling(&self) -> (r: Option<Id>)
        ensures
            r == self.next_link(),
    {
        self.next_sibling
    }

    /// The data held by the node.
    pub fn data(&self) -> (r: &T)
        ensures
            *r == self.value(),
    {
        &self.data
    }

    /// The data held by the node, for change.
    pub fn data_mut(&mut self) -> (r: &mut T)
        ensures
            *r == old(self).value(),
            final(self).value() == *final(r),
            final(self).parent_link() == old(self).parent_link(),
            final(self).prev_link() == old(self).prev_link(),
            final(self).next_link() == old(self).next_link(),
            final(self).first_link() == old(self).first_link(),
            final(self).last_link() == old(self).last_link(),
    {
        &mut self.data
    }
}

/// `o` is absent or names a node of `n`.
pub open spec fn in_range<T>(n: Seq<Node<T>>, o: Option<Id>) -> bool {
    o matches Some(j) ==> j.0 < n.len()
}

/// The links of node `i` agree with those of its neighbours.  `pos` gives
/// each node its place among its siblings, counting from zero; it rules out
/// sibling chains that run in a circle.
pub open spec fn node_ok<T>(n: Seq<Node<T>>, pos: Seq<nat>, i: int) -> bool {
    let x = n[i];
    let me = Some(Id(i as usize));
    &&& in_range(n, x.parent_link())
    &&& x.parent_link() != me
    &&& in_range(n, x.prev_link())
    &&& in_range(n, x.next_link())
    &&& in_range(n, x.first_link())
    &&& in_range(n, x.last_link())
    &&& (x.first_link() is None <==> x.last_link() is None)
    &&& (x.first_link() matches Some(c) ==> n[c.0 as int].parent_link() == me
        && n[c.0 as int].prev_link() is None)
    &&& (x.last_link() matches Some(c) ==> n[c.0 as int].parent_link() == me
        && n[c.0 as int].next_link() is None)
    &&& (x.next_link() matches Some(s) ==> n[s.0 as int].prev_link() == me
        && n[s.0 as int].parent_link() == x.parent_link() && pos[s.0 as int] == pos[i] + 1)
    &&& (x.prev_link() matches Some(s) ==> n[s.0 as int].next_link() == me
        && n[s.0 as int].parent_link() == x.parent_link())
    &&& (x.prev_link() is None ==> pos[i] == 0)
    &&& (x.parent_link() is None ==> x.prev_link() is None && x.next_link() is None)
    &&& (x.parent_link() matches Some(p) ==> (x.prev_link() is None ==> n[p.0 as int].first_link()
        == me) && (x.next_link() is None ==> n[p.0 as int].last_link() == me))
}

/// Every node's links agree with those of its neighbours.
pub open spec fn links_ok<T>(n: Seq<Node<T>>, pos: Seq<nat>) -> bool {
    &&& pos.len() == n.len()
    &&& n.len() <= usize::MAX
    &&& forall|i: int| 0 <= i < n.len() ==> #[trigger] node_ok(n, pos, i)
    &&& siblings_ok(n, pos)
}

/// No two children of one parent share a place, and the last child has the
/// highest place.
#[verifier::opaque]
pub open spec fn siblings_ok<T>(n: Seq<Node<T>>, pos: Seq<nat>) -> bool {
    &&& forall|i: int, j: int|
        0 <= i < n.len() && 0 <= j < n.len() && (#[trigger] n[i].parent_link()) is Some
            && n[i].parent_link() == (#[trigger] n[j].parent_link()) && pos[i] == pos[j] ==> i == j
    &&& forall|i: int|
        0 <= i < n.len() ==> ((#[trigger] n[i].parent_link()) matches Some(p) ==> (n[p.0 as int].last_link() matches Some(l)
            && pos[i] <= pos[l.0 as int]))
}

/// Node `i` of `n` with its parent link set to `v`.
pub closed spec fn with_parent<T>(n: Seq<Node<T>>, i: int, v: Option<Id>) -> Seq<Node<T>> {
    n.update(i, Node { parent: v, ..n[i] })
}

/// Node `i` of `n` with its previous-sibling link set to `v`.
pub closed spec fn with_prev<T>(n: Seq<Node<T>>, i: int, v: Option<Id>) -> Seq<Node<T>> {
    n.update(i, Node { previous_sibling: v, ..n[i] })
}

/// Node `i` of `n` with its next-sibling link set to `v`.
pub closed spec fn with_next<T>(n: Seq<Node<T>>, i: int, v: Option<Id>) -> Seq<Node<T>> {
    n.update(i, Node { next_sibling: v, ..n[i] })
}

/// Node `i` of `n` with its first-child link set to `v`.
pub closed spec fn with_first<T>(n: Seq<Node<T>>, i: int, v: Option<Id>) -> Seq<Node<T>> {
    n.update(i, Node { first_child: v, ..n[i] })
}

/// Node `i` of `n` with its last-child link set to `v`.
pub closed spec fn with_last<T>(n: Seq<Node<T>>, i: int, v: Option<Id>) -> Seq<Node<T>> {
    n.update(i, Node { last_child: v, ..n[i] })
}

/// The facts about the link setters that the proofs below use.
pub proof fn lemma_setters<T>(n: Seq<Node<T>>, i: int, v: Option<Id>)
    requires
        0 <= i < n.len(),
    ensures
        with_parent(n, i, v).len() == n.len(),
        with_prev(n, i, v).len() == n.len(),
        with_next(n, i, v).len() == n.len(),
        with_first(n, i, v).len() == n.len(),
        with_last(n, i, v).len() == n.len(),
        forall|j: int| 0 <= j < n.len() && j != i ==> with_parent(n, i, v)[j] == n[j],
        forall|j: int| 0 <= j < n.len() && j != i ==> with_prev(n, i, v)[j] == n[j],
        forall|j: int| 0 <= j < n.len() && j != i ==> with_next(n, i, v)[j] == n[j],
        forall|j: int| 0 <= j < n.len() && j != i ==> with_first(n, i, v)[j] == n[j],
        forall|j: int| 0 <= j < n.len() && j != i ==> with_last(n, i, v)[j] == n[j],
{
}

/// Node `i` of `n` holding `v` as its data.
pub closed spec fn with_value<T>(n: Seq<Node<T>>, i: int, v: T) -> Seq<Node<T>> {
    n.update(i, Node { data: v, ..n[i] })
}

/// Replacing a node's data changes nothing else.
pub proof fn lemma_with_value<T>(n: Seq<Node<T>>, i: int, v: T)
    requires
        0 <= i < n.len(),
    ensures
        with_value(n, i, v).len() == n.len(),
        with_value(n, i, v)[i].value() == v,
        forall|j: int| 0 <= j < n.len() ==> {
            let m = #[trigger] with_value(n, i, v)[j];
            &&& m.parent_link() == n[j].parent_link()
            &&& m.prev_link() == n[j].prev_link()
            &&& m.next_link() == n[j].next_link()
            &&& m.first_link() == n[j].first_link()
            &&& m.last_link() == n[j].last_link()
            &&& j != i ==> m.value() == n[j].value()
            &&& j != i ==> m == n[j]
        },
{
}

/// Two nodes with the same parent, siblings and children.
pub open spec fn same_links<T>(a: Node<T>, b: Node<T>) -> bool {
    &&& a.parent_link() == b.parent_link()
    &&& a.prev_link() == b.prev_link()
    &&& a.next_link() == b.next_link()
    &&& a.first_link() == b.first_link()
    &&& a.last_link() == b.last_link()
}

/// Replacing a node's data keeps the links consistent.
proof fn lemma_value_keeps_links<T>(n: Seq<Node<T>>, pos: Seq<nat>, i: int)
    requires
        0 <= i < n.len(),
    ensures
        forall|v: T| links_ok(n, pos) ==> #[trigger] links_ok(with_value(n, i, v), pos),
{
    assert forall|v: T| links_ok(n, pos) implies #[trigger] links_ok(with_value(n, i, v), pos) by {
        let m = with_value(n, i, v);
        lemma_with_value(n, i, v);
        assert forall|j: int| 0 <= j < m.len() implies #[trigger] node_ok(m, pos, j) by {
            assert(node_ok(n, pos, j));
            let y = n[j];
            if let Some(c) = y.first_link() {
                assert(m[c.0 as int].parent_link() == n[c.0 as int].parent_link());
                assert(m[c.0 as int].prev_link() == n[c.0 as int].prev_link());
            }
            if let Some(c) = y.last_link() {
                assert(m[c.0 as int].parent_link() == n[c.0 as int].parent_link());
                assert(m[c.0 as int].next_link() == n[c.0 as int].next_link());
            }
            if let Some(c) = y.next_link() {
                assert(m[c.0 as int].parent_link() == n[c.0 as int].parent_link());
                assert(m[c.0 as int].prev_link() == n[c.0 as int].prev_link());
            }
            if let Some(c) = y.prev_link() {
                assert(m[c.0 as int].parent_link() == n[c.0 as int].parent_link());
                assert(m[c.0 as int].next_link() == n[c.0 as int].next_link());
            }
            if let Some(c) = y.parent_link() {
                assert(m[c.0 as int].first_link() == n[c.0 as int].first_link());
                assert(m[c.0 as int].last_link() == n[c.0 as int].last_link());
            }
        }
        reveal(siblings_ok);
        assert forall|a: int, b: int|
            0 <= a < m.len() && 0 <= b < m.len() && (#[trigger] m[a].parent_link()) is Some
                && m[a].parent_link() == (#[trigger] m[b].parent_link()) && pos[a] == pos[b] implies a == b by {
            assert(m[a].parent_link() == n[a].parent_link());
            assert(m[b].parent_link() == n[b].parent_link());
        }
        assert forall|a: int|
            0 <= a < m.len() implies ((#[trigger] m[a].parent_link()) matches Some(p) ==> (m[p.0 as int].last_link() matches Some(l)
                && pos[a] <= pos[l.0 as int])) by {
            assert(m[a].parent_link() == n[a].parent_link());
            if let Some(p) = m[a].parent_link() {
                assert(node_ok(n, pos, a));
                assert(m[p.0 as int].last_link() == n[p.0 as int].last_link());
            }
        }
    }
}

/// The links after node `x` leaves its parent and siblings: its neighbours
/// close the gap, and its children stay with it.
pub open spec fn detach_spec<T>(n: Seq<Node<T>>, x: int) -> Seq<Node<T>> {
    let parent = n[x].parent_link();
    let prev = n[x].prev_link();
    let next = n[x].next_link();
    let n1 = with_next(with_prev(with_parent(n, x, None), x, None), x, None);
    let n2 = match next {
        Some(b) => with_prev(n1, b.0 as int, prev),
        None => match parent {
            Some(p) => with_last(n1, p.0 as int, prev),
            None => n1,
        },
    };
    match prev {
        Some(a) => with_next(n2, a.0 as int, next),
        None => match parent {
            Some(p) => with_first(n2, p.0 as int, next),
            None => n2,
        },
    }
}

/// Sibling places after node `x` has left: its later siblings move up one.
pub open spec fn detach_pos<T>(n: Seq<Node<T>>, pos: Seq<nat>, x: int) -> Seq<nat> {
    Seq::new(
        pos.len(),
        |j: int|
            if j == x {
                0
            } else if n[x].parent_link() is Some && n[j].parent_link() == n[x].parent_link()
                && pos[j] > pos[x] {
                (pos[j] - 1) as nat
            } else {
                pos[j]
            },
    )
}

/// Node `j` comes after node `x` among the children of `x`'s parent.
pub open spec fn follows<T>(n: Seq<Node<T>>, pos: Seq<nat>, x: int, j: int) -> bool {
    &&& n[x].parent_link() is Some
    &&& n[j].parent_link() == n[x].parent_link()
    &&& pos[j] > pos[x]
}

/// Field by field, what `detach_spec` leaves in each node.
proof fn lemma_detach_fields<T>(n: Seq<Node<T>>, pos: Seq<nat>, x: int)
    requires
        links_ok(n, pos),
        0 <= x < n.len(),
    ensures
        ({
            let m = detach_spec(n, x);
            let parent = n[x].parent_link();
            let prev = n[x].prev_link();
            let next = n[x].next_link();
            &&& m.len() == n.len()
            &&& forall|j: int|
                0 <= j < n.len() ==> {
                    &&& (#[trigger] m[j]).value() == n[j].value()
                    &&& m[j].parent_link() == if j == x {
                        None
                    } else {
                        n[j].parent_link()
                    }
                    &&& m[j].prev_link() == if j == x {
                        None
                    } else if next == Some(Id(j as usize)) {
                        prev
                    } else {
                        n[j].prev_link()
                    }
                    &&& m[j].next_link() == if j == x {
                        None
                    } else if prev == Some(Id(j as usize)) {
                        next
                    } else {
                        n[j].next_link()
                    }
                    &&& m[j].first_link() == if parent == Some(Id(j as usize)) && prev is None {
                        next
                    } else {
                        n[j].first_link()
                    }
                    &&& m[j].last_link() == if parent == Some(Id(j as usize)) && next is None {
                        prev
                    } else {
                        n[j].last_link()
                    }
                }
        }),
{
    assert(node_ok(n, pos, x));
    let parent = n[x].parent_link();
    let prev = n[x].prev_link();
    let next = n[x].next_link();
    if let Some(b) = next {
        assert(node_ok(n, pos, b.0 as int));
    }
    if let Some(a) = prev {
        assert(node_ok(n, pos, a.0 as int));
    }
    let n1 = with_next(with_prev(with_parent(n, x, None), x, None), x, None);
    let n2 = match next {
        Some(b) => with_prev(n1, b.0 as int, prev),
        None => match parent {
            Some(p) => with_last(n1, p.0 as int, prev),
            None => n1,
        },
    };
    let m = detach_spec(n, x);
    assert forall|j: int| 0 <= j < n.len() implies #[trigger] n1[j] == (if j == x {
        Node { parent: None, previous_sibling: None, next_sibling: None, ..n[x] }
    } else {
        n[j]
    }) by {}
    assert(n2.len() == n.len());
    assert(m.len() == n.len());
}

/// Detaching keeps node `i`'s links consistent.
#[verifier::rlimit(40)]
proof fn lemma_detach_node_ok<T>(n: Seq<Node<T>>, pos: Seq<nat>, x: int, i: int)
    requires
        links_ok(n, pos),
        0 <= x < n.len(),
        0 <= i < n.len(),
    ensures
        node_ok(detach_spec(n, x), detach_pos(n, pos, x), i),
{
    let m = detach_spec(n, x);
    let q = detach_pos(n, pos, x);
    lemma_detach_fields(n, pos, x);
    assert(node_ok(n, pos, x));
    assert(node_ok(n, pos, i));
    let parent = n[x].parent_link();
    let prev = n[x].prev_link();
    let next = n[x].next_link();
    if let Some(b) = next {
        assert(node_ok(n, pos, b.0 as int));
    }
    if let Some(a) = prev {
        assert(node_ok(n, pos, a.0 as int));
    }
    if let Some(p) = parent {
        assert(node_ok(n, pos, p.0 as int));
    }
    let y = n[i];
    if let Some(c) = y.first_link() {
        assert(node_ok(n, pos, c.0 as int));
    }
    if let Some(c) = y.last_link() {
        assert(node_ok(n, pos, c.0 as int));
    }
    if let Some(c) = y.next_link() {
        assert(node_ok(n, pos, c.0 as int));
        if y.parent_link() is Some && y.parent_link() == parent && pos[i] == pos[x] {
            reveal(siblings_ok);
            assert(n[i].parent_link() == n[x].parent_link());
        }
    }
    if let Some(c) = y.prev_link() {
        assert(node_ok(n, pos, c.0 as int));
    }
    if let Some(c) = y.parent_link() {
        assert(node_ok(n, pos, c.0 as int));
    }
}

/// Detaching keeps siblings apart and the last child highest.
proof fn lemma_detach_siblings<T>(n: Seq<Node<T>>, pos: Seq<nat>, x: int)
    requires
        links_ok(n, pos),
        0 <= x < n.len(),
    ensures
        siblings_ok(detach_spec(n, x), detach_pos(n, pos, x)),
{
    reveal(siblings_ok);
    let m = detach_spec(n, x);
    let q = detach_pos(n, pos, x);
    lemma_detach_fields(n, pos, x);
    assert(node_ok(n, pos, x));
    let parent = n[x].parent_link();
    let prev = n[x].prev_link();
    let next = n[x].next_link();
    if let Some(a) = prev {
        assert(node_ok(n, pos, a.0 as int));
    }
    assert forall|i: int, j: int|
        0 <= i < m.len() && 0 <= j < m.len() && (#[trigger] m[i].parent_link()) is Some
            && m[i].parent_link() == (#[trigger] m[j].parent_link()) && q[i] == q[j] implies i == j by {
        assert(n[i].parent_link() == m[i].parent_link());
        assert(n[j].parent_link() == m[j].parent_link());
        if n[i].parent_link() == parent {
            if pos[i] > pos[x] && pos[j] < pos[x] {
                assert(n[j].parent_link() == parent);
                assert(false);
            }
            if pos[j] > pos[x] && pos[i] < pos[x] {
                assert(false);
            }
            if pos[i] == pos[x] {
                assert(n[i].parent_link() == n[x].parent_link());
            }
            if pos[j] == pos[x] {
                assert(n[j].parent_link() == n[x].parent_link());
            }
        }
    }
    assert forall|i: int|
        0 <= i < m.len() implies ((#[trigger] m[i].parent_link()) matches Some(p) ==> (m[p.0 as int].last_link() matches Some(l)
            && q[i] <= q[l.0 as int])) by {
        if let Some(p) = m[i].parent_link() {
            assert(n[i].parent_link() == Some(p));
            assert(node_ok(n, pos, i));
            assert(node_ok(n, pos, p.0 as int));
            let l = n[p.0 as int].last_link()->0;
            assert(node_ok(n, pos, l.0 as int));
            assert(pos[i] <= pos[l.0 as int]);
            if parent == Some(p) {
                if l.0 as int == x {
                    assert(pos[i] != pos[x]);
                    if let Some(a) = prev {
                        assert(pos[a.0 as int] + 1 == pos[x]);
                    }
                } else {
                    assert(n[l.0 as int].parent_link() == n[x].parent_link());
                    if pos[l.0 as int] == pos[x] {
                        assert(false);
                    }
                }
            }
        }
    }
}

/// Detaching keeps the links consistent.
pub proof fn lemma_detach_ok<T>(n: Seq<Node<T>>, pos: Seq<nat>, x: int)
    requires
        links_ok(n, pos),
        0 <= x < n.len(),
    ensures
        links_ok(detach_spec(n, x), detach_pos(n, pos, x)),
        detach_spec(n, x).len() == n.len(),
{
    lemma_detach_fields(n, pos, x);
    lemma_detach_siblings(n, pos, x);
    let m = detach_spec(n, x);
    let q = detach_pos(n, pos, x);
    assert forall|i: int| 0 <= i < m.len() implies #[trigger] node_ok(m, q, i) by {
        lemma_detach_node_ok(n, pos, x, i);
    }
}

/// The links after the lone node `c` joins the children of `p`, between
/// the neighbours `a` and `b` (`None` at either end of the list).
pub open spec fn link_between<T>(
    n: Seq<Node<T>>,
    p: int,
    a: Option<Id>,
    b: Option<Id>,
    c: int,
) -> Seq<Node<T>> {
    let cid = Some(Id(c as usize));
    let n1 = with_next(with_prev(with_parent(n, c, Some(Id(p as usize))), c, a), c, b);
    let n2 = match a {
        Some(ai) => with_next(n1, ai.0 as int, cid),
        None => with_first(n1, p, cid),
    };
    match b {
        Some(bi) => with_prev(n2, bi.0 as int, cid),
        None => with_last(n2, p, cid),
    }
}

/// Sibling places after `c` joins the children of `p` just before `b`:
/// `b` and the siblings after it move down one.
pub open spec fn link_pos<T>(
    n: Seq<Node<T>>,
    pos: Seq<nat>,
    p: int,
    a: Option<Id>,
    b: Option<Id>,
    c: int,
) -> Seq<nat> {
    Seq::new(
        pos.len(),
        |j: int|
            if j == c {
                match a {
                    Some(ai) => pos[ai.0 as int] + 1,
                    None => 0,
                }
            } else if n[j].parent_link() == Some(Id(p as usize)) && (b matches Some(bi) && pos[j]
                >= pos[bi.0 as int]) {
                pos[j] + 1
            } else {
                pos[j]
            },
    )
}

/// `c` is a node of its own, and `a` and `b` are neighbours in the child
/// list of `p` (`None` standing for either end of it).
pub open spec fn gap_ok<T>(n: Seq<Node<T>>, p: int, a: Option<Id>, b: Option<Id>, c: int) -> bool {
    &&& 0 <= p < n.len()
    &&& 0 <= c < n.len()
    &&& c != p
    &&& in_range(n, a)
    &&& in_range(n, b)
    &&& n[c].parent_link() is None
    &&& n[c].prev_link() is None
    &&& n[c].next_link() is None
    &&& (a matches Some(ai) ==> n[ai.0 as int].parent_link() == Some(Id(p as usize))
        && n[ai.0 as int].next_link() == b)
    &&& (a is None ==> n[p].first_link() == b)
    &&& (b matches Some(bi) ==> n[bi.0 as int].parent_link() == Some(Id(p as usize))
        && n[bi.0 as int].prev_link() == a)
    &&& (b is None ==> n[p].last_link() == a)
}

/// Field by field, what `link_between` leaves in each node.
proof fn lemma_link_fields<T>(
    n: Seq<Node<T>>,
    pos: Seq<nat>,
    p: int,
    a: Option<Id>,
    b: Option<Id>,
    c: int,
)
    requires
        links_ok(n, pos),
        gap_ok(n, p, a, b, c),
    ensures
        ({
            let m = link_between(n, p, a, b, c);
            let cid = Some(Id(c as usize));
            &&& m.len() == n.len()
            &&& forall|j: int|
                0 <= j < n.len() ==> {
                    &&& (#[trigger] m[j]).value() == n[j].value()
                    &&& m[j].parent_link() == if j == c {
                        Some(Id(p as usize))
                    } else {
                        n[j].parent_link()
                    }
                    &&& m[j].prev_link() == if j == c {
                        a
                    } else if b == Some(Id(j as usize)) {
                        cid
                    } else {
                        n[j].prev_link()
                    }
                    &&& m[j].next_link() == if j == c {
                        b
                    } else if a == Some(Id(j as usize)) {
                        cid
                    } else {
                        n[j].next_link()
                    }
                    &&& m[j].first_link() == if j == p && a is None {
                        cid
                    } else {
                        n[j].first_link()
                    }
                    &&& m[j].last_link() == if j == p && b is None {
                        cid
                    } else {
                        n[j].last_link()
                    }
                }
        }),
{
    if let Some(ai) = a {
        assert(node_ok(n, pos, ai.0 as int));
    }
    if let Some(bi) = b {
        assert(node_ok(n, pos, bi.0 as int));
    }
    let cid = Some(Id(c as usize));
    let n1 = with_next(with_prev(with_parent(n, c, Some(Id(p as usize))), c, a), c, b);
    let n2 = match a {
        Some(ai) => with_next(n1, ai.0 as int, cid),
        None => with_first(n1, p, cid),
    };
    let m = link_between(n, p, a, b, c);
    assert forall|j: int| 0 <= j < n.len() implies #[trigger] n1[j] == (if j == c {
        Node { parent: Some(Id(p as usize)), previous_sibling: a, next_sibling: b, ..n[c] }
    } else {
        n[j]
    }) by {}
    assert(n2.len() == n.len());
    assert(m.len() == n.len());
}

/// Linking keeps node `i`'s links consistent.
#[verifier::rlimit(40)]
proof fn lemma_link_node_ok<T>(
    n: Seq<Node<T>>,
    pos: Seq<nat>,
    p: int,
    a: Option<Id>,
    b: Option<Id>,
    c: int,
    i: int,
)
    requires
        links_ok(n, pos),
        gap_ok(n, p, a, b, c),
        0 <= i < n.len(),
    ensures
        node_ok(link_between(n, p, a, b, c), link_pos(n, pos, p, a, b, c), i),
{
    lemma_link_fields(n, pos, p, a, b, c);
    assert(node_ok(n, pos, i));
    assert(node_ok(n, pos, c));
    assert(node_ok(n, pos, p));
    if let Some(ai) = a {
        assert(node_ok(n, pos, ai.0 as int));
    }
    if let Some(bi) = b {
        assert(node_ok(n, pos, bi.0 as int));
    }
    let y = n[i];
    if let Some(k) = y.first_link() {
        assert(node_ok(n, pos, k.0 as int));
    }
    if let Some(k) = y.last_link() {
        assert(node_ok(n, pos, k.0 as int));
    }
    if let Some(k) = y.next_link() {
        assert(node_ok(n, pos, k.0 as int));
        if let Some(bi) = b {
            if y.parent_link() == Some(Id(p as usize)) && pos[k.0 as int] == pos[bi.0 as int] {
                reveal(siblings_ok);
                assert(n[k.0 as int].parent_link() == n[bi.0 as int].parent_link());
            }
        }
    }
    if let Some(k) = y.prev_link() {
        assert(node_ok(n, pos, k.0 as int));
    }
    if let Some(k) = y.parent_link() {
        assert(node_ok(n, pos, k.0 as int));
    }
}

/// Linking keeps siblings apart and the last child highest.
proof fn lemma_link_siblings<T>(
    n: Seq<Node<T>>,
    pos: Seq<nat>,
    p: int,
    a: Option<Id>,
    b: Option<Id>,
    c: int,
)
    requires
        links_ok(n, pos),
        gap_ok(n, p, a, b, c),
    ensures
        siblings_ok(link_between(n, p, a, b, c), link_pos(n, pos, p, a, b, c)),
{
    reveal(siblings_ok);
    let m = link_between(n, p, a, b, c);
    let q = link_pos(n, pos, p, a, b, c);
    let pid = Some(Id(p as usize));
    lemma_link_fields(n, pos, p, a, b, c);
    assert(node_ok(n, pos, p));
    assert(node_ok(n, pos, c));
    if let Some(ai) = a {
        assert(node_ok(n, pos, ai.0 as int));
    }
    if let Some(bi) = b {
        assert(node_ok(n, pos, bi.0 as int));
    }
    assert forall|i: int, j: int|
        0 <= i < m.len() && 0 <= j < m.len() && (#[trigger] m[i].parent_link()) is Some
            && m[i].parent_link() == (#[trigger] m[j].parent_link()) && q[i] == q[j] implies i == j by {
        if i != c && j != c {
            assert(n[i].parent_link() == m[i].parent_link());
            assert(n[j].parent_link() == m[j].parent_link());
            if let Some(bi) = b {
                if m[i].parent_link() == pid && pos[i] >= pos[bi.0 as int] && pos[j] < pos[bi.0 as int] {
                    assert(false);
                }
                if m[i].parent_link() == pid && pos[j] >= pos[bi.0 as int] && pos[i] < pos[bi.0 as int] {
                    assert(false);
                }
            }
        } else if i == c && j != c {
            assert(n[j].parent_link() == pid);
            assert(node_ok(n, pos, j));
            match a {
                Some(ai) => {
                    match b {
                        Some(bi) => {
                            if pos[j] < pos[bi.0 as int] {
                                assert(pos[j] == pos[ai.0 as int] + 1);
                                assert(n[j].parent_link() == n[bi.0 as int].parent_link());
                            }
                        },
                        None => {
                            let l = n[p].last_link()->0;
                            assert(pos[j] <= pos[l.0 as int]);
                        },
                    }
                },
                None => {
                    if let Some(bi) = b {
                        assert(pos[bi.0 as int] == 0);
                    } else {
                        assert(n[p].last_link() is None);
                    }
                },
            }
        } else if j == c && i != c {
            assert(n[i].parent_link() == pid);
            assert(node_ok(n, pos, i));
            match a {
                Some(ai) => {
                    match b {
                        Some(bi) => {
                            if pos[i] < pos[bi.0 as int] {
                                assert(n[i].parent_link() == n[bi.0 as int].parent_link());
                            }
                        },
                        None => {
                            let l = n[p].last_link()->0;
                            assert(pos[i] <= pos[l.0 as int]);
                        },
                    }
                },
                None => {
                    if let Some(bi) = b {
                        assert(pos[bi.0 as int] == 0);
                    } else {
                        assert(n[p].last_link() is None);
                    }
                },
            }
        }
    }
    assert forall|i: int|
        0 <= i < m.len() implies ((#[trigger] m[i].parent_link()) matches Some(pp) ==> (m[pp.0 as int].last_link() matches Some(l)
            && q[i] <= q[l.0 as int])) by {
        if let Some(pp) = m[i].parent_link() {
            if i == c {
                match b {
                    Some(bi) => {
                        let l = n[p].last_link()->0;
                        assert(node_ok(n, pos, l.0 as int));
                        assert(pos[bi.0 as int] <= pos[l.0 as int]);
                    },
                    None => {},
                }
            } else {
                assert(node_ok(n, pos, i));
                assert(node_ok(n, pos, pp.0 as int));
                let l = n[pp.0 as int].last_link()->0;
                assert(node_ok(n, pos, l.0 as int));
                if pp.0 as int == p {
                    match b {
                        Some(bi) => {
                            assert(pos[bi.0 as int] <= pos[l.0 as int]);
                        },
                        None => {
                            if let Some(ai) = a {
                                assert(pos[i] <= pos[ai.0 as int]);
                            }
                        },
                    }
                }
            }
        }
    }
}

/// Linking keeps the links consistent.
pub proof fn lemma_link_ok<T>(
    n: Seq<Node<T>>,
    pos: Seq<nat>,
    p: int,
    a: Option<Id>,
    b: Option<Id>,
    c: int,
)
    requires
        links_ok(n, pos),
        gap_ok(n, p, a, b, c),
    ensures
        links_ok(link_between(n, p, a, b, c), link_pos(n, pos, p, a, b, c)),
{
    lemma_link_fields(n, pos, p, a, b, c);
    lemma_link_siblings(n, pos, p, a, b, c);
    let m = link_between(n, p, a, b, c);
    let q = link_pos(n, pos, p, a, b, c);
    assert forall|i: int| 0 <= i < m.len() implies #[trigger] node_ok(m, q, i) by {
        lemma_link_node_ok(n, pos, p, a, b, c, i);
    }
}

/// The links after `c` becomes the last child of `s`.
pub open spec fn append_spec<T>(n: Seq<Node<T>>, s: int, c: int) -> Seq<Node<T>> {
    let d = detach_spec(n, c);
    link_between(d, s, d[s].last_link(), None, c)
}

/// The links after `c` becomes the first child of `s`.
pub open spec fn prepend_spec<T>(n: Seq<Node<T>>, s: int, c: int) -> Seq<Node<T>> {
    let d = detach_spec(n, c);
    link_between(d, s, None, d[s].first_link(), c)
}

/// The links after `y` becomes the sibling just after `x`.
pub open spec fn insert_after_spec<T>(n: Seq<Node<T>>, x: int, y: int) -> Seq<Node<T>> {
    let d = detach_spec(n, y);
    link_between(d, d[x].parent_link().unwrap().0 as int, Some(Id(x as usize)), d[x].next_link(), y)
}

/// Sibling places after `c` becomes the last child of `s`.
pub open spec fn append_pos<T>(n: Seq<Node<T>>, pos: Seq<nat>, s: int, c: int) -> Seq<nat> {
    let d = detach_spec(n, c);
    link_pos(d, detach_pos(n, pos, c), s, d[s].last_link(), None, c)
}

/// Sibling places after `y` becomes the sibling just after `x`.
pub open spec fn insert_after_pos<T>(n: Seq<Node<T>>, pos: Seq<nat>, x: int, y: int) -> Seq<nat> {
    let d = detach_spec(n, y);
    link_pos(d, detach_pos(n, pos, y), d[x].parent_link().unwrap().0 as int, Some(Id(x as usize)), d[x].next_link(), y)
}

/// The links after `y` becomes the sibling just before `x`.
pub open spec fn insert_before_spec<T>(n: Seq<Node<T>>, x: int, y: int) -> Seq<Node<T>> {
    let d = detach_spec(n, y);
    link_between(d, d[x].parent_link().unwrap().0 as int, d[x].prev_link(), Some(Id(x as usize)), y)
}

impl<T> Arena<T> {
    /// Put the lone node `c` among the children of `p`, between `a` and `b`.
    fn link(&mut self, p: usize, a: Option<Id>, b: Option<Id>, c: usize)
        requires
            old(self).wf(),
            gap_ok(old(self).nodes(), p as int, a, b, c as int),
        ensures
            final(self).wf(),
            final(self).nodes() == link_between(old(self).nodes(), p as int, a, b, c as int),
            final(self).places() == link_pos(old(self).nodes(), old(self).places(), p as int, a, b, c as int),
    {
        proof {
            lemma_link_ok(self.nodes@, self.pos@, p as int, a, b, c as int);
            lemma_link_fields(self.nodes@, self.pos@, p as int, a, b, c as int);
        }
        let ghost new_pos = link_pos(self.nodes@, self.pos@, p as int, a, b, c as int);
        let cid = Some(Id(c));
        self.nodes[c].parent = Some(Id(p));
        self.nodes[c].previous_sibling = a;
        self.nodes[c].next_sibling = b;
        match a {
            Some(ai) => {
                self.nodes[ai.0].next_sibling = cid;
            },
            None => {
                self.nodes[p].first_child = cid;
            },
        }
        match b {
            Some(bi) => {
                self.nodes[bi.0].previous_sibling = cid;
            },
            None => {
                self.nodes[p].last_child = cid;
            },
        }
        self.pos = Ghost(new_pos);
        assert(self.nodes@ =~= link_between(old(self).nodes@, p as int, a, b, c as int));
    }
}

impl Id {
    /// Detach a node from its parent and siblings.  Children are not affected.
    pub fn detach<T>(self, arena: &mut Arena<T>)
        requires
            old(arena).wf(),
            self.0 < old(arena).nodes().len(),
        ensures
            final(arena).wf(),
            final(arena).nodes() == detach_spec(old(arena).nodes(), self.0 as int),
            final(arena).places() == detach_pos(old(arena).nodes(), old(arena).places(), self.0 as int),
    {
        let x = self.0;
        proof {
            assert(node_ok(arena.nodes@, arena.pos@, x as int));
            lemma_detach_ok(arena.nodes@, arena.pos@, x as int);
        }
        let ghost new_pos = detach_pos(arena.nodes@, arena.pos@, x as int);
        let parent = arena.nodes[x].parent;
        let prev = arena.nodes[x].previous_sibling;
        let next = arena.nodes[x].next_sibling;
        arena.nodes[x].parent = None;
        arena.nodes[x].previous_sibling = None;
        arena.nodes[x].next_sibling = None;
        match next {
            Some(b) => {
                arena.nodes[b.0].previous_sibling = prev;
            },
            None => {
                if let Some(p) = parent {
                    arena.nodes[p.0].last_child = prev;
                }
            },
        }
        match prev {
            Some(a) => {
                arena.nodes[a.0].next_sibling = next;
            },
            None => {
                if let Some(p) = parent {
                    arena.nodes[p.0].first_child = next;
                }
            },
        }
        arena.pos = Ghost(new_pos);
        assert(arena.nodes@ =~= detach_spec(old(arena).nodes@, x as int));
    }

    /// The parent node, unless this node is the root of the tree.
    pub fn parent<T>(self, arena: &Arena<T>) -> (r: Option<Id>)
        requires
            self.0 < arena.nodes().len(),
        ensures
            r == arena.nodes()[self.0 as int].parent_link(),
    {
        arena.nodes[self.0].parent
    }

    /// The first child of this node, unless it has no child.
    pub fn first_child<T>(self, arena: &Arena<T>) -> (r: Option<Id>)
        requires
            self.0 < arena.nodes().len(),
        ensures
            r == arena.nodes()[self.0 as int].first_link(),
    {
        arena.nodes[self.0].first_child
    }

    /// The last child of this node, unless it has no child.
    pub fn last_child<T>(self, arena: &Arena<T>) -> (r: Option<Id>)
        requires
            self.0 < arena.nodes().len(),
        ensures
            r == arena.nodes()[self.0 as int].last_link(),
    {
        arena.nodes[self.0].last_child
    }

    /// The previous sibling of this node, unless it is a first child.
    pub fn previous_sibling<T>(self, arena: &Arena<T>) -> (r: Option<Id>)
        requires
            self.0 < arena.nodes().len(),
        ensures
            r == arena.nodes()[self.0 as int].prev_link(),
    {
        arena.nodes[self.0].previous_sibling
    }

    /// The next sibling of this node, unless it is a last child.
    pub fn next_sibling<T>(self, arena: &Arena<T>) -> (r: Option<Id>)
        requires
            self.0 < arena.nodes().len(),
        ensures
            r == arena.nodes()[self.0 as int].next_link(),
    {
        arena.nodes[self.0].next_sibling
    }

    /// The data held by this node.
    pub fn data<T>(self, arena: &Arena<T>) -> (r: &T)
        requires
            self.0 < arena.nodes().len(),
        ensures
            *r == arena.nodes()[self.0 as int].value(),
    {
        &arena.nodes[self.0].data
    }

    /// The data held by this node, for change.
    pub fn data_mut<T>(self, arena: &mut Arena<T>) -> (r: &mut T)
        requires
            self.0 < old(arena).nodes().len(),
        ensures
            *r == old(arena).nodes()[self.0 as int].value(),
            final(arena).nodes() == with_value(old(arena).nodes(), self.0 as int, *final(r)),
            old(arena).wf() ==> final(arena).wf(),
            final(arena).places() == old(arena).places(),
    {
        proof {
            lemma_value_keeps_links(arena.nodes@, arena.pos@, self.0 as int);
            assert(forall|v: T|
                links_ok(arena.nodes@, arena.pos@) ==> #[trigger] links_ok(
                    with_value(arena.nodes@, self.0 as int, v),
                    arena.pos@,
                ));
        }
        &mut arena.nodes[self.0].data
    }

    /// Moves the siblings after this node, in order, to the end of the
    /// children of `wrapper`, a node with no parent and no children.  Each
    /// keeps its next sibling, and its place drops by one more than this
    /// node's; every other node keeps its parent.
    #[verifier::rlimit(60)]
    pub fn move_following_into<T>(self, arena: &mut Arena<T>, wrapper: Id)
        requires
            old(arena).wf(),
            self.0 < old(arena).nodes().len(),
            wrapper.0 < old(arena).nodes().len(),
            wrapper != self,
            old(arena).nodes()[self.0 as int].parent_link() is Some,
            old(arena).nodes()[wrapper.0 as int].parent_link() is None,
            old(arena).nodes()[wrapper.0 as int].first_link() is None,
        ensures
            final(arena).wf(),
            final(arena).nodes().len() == old(arena).nodes().len(),
            forall|j: int|
                0 <= j < old(arena).nodes().len() ==> (#[trigger] final(arena).nodes()[j]).value()
                    == old(arena).nodes()[j].value(),
            final(arena).nodes()[self.0 as int].next_link() is None,
            forall|j: int|
                0 <= j < old(arena).nodes().len() ==> if follows(
                    old(arena).nodes(),
                    old(arena).places(),
                    self.0 as int,
                    j,
                ) {
                    &&& (#[trigger] final(arena).nodes()[j]).parent_link() == Some(wrapper)
                    &&& final(arena).places()[j] == old(arena).places()[j] - old(arena).places()[self.0 as int] - 1
                    &&& final(arena).nodes()[j].next_link() == old(arena).nodes()[j].next_link()
                } else {
                    final(arena).nodes()[j].parent_link() == old(arena).nodes()[j].parent_link()
                },
    {
        let ghost o = arena.nodes@;
        let ghost q0 = arena.pos@;
        let ghost x = self.0 as int;
        let ghost w = wrapper.0 as int;
        let ghost po = q0[x] as int;
        let ghost p = o[x].parent_link()->0;
        proof {
            reveal(siblings_ok);
            assert(node_ok(o, q0, x));
            assert(node_ok(o, q0, w));
            assert(node_ok(o, q0, p.0 as int));
        }
        let ghost l = o[p.0 as int].last_link()->0;
        let ghost mut k: int = 0;
        let mut next = self.next_sibling(arena);
        while next.is_some()
            invariant
                arena.wf(),
                arena.nodes@.len() == o.len(),
                links_ok(o, q0),
                0 <= x < o.len(),
                0 <= w < o.len(),
                w != x,
                x == self.0,
                w == wrapper.0,
                o[x].parent_link() == Some(p),
                p.0 < o.len(),
                w != p.0,
                o[w].parent_link() is None,
                po == q0[x],
                o[p.0 as int].last_link() == Some(l),
                l.0 < o.len(),
                0 <= k <= q0[l.0 as int] - po,
                next == arena.nodes@[x].next_link(),
                forall|j: int| 0 <= j < o.len() ==> (#[trigger] arena.nodes@[j]).value() == o[j].value(),
                arena.nodes@[x].parent_link() == Some(p),
                arena.pos@[x] == po,
                arena.nodes@[w].parent_link() is None,
                forall|j: int|
                    0 <= j < o.len() && follows(o, q0, x, j) && q0[j] <= po + k ==> {
                        &&& (#[trigger] arena.nodes@[j]).parent_link() == Some(wrapper)
                        &&& arena.pos@[j] == q0[j] - po - 1
                        &&& arena.nodes@[j].next_link() == if q0[j] == po + k {
                            None
                        } else {
                            o[j].next_link()
                        }
                    },
                forall|j: int|
                    0 <= j < o.len() && follows(o, q0, x, j) && q0[j] > po + k ==> {
                        &&& (#[trigger] arena.nodes@[j]).parent_link() == Some(p)
                        &&& arena.pos@[j] == q0[j] - k
                        &&& arena.nodes@[j].next_link() == o[j].next_link()
                    },
                forall|j: int|
                    0 <= j < o.len() && !follows(o, q0, x, j) ==> {
                        &&& (#[trigger] arena.nodes@[j]).parent_link() == o[j].parent_link()
                        &&& (o[j].parent_link() == Some(p) ==> arena.pos@[j] == q0[j])
                    },
                k == 0 ==> arena.nodes@[w].last_link() is None,
                k > 0 ==> (arena.nodes@[w].last_link() matches Some(lw) && lw.0 < o.len() && follows(
                    o,
                    q0,
                    x,
                    lw.0 as int,
                ) && q0[lw.0 as int] == po + k),
            decreases q0[l.0 as int] - po - k,
        {
            let it = next.unwrap();
            let ghost n = arena.nodes@;
            let ghost q = arena.pos@;
            let ghost c = it.0 as int;
            proof {
                reveal(siblings_ok);
                assert(node_ok(n, q, x));
                assert(c < o.len());
                assert(n[c].parent_link() == Some(p));
                assert(q[c] == po + 1);
                if !follows(o, q0, x, c) {
                    assert(o[c].parent_link() == Some(p));
                    assert(q[c] == q0[c]);
                    assert(false);
                }
                assert(follows(o, q0, x, c));
                assert(q0[c] == po + k + 1);
                assert(o[c].parent_link() == Some(p));
                assert(q0[c] <= q0[l.0 as int]);
                if k > 0 {
                    let lw = n[w].last_link()->0;
                    assert(node_ok(o, q0, lw.0 as int));
                    if o[lw.0 as int].next_link() is None {
                        assert(l == lw);
                        assert(false);
                    }
                    let s2 = o[lw.0 as int].next_link()->0;
                    assert(o[s2.0 as int].parent_link() == Some(p));
                    assert(q0[s2.0 as int] == q0[c]);
                    assert(s2.0 as int == c);
                }
                lemma_detach_ok(n, q, c);
                lemma_detach_fields(n, q, c);
                let d = detach_spec(n, c);
                let dq = detach_pos(n, q, c);
                assert(node_ok(d, dq, w));
                let a = d[w].last_link();
                if let Some(ai) = a {
                    assert(node_ok(d, dq, ai.0 as int));
                }
                lemma_link_fields(d, dq, w, a, None, c);
            }
            wrapper.append(arena, it);
            proof {
                k = k + 1;
                let m = arena.nodes@;
                let mq = arena.pos@;
                assert forall|j: int|
                    0 <= j < o.len() && follows(o, q0, x, j) && q0[j] <= po + k implies {
                        &&& (#[trigger] m[j]).parent_link() == Some(wrapper)
                        &&& mq[j] == q0[j] - po - 1
                        &&& m[j].next_link() == if q0[j] == po + k {
                            None
                        } else {
                            o[j].next_link()
                        }
                    } by {
                    if j != c {
                        assert(n[j].parent_link() == Some(wrapper));
                    }
                }
                assert forall|j: int|
                    0 <= j < o.len() && follows(o, q0, x, j) && q0[j] > po + k implies {
                        &&& (#[trigger] m[j]).parent_link() == Some(p)
                        &&& mq[j] == q0[j] - k
                        &&& m[j].next_link() == o[j].next_link()
                    } by {
                    assert(n[j].parent_link() == Some(p));
                    assert(j != c);
                }
                assert forall|j: int|
                    0 <= j < o.len() && !follows(o, q0, x, j) implies {
                        &&& (#[trigger] m[j]).parent_link() == o[j].parent_link()
                        &&& (o[j].parent_link() == Some(p) ==> mq[j] == q0[j])
                    } by {
                    assert(j != c);
                }
            }
            next = self.next_sibling(arena);
        }
        proof {
            reveal(siblings_ok);
            let n = arena.nodes@;
            let q = arena.pos@;
            assert(node_ok(n, q, x));
            assert forall|j: int| 0 <= j < o.len() && follows(o, q0, x, j) implies q0[j] <= po + k by {
                if q0[j] > po + k {
                    assert(n[j].parent_link() == Some(p));
                    assert(n[p.0 as int].last_link() == Some(self));
                    assert(q[j] <= q[x]);
                }
            }
            assert forall|j: int| 0 <= j < o.len() && follows(o, q0, x, j) && q0[j] == po + k
                implies o[j].next_link() is None by {
                assert(node_ok(o, q0, j));
                if o[j].next_link() is Some {
                    let s2 = o[j].next_link()->0;
                    assert(follows(o, q0, x, s2.0 as int));
                }
            }
        }
    }

    /// Append a new child to this node, after existing children.
    pub fn append<T>(self, arena: &mut Arena<T>, new_child: Id)
        requires
            old(arena).wf(),
            self.0 < old(arena).nodes().len(),
            new_child.0 < old(arena).nodes().len(),
            new_child != self,
        ensures
            final(arena).wf(),
            final(arena).nodes() == append_spec(old(arena).nodes(), self.0 as int, new_child.0 as int),
            final(arena).places() == append_pos(old(arena).nodes(), old(arena).places(), self.0 as int, new_child.0 as int),
    {
        proof {
            lemma_detach_fields(arena.nodes@, arena.pos@, new_child.0 as int);
        }
        new_child.detach(arena);
        let s = self.0;
        proof {
            assert(node_ok(arena.nodes@, arena.pos@, s as int));
        }
        let a = arena.nodes[s].last_child;
        arena.link(s, a, None, new_child.0);
    }

    /// Prepend a new child to this node, before existing children.
    pub fn prepend<T>(self, arena: &mut Arena<T>, new_child: Id)
        requires
            old(arena).wf(),
            self.0 < old(arena).nodes().len(),
            new_child.0 < old(arena).nodes().len(),
            new_child != self,
        ensures
            final(arena).wf(),
            final(arena).nodes() == prepend_spec(old(arena).nodes(), self.0 as int, new_child.0 as int),
    {
        proof {
            lemma_detach_fields(arena.nodes@, arena.pos@, new_child.0 as int);
        }
        new_child.detach(arena);
        let s = self.0;
        proof {
            assert(node_ok(arena.nodes@, arena.pos@, s as int));
        }
        let b = arena.nodes[s].first_child;
        proof {
            if let Some(bi) = b {
                assert(node_ok(arena.nodes@, arena.pos@, bi.0 as int));
            }
        }
        arena.link(s, None, b, new_child.0);
    }

    /// Insert a new sibling after this node, which must have a parent.
    pub fn insert_after<T>(self, arena: &mut Arena<T>, new_sibling: Id)
        requires
            old(arena).wf(),
            self.0 < old(arena).nodes().len(),
            new_sibling.0 < old(arena).nodes().len(),
            new_sibling != self,
            old(arena).nodes()[self.0 as int].parent_link() is Some,
            old(arena).nodes()[self.0 as int].parent_link() != Some(new_sibling),
        ensures
            final(arena).wf(),
            final(arena).nodes() == insert_after_spec(old(arena).nodes(), self.0 as int, new_sibling.0 as int),
            final(arena).places() == insert_after_pos(old(arena).nodes(), old(arena).places(), self.0 as int, new_sibling.0 as int),
    {
        proof {
            lemma_detach_fields(arena.nodes@, arena.pos@, new_sibling.0 as int);
        }
        new_sibling.detach(arena);
        let x = self.0;
        proof {
            assert(node_ok(arena.nodes@, arena.pos@, x as int));
        }
        let p = arena.nodes[x].parent.unwrap();
        let b = arena.nodes[x].next_sibling;
        proof {
            if let Some(bi) = b {
                assert(node_ok(arena.nodes@, arena.pos@, bi.0 as int));
            }
        }
        arena.link(p.0, Some(self), b, new_sibling.0);
    }

    /// Insert a new sibling before this node, which must have a parent.
    pub fn insert_before<T>(self, arena: &mut Arena<T>, new_sibling: Id)
        requires
            old(arena).wf(),
            self.0 < old(arena).nodes().len(),
            new_sibling.0 < old(arena).nodes().len(),
            new_sibling != self,
            old(arena).nodes()[self.0 as int].parent_link() is Some,
            old(arena).nodes()[self.0 as int].parent_link() != Some(new_sibling),
        ensures
            final(arena).wf(),
            final(arena).nodes() == insert_before_spec(old(arena).nodes(), self.0 as int, new_sibling.0 as int),
    {
        proof {
            lemma_detach_fields(arena.nodes@, arena.pos@, new_sibling.0 as int);
        }
        new_sibling.detach(arena);
        let x = self.0;
        proof {
            assert(node_ok(arena.nodes@, arena.pos@, x as int));
        }
        let p = arena.nodes[x].parent.unwrap();
        let a = arena.nodes[x].previous_sibling;
        proof {
            if let Some(ai) = a {
                assert(node_ok(arena.nodes@, arena.pos@, ai.0 as int));
            }
        }
        arena.link(p.0, a, Some(self), new_sibling.0);
    }
}

/// Detaching leaves the node with no parent and no siblings, keeps its
/// children, and changes no node's data.
pub proof fn lemma_detach_unlinks<T>(arena: Arena<T>, x: Id)
    requires
        arena.wf(),
        x.0 < arena.nodes().len(),
    ensures
        ({
            let n = arena.nodes();
            let m = detach_spec(n, x.0 as int);
            &&& m.len() == n.len()
            &&& m[x.0 as int].parent_link() is None
            &&& m[x.0 as int].prev_link() is None
            &&& m[x.0 as int].next_link() is None
            &&& m[x.0 as int].first_link() == n[x.0 as int].first_link()
            &&& m[x.0 as int].last_link() == n[x.0 as int].last_link()
            &&& forall|j: int| 0 <= j < n.len() ==> (#[trigger] m[j]).value() == n[j].value()
            &&& forall|j: int|
                0 <= j < n.len() && j != x.0 ==> (#[trigger] m[j]).parent_link() == n[j].parent_link()
            &&& forall|j: int|
                0 <= j < n.len() && n[x.0 as int].parent_link() != Some(Id(j as usize)) ==> (
                #[trigger] m[j]).first_link() == n[j].first_link() && m[j].last_link()
                    == n[j].last_link()
            &&& n[x.0 as int].parent_link() is None ==> m == n
            &&& forall|j: int|
                0 <= j < n.len() && j != x.0 && n[x.0 as int].prev_link() != Some(Id(j as usize))
                    ==> (#[trigger] m[j]).next_link() == n[j].next_link()
        }),
{
    lemma_detach_fields(arena.nodes@, arena.pos@, x.0 as int);
    assert(node_ok(arena.nodes@, arena.pos@, x.0 as int));
    let n = arena.nodes@;
    let m = detach_spec(n, x.0 as int);
    if n[x.0 as int].parent_link() is None {
        assert(m =~= n);
    }
}

/// Appending makes the new child the last child of the node, after the
/// children it had, and changes no node's data.
pub proof fn lemma_append_places_last<T>(arena: Arena<T>, s: Id, c: Id)
    requires
        arena.wf(),
        s.0 < arena.nodes().len(),
        c.0 < arena.nodes().len(),
        c != s,
    ensures
        ({
            let n = arena.nodes();
            let d = detach_spec(n, c.0 as int);
            let m = append_spec(n, s.0 as int, c.0 as int);
            &&& m.len() == n.len()
            &&& m[c.0 as int].parent_link() == Some(s)
            &&& m[s.0 as int].last_link() == Some(c)
            &&& m[c.0 as int].next_link() is None
            &&& m[c.0 as int].prev_link() == d[s.0 as int].last_link()
            &&& (d[s.0 as int].last_link() matches Some(l) ==> m[l.0 as int].next_link() == Some(c))
            &&& forall|j: int| 0 <= j < n.len() ==> (#[trigger] m[j]).value() == n[j].value()
            &&& forall|j: int|
                0 <= j < n.len() && j != c.0 ==> (#[trigger] m[j]).parent_link() == n[j].parent_link()
            &&& (n[s.0 as int].parent_link() is None ==> m[s.0 as int].prev_link() == n[s.0 as int].prev_link()
                && m[s.0 as int].next_link() == n[s.0 as int].next_link())
        }),
{
    let n = arena.nodes@;
    let pos = arena.pos@;
    lemma_detach_ok(n, pos, c.0 as int);
    lemma_detach_fields(n, pos, c.0 as int);
    let d = detach_spec(n, c.0 as int);
    let q = detach_pos(n, pos, c.0 as int);
    assert(node_ok(d, q, s.0 as int));
    let a = d[s.0 as int].last_link();
    if let Some(ai) = a {
        assert(node_ok(d, q, ai.0 as int));
    }
    lemma_link_fields(d, q, s.0 as int, a, None, c.0 as int);
    let m = append_spec(n, s.0 as int, c.0 as int);
    assert forall|j: int|
        0 <= j < n.len() && j != c.0 implies (#[trigger] m[j]).parent_link() == n[j].parent_link() by {
        assert(m[j].value() == d[j].value());
        assert(d[j].value() == n[j].value());
    }
    assert(node_ok(n, pos, c.0 as int));
    assert(m[s.0 as int].value() == d[s.0 as int].value());
    assert(d[s.0 as int].value() == n[s.0 as int].value());
}

/// Detaching a node just appended puts every link back as it was once the
/// node had been detached from its old place: append is undone by detach.
pub proof fn lemma_detach_undoes_append<T>(arena: Arena<T>, s: Id, c: Id)
    requires
        arena.wf(),
        s.0 < arena.nodes().len(),
        c.0 < arena.nodes().len(),
        c != s,
    ensures
        detach_spec(append_spec(arena.nodes(), s.0 as int, c.0 as int), c.0 as int) == detach_spec(
            arena.nodes(),
            c.0 as int,
        ),
{
    let n = arena.nodes@;
    let pos = arena.pos@;
    lemma_detach_ok(n, pos, c.0 as int);
    lemma_detach_fields(n, pos, c.0 as int);
    let d = detach_spec(n, c.0 as int);
    let q = detach_pos(n, pos, c.0 as int);
    assert(node_ok(d, q, s.0 as int));
    let a = d[s.0 as int].last_link();
    if let Some(ai) = a {
        assert(node_ok(d, q, ai.0 as int));
    }
    lemma_link_fields(d, q, s.0 as int, a, None, c.0 as int);
    lemma_link_ok(d, q, s.0 as int, a, None, c.0 as int);
    let m = link_between(d, s.0 as int, a, None, c.0 as int);
    let mq = link_pos(d, q, s.0 as int, a, None, c.0 as int);
    lemma_detach_fields(m, mq, c.0 as int);
    let r = detach_spec(m, c.0 as int);
    assert forall|j: int| 0 <= j < n.len() implies #[trigger] r[j] == d[j] by {
        assert(r[j].parent_link() == d[j].parent_link());
        assert(r[j].prev_link() == d[j].prev_link());
        assert(r[j].next_link() == d[j].next_link());
        assert(r[j].first_link() == d[j].first_link());
        assert(r[j].last_link() == d[j].last_link());
        assert(r[j].value() == d[j].value());
    }
    assert(r =~= d);
}

/// Prepending makes the new child the first child of the node, before the
/// children it had, and changes no node's data.
pub proof fn lemma_prepend_places_first<T>(arena: Arena<T>, s: Id, c: Id)
    requires
        arena.wf(),
        s.0 < arena.nodes().len(),
        c.0 < arena.nodes().len(),
        c != s,
    ensures
        ({
            let n = arena.nodes();
            let d = detach_spec(n, c.0 as int);
            let m = prepend_spec(n, s.0 as int, c.0 as int);
            &&& m.len() == n.len()
            &&& m[c.0 as int].parent_link() == Some(s)
            &&& m[s.0 as int].first_link() == Some(c)
            &&& m[c.0 as int].prev_link() is None
            &&& m[c.0 as int].next_link() == d[s.0 as int].first_link()
            &&& (d[s.0 as int].first_link() matches Some(f) ==> m[f.0 as int].prev_link() == Some(c))
            &&& forall|j: int| 0 <= j < n.len() ==> (#[trigger] m[j]).value() == n[j].value()
        }),
{
    let n = arena.nodes@;
    let pos = arena.pos@;
    lemma_detach_ok(n, pos, c.0 as int);
    lemma_detach_fields(n, pos, c.0 as int);
    let d = detach_spec(n, c.0 as int);
    let q = detach_pos(n, pos, c.0 as int);
    assert(node_ok(d, q, s.0 as int));
    let b = d[s.0 as int].first_link();
    if let Some(bi) = b {
        assert(node_ok(d, q, bi.0 as int));
    }
    lemma_link_fields(d, q, s.0 as int, None, b, c.0 as int);
}

/// Inserting after a node makes the new sibling its next sibling, under the
/// same parent, and changes no node's data.
pub proof fn lemma_insert_after_places_next<T>(arena: Arena<T>, x: Id, y: Id)
    requires
        arena.wf(),
        x.0 < arena.nodes().len(),
        y.0 < arena.nodes().len(),
        y != x,
        arena.nodes()[x.0 as int].parent_link() is Some,
        arena.nodes()[x.0 as int].parent_link() != Some(y),
    ensures
        ({
            let n = arena.nodes();
            let m = insert_after_spec(n, x.0 as int, y.0 as int);
            &&& m.len() == n.len()
            &&& m[x.0 as int].next_link() == Some(y)
            &&& m[y.0 as int].prev_link() == Some(x)
            &&& m[y.0 as int].parent_link() == n[x.0 as int].parent_link()
            &&& m[x.0 as int].parent_link() == n[x.0 as int].parent_link()
            &&& forall|j: int| 0 <= j < n.len() ==> (#[trigger] m[j]).value() == n[j].value()
            &&& forall|j: int|
                0 <= j < n.len() && j != y.0 ==> (#[trigger] m[j]).parent_link() == n[j].parent_link()
            &&& m[y.0 as int].first_link() == n[y.0 as int].first_link()
            &&& m[y.0 as int].last_link() == n[y.0 as int].last_link()
        }),
{
    let n = arena.nodes@;
    let pos = arena.pos@;
    lemma_detach_ok(n, pos, y.0 as int);
    lemma_detach_fields(n, pos, y.0 as int);
    let d = detach_spec(n, y.0 as int);
    let q = detach_pos(n, pos, y.0 as int);
    assert(node_ok(d, q, x.0 as int));
    assert(node_ok(n, pos, y.0 as int));
    let p = d[x.0 as int].parent_link().unwrap().0 as int;
    let b = d[x.0 as int].next_link();
    if let Some(bi) = b {
        assert(node_ok(d, q, bi.0 as int));
    }
    lemma_link_fields(d, q, p, Some(x), b, y.0 as int);
    let m = insert_after_spec(n, x.0 as int, y.0 as int);
    assert forall|j: int|
        0 <= j < n.len() && j != y.0 implies (#[trigger] m[j]).parent_link() == n[j].parent_link() by {
        assert(m[j].value() == d[j].value());
        assert(d[j].value() == n[j].value());
    }
    assert(m[y.0 as int].value() == d[y.0 as int].value());
    assert(d[y.0 as int].value() == n[y.0 as int].value());
}

/// Inserting before a node makes the new sibling its previous sibling,
/// under the same parent, and changes no node's data.
pub proof fn lemma_insert_before_places_prev<T>(arena: Arena<T>, x: Id, y: Id)
    requires
        arena.wf(),
        x.0 < arena.nodes().len(),
        y.0 < arena.nodes().len(),
        y != x,
        arena.nodes()[x.0 as int].parent_link() is Some,
        arena.nodes()[x.0 as int].parent_link() != Some(y),
    ensures
        ({
            let n = arena.nodes();
            let m = insert_before_spec(n, x.0 as int, y.0 as int);
            &&& m.len() == n.len()
            &&& m[x.0 as int].prev_link() == Some(y)
            &&& m[y.0 as int].next_link() == Some(x)
            &&& m[y.0 as int].parent_link() == n[x.0 as int].parent_link()
            &&& m[x.0 as int].parent_link() == n[x.0 as int].parent_link()
            &&& forall|j: int| 0 <= j < n.len() ==> (#[trigger] m[j]).value() == n[j].value()
            &&& forall|j: int|
                0 <= j < n.len() && j != y.0 ==> (#[trigger] m[j]).parent_link() == n[j].parent_link()
            &&& forall|j: int|
                0 <= j < n.len() && j != y.0 && n[y.0 as int].prev_link() != Some(Id(j as usize))
                    && n[x.0 as int].prev_link() != Some(Id(j as usize)) ==> (#[trigger] m[j]).next_link()
                    == n[j].next_link()
        }),
{
    let n = arena.nodes@;
    let pos = arena.pos@;
    lemma_detach_ok(n, pos, y.0 as int);
    lemma_detach_fields(n, pos, y.0 as int);
    let d = detach_spec(n, y.0 as int);
    let q = detach_pos(n, pos, y.0 as int);
    assert(node_ok(d, q, x.0 as int));
    let p = d[x.0 as int].parent_link().unwrap().0 as int;
    let a = d[x.0 as int].prev_link();
    if let Some(ai) = a {
        assert(node_ok(d, q, ai.0 as int));
    }
    lemma_link_fields(d, q, p, a, Some(x), y.0 as int);
    let m = insert_before_spec(n, x.0 as int, y.0 as int);
    assert forall|j: int|
        0 <= j < n.len() && j != y.0 implies (#[trigger] m[j]).parent_link() == n[j].parent_link() by {
        assert(m[j].value() == d[j].value());
        assert(d[j].value() == n[j].value());
    }
}


/// Places count siblings from zero: a next sibling sits one place further
/// on, no two children of a parent share a place, and a node with a later
/// sibling has a next sibling.
pub proof fn lemma_places<T>(arena: Arena<T>, x: Id)
    requires
        arena.wf(),
        x.0 < arena.nodes().len(),
    ensures
        arena.places().len() == arena.nodes().len(),
        ({
            let n = arena.nodes();
            let q = arena.places();
            let i = x.0 as int;
            &&& n[i].next_link() matches Some(s) ==> s.0 < n.len() && q[s.0 as int] == q[i] + 1
                && n[s.0 as int].parent_link() == n[i].parent_link()
            &&& n[i].prev_link() matches Some(s) ==> s.0 < n.len() && q[i] == q[s.0 as int] + 1
                && n[s.0 as int].parent_link() == n[i].parent_link()
            &&& n[i].prev_link() is None ==> q[i] == 0
            &&& n[i].parent_link() matches Some(p) ==> p.0 < n.len() && p != x
            &&& n[i].parent_link() is None ==> n[i].prev_link() is None && n[i].next_link() is None
            &&& forall|j: int|
                0 <= j < n.len() && n[i].parent_link() is Some && #[trigger] n[j].parent_link()
                    == n[i].parent_link() && q[j] == q[i] ==> j == i
            &&& forall|j: int|
                0 <= j < n.len() && n[i].parent_link() is Some && #[trigger] n[j].parent_link()
                    == n[i].parent_link() && q[i] < q[j] ==> n[i].next_link() is Some
        }),
{
    let n = arena.nodes@;
    let pos = arena.pos@;
    let i = x.0 as int;
    assert(node_ok(n, pos, i));
    if let Some(s) = n[i].prev_link() {
        assert(node_ok(n, pos, s.0 as int));
    }
    reveal(siblings_ok);
    assert forall|j: int|
        0 <= j < n.len() && n[i].parent_link() is Some && #[trigger] n[j].parent_link()
            == n[i].parent_link() && pos[i] < pos[j] implies n[i].next_link() is Some by {
        if n[i].next_link() is None {
            let p = n[i].parent_link()->0;
            assert(n[p.0 as int].last_link() == Some(x));
        }
    }
}
/// An arena of tree nodes.
pub struct Arena<T> {
    nodes: Vec<Node<T>>,
    pos: Ghost<Seq<nat>>,
}

impl<T> Arena<T> {
    /// The nodes of the arena, in the order they were allocated.
    pub closed spec fn nodes(&self) -> Seq<Node<T>> {
        self.nodes@
    }

    /// Each node's place among its siblings, counting from zero.
    pub closed spec fn places(&self) -> Seq<nat> {
        self.pos@
    }

    /// The links of the arena's nodes agree with each other.
    pub closed spec fn wf(&self) -> bool {
        links_ok(self.nodes@, self.pos@)
    }

    /// An empty arena.
    pub fn new() -> (r: Arena<T>)
        ensures
            r.wf(),
            r.nodes().len() == 0,
    {
        let r = Arena { nodes: Vec::new(), pos: Ghost(Seq::empty()) };
        proof {
            reveal(siblings_ok);
        }
        r
    }

    /// The number of nodes in the arena.
    pub fn len(&self) -> (r: usize)
        ensures
            r == self.nodes().len(),
    {
        self.nodes.len()
    }

    /// Move `data` into the arena as a new node of its own, with no parent,
    /// siblings or children.
    pub fn new_node(&mut self, data: T) -> (r: Id)
        requires
            old(self).wf(),
            old(self).nodes().len() < usize::MAX,
        ensures
            final(self).wf(),
            r.0 == old(self).nodes().len(),
            final(self).nodes().len() == old(self).nodes().len() + 1,
            forall|j: int| 0 <= j < old(self).nodes().len() ==> final(self).nodes()[j] == old(self).nodes()[j],
            final(self).nodes()[r.0 as int].parent_link() is None,
            final(self).nodes()[r.0 as int].prev_link() is None,
            final(self).nodes()[r.0 as int].next_link() is None,
            final(self).nodes()[r.0 as int].first_link() is None,
            final(self).nodes()[r.0 as int].last_link() is None,
            final(self).nodes()[r.0 as int].value() == data,
            final(self).places() == old(self).places().push(0),
    {
        let id = Id(self.nodes.len());
        self.nodes.push(Node::new(data));
        self.pos = Ghost(self.pos@.push(0));
        proof {
            let n = self.nodes@;
            let pos = self.pos@;
            assert forall|i: int| 0 <= i < n.len() implies #[trigger] node_ok(n, pos, i) by {
                if i < n.len() - 1 {
                    assert(node_ok(old(self).nodes@, old(self).pos@, i));
                }
            }
            reveal(siblings_ok);
            let o = old(self).nodes@;
            let op = old(self).pos@;
            assert(n[n.len() - 1].parent_link() is None);
            assert forall|i: int, j: int|
                0 <= i < n.len() && 0 <= j < n.len() && (#[trigger] n[i].parent_link()) is Some
                    && n[i].parent_link() == (#[trigger] n[j].parent_link()) && pos[i] == pos[j] implies i == j by {
                assert(i < o.len() && j < o.len());
                assert(o[i].parent_link() == n[i].parent_link());
                assert(o[j].parent_link() == n[j].parent_link());
            }
            assert forall|i: int|
                0 <= i < n.len() implies ((#[trigger] n[i].parent_link()) matches Some(p) ==> (n[p.0 as int].last_link() matches Some(l)
                    && pos[i] <= pos[l.0 as int])) by {
                if let Some(p) = n[i].parent_link() {
                    assert(i < o.len());
                    assert(o[i].parent_link() == n[i].parent_link());
                    assert(node_ok(o, op, i));
                    assert(node_ok(o, op, p.0 as int));
                    assert(n[p.0 as int] == o[p.0 as int]);
                    let l = o[p.0 as int].last_link()->0;
                    assert(pos[l.0 as int] == op[l.0 as int]);
                    assert(pos[i] == op[i]);
                }
            }
        }
        id
    }

    /// The node at `id`.
    pub fn get(&self, id: Id) -> (r: &Node<T>)
        requires
            id.0 < self.nodes().len(),
        ensures
            *r == self.nodes()[id.0 as int],
    {
        &self.nodes[id.0]
    }
}

} // verus!

verus! {

/// Indicator if the node is at a start or endpoint of the tree.
#[derive(Debug, Clone, Copy, PartialEq, Eq, Structural)]
pub enum NodeEdge<T> {
    /// Indicates that start of a node that has children.
    /// Yielded by `Traverse::next` before the node's descendants.
    /// In HTML or XML, this corresponds to an opening tag like `<div>`.
    Start(T),
    /// Indicates that end of a node that has children.
    /// Yielded by `Traverse::next` after the node's descendants.
    /// In HTML or XML, this corresponds to a closing tag like `</div>`.
    End(T),
}

/// The node an edge belongs to.
pub open spec fn edge_node(e: NodeEdge<Id>) -> Id {
    match e {
        NodeEdge::Start(id) => id,
        NodeEdge::End(id) => id,
    }
}

/// The edge a walk over the subtree of `root` visits after `item`: in tree
/// order, or with `reverse` in reverse tree order.  Past the end of a node
/// other than `root` the walk moves on to its next sibling, else to the end
/// of its parent; `None` only after the end of `root`.
pub open spec fn traverse_step<T>(
    n: Seq<Node<T>>,
    root: Id,
    item: NodeEdge<Id>,
    reverse: bool,
) -> Option<NodeEdge<Id>> {
    match item {
        NodeEdge::Start(id) => {
            let down = if reverse {
                n[id.0 as int].last_link()
            } else {
                n[id.0 as int].first_link()
            };
            match down {
                Some(child) => Some(NodeEdge::Start(child)),
                None => Some(NodeEdge::End(id)),
            }
        },
        NodeEdge::End(id) => {
            if id == root {
                None
            } else {
                let across = if reverse {
                    n[id.0 as int].prev_link()
                } else {
                    n[id.0 as int].next_link()
                };
                match across {
                    Some(sibling) => Some(NodeEdge::Start(sibling)),
                    None => match n[id.0 as int].parent_link() {
                        Some(parent) => Some(NodeEdge::End(parent)),
                        None => None,
                    },
                }
            }
        },
    }
}

/// A walk can take its next step from `next`: the node it names is in the
/// arena, and the end of a node other than `root` is never the end of a
/// node without parent or sibling to move on to (the tree was not changed
/// under the walk).
pub open spec fn can_step<T>(
    n: Seq<Node<T>>,
    root: Id,
    next: Option<NodeEdge<Id>>,
    reverse: bool,
) -> bool {
    match next {
        None => true,
        Some(e) => {
            &&& edge_node(e).0 < n.len()
            &&& (e matches NodeEdge::End(id) ==> (id == root || (if reverse {
                n[id.0 as int].prev_link()
            } else {
                n[id.0 as int].next_link()
            }) is Some || n[id.0 as int].parent_link() is Some))
        },
    }
}

/// The node `k` steps up the parent chain from `x`, if there is one.
pub open spec fn ancestor_at<T>(n: Seq<Node<T>>, x: Id, k: nat) -> Option<Id>
    decreases k,
{
    if x.0 >= n.len() {
        None
    } else if k == 0 {
        Some(x)
    } else {
        match n[x.0 as int].parent_link() {
            Some(p) => ancestor_at(n, p, (k - 1) as nat),
            None => None,
        }
    }
}

/// `x` lies in the subtree of `root` (`root` itself included).
pub open spec fn under<T>(n: Seq<Node<T>>, x: Id, root: Id) -> bool {
    exists|k: nat| ancestor_at(n, x, k) == Some(root)
}

/// A walk of `root`'s subtree over well-formed links: its next edge, if
/// any, belongs to a node in that subtree.
pub open spec fn walk_ok<T>(arena: &Arena<T>, root: Id, next: Option<NodeEdge<Id>>) -> bool {
    &&& arena.wf()
    &&& root.0 < arena.nodes().len()
    &&& (next matches Some(e) ==> under(arena.nodes(), edge_node(e), root))
}

/// A step of a walk from a node in `root`'s subtree stays in that subtree,
/// and can always be taken.
proof fn lemma_step_stays_under<T>(arena: &Arena<T>, root: Id, item: NodeEdge<Id>, reverse: bool)
    requires
        walk_ok(arena, root, Some(item)),
    ensures
        can_step(arena.nodes(), root, Some(item), reverse),
        walk_ok(arena, root, traverse_step(arena.nodes(), root, item, reverse)),
{
    let n = arena.nodes();
    let id = edge_node(item);
    let k = choose|k: nat| ancestor_at(n, id, k) == Some(root);
    assert(id.0 < n.len());
    lemma_wf_node(arena, id.0 as int);
    let x = n[id.0 as int];
    match item {
        NodeEdge::Start(_) => {
            let down = if reverse {
                x.last_link()
            } else {
                x.first_link()
            };
            if let Some(c) = down {
                lemma_wf_node(arena, c.0 as int);
                assert(ancestor_at(n, c, k + 1) == ancestor_at(n, id, k));
            }
        },
        NodeEdge::End(_) => {
            if id != root {
                assert(k > 0);
                let p = x.parent_link()->0;
                assert(ancestor_at(n, p, (k - 1) as nat) == Some(root));
                let across = if reverse {
                    x.prev_link()
                } else {
                    x.next_link()
                };
                if let Some(sib) = across {
                    lemma_wf_node(arena, sib.0 as int);
                    assert(n[sib.0 as int].parent_link() == Some(p));
                    assert(ancestor_at(n, sib, k) == ancestor_at(n, p, (k - 1) as nat));
                }
            }
        },
    }
}

/// The links of one node of a well-formed arena agree with its neighbours.
proof fn lemma_wf_node<T>(arena: &Arena<T>, i: int)
    requires
        arena.wf(),
        0 <= i < arena.nodes().len(),
    ensures
        node_ok(arena.nodes(), arena.pos@, i),
        arena.nodes().len() <= usize::MAX,
{
}

/// A walk over the start and end edges of a node and its descendants, in
/// tree order; the arena is handed to each step.
#[derive(Debug)]
pub struct TraverseFree {
    root: Id,
    next: Option<NodeEdge<Id>>,
}

/// A walk over the start and end edges of a node and its descendants, in
/// reverse tree order; the arena is handed to each step.
#[derive(Debug)]
pub struct ReverseTraverseFree {
    root: Id,
    next: Option<NodeEdge<Id>>,
}

impl TraverseFree {
    /// The node whose subtree is walked.
    pub closed spec fn root(&self) -> Id {
        self.root
    }

    /// The edge the next step yields.
    pub closed spec fn next_edge(&self) -> Option<NodeEdge<Id>> {
        self.next
    }

    /// Yield the next edge and move on.
    pub fn next<T>(&mut self, arena: &Arena<T>) -> (r: Option<NodeEdge<Id>>)
        requires
            can_step(arena.nodes(), old(self).root(), old(self).next_edge(), false),
        ensures
            r == old(self).next_edge(),
            final(self).root() == old(self).root(),
            final(self).next_edge() == match r {
                Some(item) => traverse_step(arena.nodes(), old(self).root(), item, false),
                None => None,
            },
    {
        match self.next.take() {
            Some(item) => {
                self.next = match item {
                    NodeEdge::Start(id) => match arena.nodes[id.0].first_child {
                        Some(child) => Some(NodeEdge::Start(child)),
                        None => Some(NodeEdge::End(id)),
                    },
                    NodeEdge::End(id) => {
                        if id == self.root {
                            None
                        } else {
                            match arena.nodes[id.0].next_sibling {
                                Some(sibling) => Some(NodeEdge::Start(sibling)),
                                None => match arena.nodes[id.0].parent {
                                    Some(parent) => Some(NodeEdge::End(parent)),
                                    None => None,
                                },
                            }
                        }
                    },
                };
                Some(item)
            },
            None => None,
        }
    }
}

/// A walk over the start and end edges of a node and its descendants, in
/// tree order.
pub struct Traverse<'a, T: 'a> {
    arena: &'a Arena<T>,
    root: Id,
    next: Option<NodeEdge<Id>>,
}

/// A walk over the start and end edges of a node and its descendants, in
/// reverse tree order.
pub struct ReverseTraverse<'a, T: 'a> {
    arena: &'a Arena<T>,
    root: Id,
    next: Option<NodeEdge<Id>>,
}

impl<'a, T> Traverse<'a, T> {
    /// The arena walked.
    pub closed spec fn arena(&self) -> &'a Arena<T> {
        self.arena
    }

    /// The node whose subtree is walked.
    pub closed spec fn root(&self) -> Id {
        self.root
    }

    /// The edge the next step yields.
    pub closed spec fn next_edge(&self) -> Option<NodeEdge<Id>> {
        self.next
    }

    /// The walk stays in the subtree of its root.
    pub open spec fn valid(&self) -> bool {
        walk_ok(self.arena(), self.root(), self.next_edge())
    }

    /// Yield the next edge and move on.
    pub fn next(&mut self) -> (r: Option<NodeEdge<Id>>)
        requires
            old(self).valid(),
        ensures
            final(self).valid(),
            r == old(self).next_edge(),
            final(self).root() == old(self).root(),
            final(self).arena() == old(self).arena(),
            final(self).next_edge() == match r {
                Some(item) => traverse_step(old(self).arena().nodes(), old(self).root(), item, false),
                None => None,
            },
    {
        proof {
            if let Some(item) = self.next {
                lemma_step_stays_under(self.arena, self.root, item, false);
            }
        }
        match self.next.take() {
            Some(item) => {
                self.next = match item {
                    NodeEdge::Start(id) => match self.arena.nodes[id.0].first_child {
                        Some(child) => Some(NodeEdge::Start(child)),
                        None => Some(NodeEdge::End(id)),
                    },
                    NodeEdge::End(id) => {
                        if id == self.root {
                            None
                        } else {
                            match self.arena.nodes[id.0].next_sibling {
                                Some(sibling) => Some(NodeEdge::Start(sibling)),
                                None => match self.arena.nodes[id.0].parent {
                                    Some(parent) => Some(NodeEdge::End(parent)),
                                    None => None,
                                },
                            }
                        }
                    },
                };
                Some(item)
            },
            None => None,
        }
    }
}

impl<'a, T> ReverseTraverse<'a, T> {
    /// The arena walked.
    pub closed spec fn arena(&self) -> &'a Arena<T> {
        self.arena
    }

    /// The node whose subtree is walked.
    pub closed spec fn root(&self) -> Id {
        self.root
    }

    /// The edge the next step yields.
    pub closed spec fn next_edge(&self) -> Option<NodeEdge<Id>> {
        self.next
    }

    /// The walk stays in the subtree of its root.
    pub open spec fn valid(&self) -> bool {
        walk_ok(self.arena(), self.root(), self.next_edge())
    }

    /// Yield the next edge and move on.
    pub fn next(&mut self) -> (r: Option<NodeEdge<Id>>)
        requires
            old(self).valid(),
        ensures
            final(self).valid(),
            r == old(self).next_edge(),
            final(self).root() == old(self).root(),
            final(self).arena() == old(self).arena(),
            final(self).next_edge() == match r {
                Some(item) => traverse_step(old(self).arena().nodes(), old(self).root(), item, true),
                None => None,
            },
    {
        proof {
            if let Some(item) = self.next {
                lemma_step_stays_under(self.arena, self.root, item, true);
            }
        }
        match self.next.take() {
            Some(item) => {
                self.next = match item {
                    NodeEdge::Start(id) => match self.arena.nodes[id.0].last_child {
                        Some(child) => Some(NodeEdge::Start(child)),
                        None => Some(NodeEdge::End(id)),
                    },
                    NodeEdge::End(id) => {
                        if id == self.root {
                            None
                        } else {
                            match self.arena.nodes[id.0].previous_sibling {
                                Some(sibling) => Some(NodeEdge::Start(sibling)),
                                None => match self.arena.nodes[id.0].parent {
                                    Some(parent) => Some(NodeEdge::End(parent)),
                                    None => None,
                                },
                            }
                        }
                    },
                };
                Some(item)
            },
            None => None,
        }
    }
}

/// Where a forward walk stands after passing over at most `fuel` end
/// edges in a row, starting at `e`.
pub open spec fn skip_ends<T>(n: Seq<Node<T>>, root: Id, e: Option<NodeEdge<Id>>, fuel: nat) -> Option<NodeEdge<Id>>
    decreases fuel,
{
    if fuel == 0 {
        e
    } else {
        match e {
            Some(NodeEdge::End(id)) => skip_ends(n, root, traverse_step(n, root, NodeEdge::End(id), false), (fuel - 1) as nat),
            _ => e,
        }
    }
}

/// One more unit of fuel takes one more step, past an end edge only.
proof fn lemma_skip_ends_succ<T>(n: Seq<Node<T>>, root: Id, e: Option<NodeEdge<Id>>, fuel: nat)
    ensures
        skip_ends(n, root, e, fuel + 1) == match skip_ends(n, root, e, fuel) {
            Some(NodeEdge::End(id)) => traverse_step(n, root, NodeEdge::End(id), false),
            other => other,
        },
    decreases fuel,
{
    reveal_with_fuel(skip_ends, 2);
    if fuel > 0 {
        if let Some(NodeEdge::End(id)) = e {
            lemma_skip_ends_succ(n, root, traverse_step(n, root, NodeEdge::End(id), false), (fuel - 1) as nat);
        }
    }
}

/// What a search for the next start edge gives, from `e` on: the node of
/// the first start edge a forward walk meets, passing over end edges, and
/// the edge after it; `None` if the walk ends first.
pub open spec fn found_start<T>(
    n: Seq<Node<T>>,
    root: Id,
    e: Option<NodeEdge<Id>>,
    r: Option<Id>,
    after: Option<NodeEdge<Id>>,
) -> bool {
    exists|f: nat|
        {
            let s = #[trigger] skip_ends(n, root, e, f);
            &&& !(s matches Some(NodeEdge::End(_)))
            &&& r == match s {
                Some(NodeEdge::Start(x)) => Some(x),
                _ => None,
            }
            &&& after == match s {
                Some(item) => traverse_step(n, root, item, false),
                None => None,
            }
        }
}

/// An iterator of a given node and its descendants, in tree order.
pub struct Descendants<'a, T: 'a>(Traverse<'a, T>);

impl<'a, T> Descendants<'a, T> {
    /// The walk underneath.
    pub closed spec fn walk(&self) -> Traverse<'a, T> {
        self.0
    }

    /// Yield the next node, parents before their descendants.
    pub fn next(&mut self) -> (r: Option<Id>)
        requires
            old(self).walk().valid(),
        ensures
            final(self).walk().valid(),
            final(self).walk().root() == old(self).walk().root(),
            final(self).walk().arena() == old(self).walk().arena(),
            found_start(
                old(self).walk().arena().nodes(),
                old(self).walk().root(),
                old(self).walk().next_edge(),
                r,
                final(self).walk().next_edge(),
            ),
    {
        let ghost n = self.0.arena.nodes();
        let ghost root = self.0.root;
        let ghost e0 = self.0.next;
        let ghost mut count: nat = 0;
        let ghost mut k: nat = match e0 {
            Some(NodeEdge::End(id)) => choose|k: nat| ancestor_at(n, id, k) == Some(root),
            _ => 0,
        };
        loop
            invariant
                self.0.valid(),
                self.0.root == root,
                root == old(self).0.root,
                e0 == old(self).0.next,
                n == old(self).0.arena.nodes(),
                self.0.arena.nodes() == n,
                self.0.arena == old(self).0.arena,
                self.0.next == skip_ends(n, root, e0, count),
                (self.0.next matches Some(NodeEdge::End(id)) ==> ancestor_at(n, id, k) == Some(root)),
            decreases (match self.0.next {
                Some(NodeEdge::End(_)) => k + 1,
                _ => 0,
            }),
        {
            proof {
                lemma_skip_ends_succ(n, root, e0, count);
            }
            let ghost before = self.0.next;
            match self.0.next() {
                Some(NodeEdge::Start(node)) => {
                    assert(skip_ends(n, root, e0, count) == before);
                    return Some(node);
                },
                Some(NodeEdge::End(id)) => {
                    proof {
                        count = count + 1;
                        if let Some(NodeEdge::End(p)) = self.0.next {
                            assert(id != root);
                            assert(k > 0);
                            k = (k - 1) as nat;
                        }
                    }
                },
                None => {
                    assert(skip_ends(n, root, e0, count) == before);
                    return None;
                },
            }
        }
    }
}

/// An iterator of a given node and its descendants, in tree order; the
/// arena is handed to each step.
#[derive(Debug)]
pub struct DescendantsFree(TraverseFree);

impl DescendantsFree {
    /// The walk underneath.
    pub closed spec fn walk(&self) -> TraverseFree {
        self.0
    }

    /// Yield the next node, parents before their descendants.
    pub fn next<T>(&mut self, arena: &Arena<T>) -> (r: Option<Id>)
        requires
            walk_ok(arena, old(self).walk().root(), old(self).walk().next_edge()),
        ensures
            walk_ok(arena, final(self).walk().root(), final(self).walk().next_edge()),
            final(self).walk().root() == old(self).walk().root(),
            found_start(
                arena.nodes(),
                old(self).walk().root(),
                old(self).walk().next_edge(),
                r,
                final(self).walk().next_edge(),
            ),
    {
        let ghost n = arena.nodes();
        let ghost root = self.0.root;
        let ghost e0 = self.0.next;
        let ghost mut count: nat = 0;
        let ghost mut k: nat = match e0 {
            Some(NodeEdge::End(id)) => choose|k: nat| ancestor_at(n, id, k) == Some(root),
            _ => 0,
        };
        loop
            invariant
                walk_ok(arena, self.0.root, self.0.next),
                self.0.root == root,
                root == old(self).0.root,
                e0 == old(self).0.next,
                n == arena.nodes(),
                self.0.next == skip_ends(n, root, e0, count),
                (self.0.next matches Some(NodeEdge::End(id)) ==> ancestor_at(n, id, k) == Some(root)),
            decreases (match self.0.next {
                Some(NodeEdge::End(_)) => k + 1,
                _ => 0,
            }),
        {
            proof {
                lemma_skip_ends_succ(n, root, e0, count);
                if let Some(item) = self.0.next {
                    lemma_step_stays_under(arena, root, item, false);
                }
            }
            let ghost before = self.0.next;
            match self.0.next(arena) {
                Some(NodeEdge::Start(node)) => {
                    assert(skip_ends(n, root, e0, count) == before);
                    return Some(node);
                },
                Some(NodeEdge::End(id)) => {
                    proof {
                        count = count + 1;
                        if let Some(NodeEdge::End(p)) = self.0.next {
                            assert(id != root);
                            assert(k > 0);
                            k = (k - 1) as nat;
                        }
                    }
                },
                None => {
                    assert(skip_ends(n, root, e0, count) == before);
                    return None;
                },
            }
        }
    }
}

impl Id {
    /// A walk over the start and end edges of this node and its
    /// descendants, in tree order.
    pub fn traverse<T>(self, arena: &Arena<T>) -> (r: Traverse<'_, T>)
        requires
            arena.wf(),
            self.0 < arena.nodes().len(),
        ensures
            r.valid(),
            r.arena() == arena,
            r.root() == self,
            r.next_edge() == Some(NodeEdge::Start(self)),
    {
        proof {
            assert(ancestor_at(arena.nodes(), self, 0) == Some(self));
        }
        Traverse { arena, root: self, next: Some(NodeEdge::Start(self)) }
    }

    /// A walk over the start and end edges of this node and its
    /// descendants, in tree order, the arena being handed to each step.
    pub fn traverse_free(self) -> (r: TraverseFree)
        ensures
            r.root() == self,
            r.next_edge() == Some(NodeEdge::Start(self)),
    {
        TraverseFree { root: self, next: Some(NodeEdge::Start(self)) }
    }

    /// A walk over the start and end edges of this node and its
    /// descendants, in reverse tree order.
    pub fn reverse_traverse<T>(self, arena: &Arena<T>) -> (r: ReverseTraverse<'_, T>)
        requires
            arena.wf(),
            self.0 < arena.nodes().len(),
        ensures
            r.valid(),
            r.arena() == arena,
            r.root() == self,
            r.next_edge() == Some(NodeEdge::End(self)),
    {
        proof {
            assert(ancestor_at(arena.nodes(), self, 0) == Some(self));
        }
        ReverseTraverse { arena, root: self, next: Some(NodeEdge::End(self)) }
    }

    /// This node and its descendants, in tree order: parents come before
    /// their descendants.
    pub fn descendants<T>(self, arena: &Arena<T>) -> (r: Descendants<'_, T>)
        requires
            arena.wf(),
            self.0 < arena.nodes().len(),
        ensures
            r.walk().valid(),
            r.walk().arena() == arena,
            r.walk().root() == self,
            r.walk().next_edge() == Some(NodeEdge::Start(self)),
    {
        Descendants(self.traverse(arena))
    }

    /// This node and its descendants, in tree order, the arena being handed
    /// to each step.
    pub fn descendants_free(self) -> (r: DescendantsFree)
        ensures
            r.walk().root() == self,
            r.walk().next_edge() == Some(NodeEdge::Start(self)),
    {
        DescendantsFree(self.traverse_free())
    }
}

/// An iterator of the ancestors of a given node, starting with the node itself.
pub struct Ancestors<'a, T>(Option<(&'a Arena<T>, Id)>);

impl<'a, T> Ancestors<'a, T> {
    /// The arena and the node the next step yields, if any.
    pub closed spec fn state(&self) -> Option<(&'a Arena<T>, Id)> {
        self.0
    }

    /// The node to yield lies in a well-formed arena.
    pub open spec fn valid(&self) -> bool {
        self.state() matches Some((a, id)) ==> a.wf() && id.0 < a.nodes().len()
    }

    /// Yield the next node and move on.
    pub fn next(&mut self) -> (r: Option<Id>)
        requires
            old(self).valid(),
        ensures
            final(self).valid(),
            r == match old(self).state() {
                Some((_, id)) => Some(id),
                None => None,
            },
            final(self).state() == match old(self).state() {
                Some((a, id)) => match a.nodes()[id.0 as int].parent_link() {
                    Some(m) => Some((a, m)),
                    None => None,
                },
                None => None,
            },
    {
        match self.0.take() {
            Some((arena, id)) => {
                proof {
                    lemma_wf_node(arena, id.0 as int);
                }
                self.0 = match arena.nodes[id.0].parent {
                    Some(m) => Some((arena, m)),
                    None => None,
                };
                Some(id)
            },
            None => None,
        }
    }
}

/// An iterator of the ancestors of a given node, starting with the node itself; the arena is handed to each step.
#[derive(Debug)]
pub struct AncestorsFree(Option<Id>);

impl AncestorsFree {
    /// The node the next step yields, if any.
    pub closed spec fn current(&self) -> Option<Id> {
        self.0
    }

    /// Yield the next node and move on.
    pub fn next<T>(&mut self, arena: &Arena<T>) -> (r: Option<Id>)
        requires
            arena.wf(),
            in_range(arena.nodes(), old(self).current()),
        ensures
            in_range(arena.nodes(), final(self).current()),
            r == old(self).current(),
            final(self).current() == match r {
                Some(id) => arena.nodes()[id.0 as int].parent_link(),
                None => None,
            },
    {
        match self.0.take() {
            Some(id) => {
                proof {
                    lemma_wf_node(arena, id.0 as int);
                }
                self.0 = arena.nodes[id.0].parent;
                Some(id)
            },
            None => None,
        }
    }
}

/// An iterator of the siblings before a given node, starting with the node itself, nearest first.
pub struct PrecedingSiblings<'a, T>(Option<(&'a Arena<T>, Id)>);

impl<'a, T> PrecedingSiblings<'a, T> {
    /// The arena and the node the next step yields, if any.
    pub closed spec fn state(&self) -> Option<(&'a Arena<T>, Id)> {
        self.0
    }

    /// The node to yield lies in a well-formed arena.
    pub open spec fn valid(&self) -> bool {
        self.state() matches Some((a, id)) ==> a.wf() && id.0 < a.nodes().len()
    }

    /// Yield the next node and move on.
    pub fn next(&mut self) -> (r: Option<Id>)
        requires
            old(self).valid(),
        ensures
            final(self).valid(),
            r == match old(self).state() {
                Some((_, id)) => Some(id),
                None => None,
            },
            final(self).state() == match old(self).state() {
                Some((a, id)) => match a.nodes()[id.0 as int].prev_link() {
                    Some(m) => Some((a, m)),
                    None => None,
                },
                None => None,
            },
    {
        match self.0.take() {
            Some((arena, id)) => {
                proof {
                    lemma_wf_node(arena, id.0 as int);
                }
                self.0 = match arena.nodes[id.0].previous_sibling {
                    Some(m) => Some((arena, m)),
                    None => None,
                };
                Some(id)
            },
            None => None,
        }
    }
}

/// An iterator of the siblings before a given node, starting with the node itself, nearest first; the arena is handed to each step.
#[derive(Debug)]
pub struct PreviousSiblingsFree(Option<Id>);

impl PreviousSiblingsFree {
    /// The node the next step yields, if any.
    pub closed spec fn current(&self) -> Option<Id> {
        self.0
    }

    /// Yield the next node and move on.
    pub fn next<T>(&mut self, arena: &Arena<T>) -> (r: Option<Id>)
        requires
            arena.wf(),
            in_range(arena.nodes(), old(self).current()),
        ensures
            in_range(arena.nodes(), final(self).current()),
            r == old(self).current(),
            final(self).current() == match r {
                Some(id) => arena.nodes()[id.0 as int].prev_link(),
                None => None,
            },
    {
        match self.0.take() {
            Some(id) => {
                proof {
                    lemma_wf_node(arena, id.0 as int);
                }
                self.0 = arena.nodes[id.0].previous_sibling;
                Some(id)
            },
            None => None,
        }
    }
}

/// An iterator of the siblings after a given node, starting with the node itself, nearest first.
pub struct FollowingSiblings<'a, T>(Option<(&'a Arena<T>, Id)>);

impl<'a, T> FollowingSiblings<'a, T> {
    /// The arena and the node the next step yields, if any.
    pub closed spec fn state(&self) -> Option<(&'a Arena<T>, Id)> {
        self.0
    }

    /// The node to yield lies in a well-formed arena.
    pub open spec fn valid(&self) -> bool {
        self.state() matches Some((a, id)) ==> a.wf() && id.0 < a.nodes().len()
    }

    /// Yield the next node and move on.
    pub fn next(&mut self) -> (r: Option<Id>)
        requires
            old(self).valid(),
        ensures
            final(self).valid(),
            r == match old(self).state() {
                Some((_, id)) => Some(id),
                None => None,
            },
            final(self).state() == match old(self).state() {
                Some((a, id)) => match a.nodes()[id.0 as int].next_link() {
                    Some(m) => Some((a, m)),
                    None => None,
                },
                None => None,
            },
    {
        match self.0.take() {
            Some((arena, id)) => {
                proof {
                    lemma_wf_node(arena, id.0 as int);
                }
                self.0 = match arena.nodes[id.0].next_sibling {
                    Some(m) => Some((arena, m)),
                    None => None,
                };
                Some(id)
            },
            None => None,
        }
    }
}

/// An iterator of the siblings after a given node, starting with the node itself, nearest first; the arena is handed to each step.
#[derive(Debug)]
pub struct FollowingSiblingsFree(Option<Id>);

impl FollowingSiblingsFree {
    /// The node the next step yields, if any.
    pub closed spec fn current(&self) -> Option<Id> {
        self.0
    }

    /// Yield the next node and move on.
    pub fn next<T>(&mut self, arena: &Arena<T>) -> (r: Option<Id>)
        requires
            arena.wf(),
            in_range(arena.nodes(), old(self).current()),
        ensures
            in_range(arena.nodes(), final(self).current()),
            r == old(self).current(),
            final(self).current() == match r {
                Some(id) => arena.nodes()[id.0 as int].next_link(),
                None => None,
            },
    {
        match self.0.take() {
            Some(id) => {
                proof {
                    lemma_wf_node(arena, id.0 as int);
                }
                self.0 = arena.nodes[id.0].next_sibling;
                Some(id)
            },
            None => None,
        }
    }
}

/// An iterator of the children of a given node.
pub struct Children<'a, T>(Option<(&'a Arena<T>, Id)>);

impl<'a, T> Children<'a, T> {
    /// The arena and the node the next step yields, if any.
    pub closed spec fn state(&self) -> Option<(&'a Arena<T>, Id)> {
        self.0
    }

    /// The node to yield lies in a well-formed arena.
    pub open spec fn valid(&self) -> bool {
        self.state() matches Some((a, id)) ==> a.wf() && id.0 < a.nodes().len()
    }

    /// Yield the next node and move on.
    pub fn next(&mut self) -> (r: Option<Id>)
        requires
            old(self).valid(),
        ensures
            final(self).valid(),
            r == match old(self).state() {
                Some((_, id)) => Some(id),
                None => None,
            },
            final(self).state() == match old(self).state() {
                Some((a, id)) => match a.nodes()[id.0 as int].next_link() {
                    Some(m) => Some((a, m)),
                    None => None,
                },
                None => None,
            },
    {
        match self.0.take() {
            Some((arena, id)) => {
                proof {
                    lemma_wf_node(arena, id.0 as int);
                }
                self.0 = match arena.nodes[id.0].next_sibling {
                    Some(m) => Some((arena, m)),
                    None => None,
                };
                Some(id)
            },
            None => None,
        }
    }
}

/// An iterator of the children of a given node; the arena is handed to each step.
#[derive(Debug)]
pub struct ChildrenFree(Option<Id>);

impl ChildrenFree {
    /// The node the next step yields, if any.
    pub closed spec fn current(&self) -> Option<Id> {
        self.0
    }

    /// Yield the next node and move on.
    pub fn next<T>(&mut self, arena: &Arena<T>) -> (r: Option<Id>)
        requires
            arena.wf(),
            in_range(arena.nodes(), old(self).current()),
        ensures
            in_range(arena.nodes(), final(self).current()),
            r == old(self).current(),
            final(self).current() == match r {
                Some(id) => arena.nodes()[id.0 as int].next_link(),
                None => None,
            },
    {
        match self.0.take() {
            Some(id) => {
                proof {
                    lemma_wf_node(arena, id.0 as int);
                }
                self.0 = arena.nodes[id.0].next_sibling;
                Some(id)
            },
            None => None,
        }
    }
}

/// An iterator of the children of a given node, in reverse order.
pub struct ReverseChildren<'a, T>(Option<(&'a Arena<T>, Id)>);

impl<'a, T> ReverseChildren<'a, T> {
    /// The arena and the node the next step yields, if any.
    pub closed spec fn state(&self) -> Option<(&'a Arena<T>, Id)> {
        self.0
    }

    /// The node to yield lies in a well-formed arena.
    pub open spec fn valid(&self) -> bool {
        self.state() matches Some((a, id)) ==> a.wf() && id.0 < a.nodes().len()
    }

    /// Yield the next node and move on.
    pub fn next(&mut self) -> (r: Option<Id>)
        requires
            old(self).valid(),
        ensures
            final(self).valid(),
            r == match old(self).state() {
                Some((_, id)) => Some(id),
                None => None,
            },
            final(self).state() == match old(self).state() {
                Some((a, id)) => match a.nodes()[id.0 as int].prev_link() {
                    Some(m) => Some((a, m)),
                    None => None,
                },
                None => None,
            },
    {
        match self.0.take() {
            Some((arena, id)) => {
                proof {
                    lemma_wf_node(arena, id.0 as int);
                }
                self.0 = match arena.nodes[id.0].previous_sibling {
                    Some(m) => Some((arena, m)),
                    None => None,
                };
                Some(id)
            },
            None => None,
        }
    }
}

/// An iterator of the children of a given node, in reverse order; the arena is handed to each step.
#[derive(Debug)]
pub struct ReverseChildrenFree(Option<Id>);

impl ReverseChildrenFree {
    /// The node the next step yields, if any.
    pub closed spec fn current(&self) -> Option<Id> {
        self.0
    }

    /// Yield the next node and move on.
    pub fn next<T>(&mut self, arena: &Arena<T>) -> (r: Option<Id>)
        requires
            arena.wf(),
            in_range(arena.nodes(), old(self).current()),
        ensures
            in_range(arena.nodes(), final(self).current()),
            r == old(self).current(),
            final(self).current() == match r {
                Some(id) => arena.nodes()[id.0 as int].prev_link(),
                None => None,
            },
    {
        match self.0.take() {
            Some(id) => {
                proof {
                    lemma_wf_node(arena, id.0 as int);
                }
                self.0 = arena.nodes[id.0].previous_sibling;
                Some(id)
            },
            None => None,
        }
    }
}

impl Id {
    /// This node and its ancestors, nearest first.
    pub fn ancestors<T>(self, arena: &Arena<T>) -> (r: Ancestors<'_, T>)
        requires
            arena.wf(),
            self.0 < arena.nodes().len(),
        ensures
            r.valid(),
            r.state() == Some((arena, self)),
    {
        Ancestors(Some((arena, self)))
    }

    /// This node and the siblings before it, nearest first.
    pub fn preceding_siblings<T>(self, arena: &Arena<T>) -> (r: PrecedingSiblings<'_, T>)
        requires
            arena.wf(),
            self.0 < arena.nodes().len(),
        ensures
            r.valid(),
            r.state() == Some((arena, self)),
    {
        PrecedingSiblings(Some((arena, self)))
    }

    /// This node and the siblings after it, nearest first.
    pub fn following_siblings<T>(self, arena: &Arena<T>) -> (r: FollowingSiblings<'_, T>)
        requires
            arena.wf(),
            self.0 < arena.nodes().len(),
        ensures
            r.valid(),
            r.state() == Some((arena, self)),
    {
        FollowingSiblings(Some((arena, self)))
    }

    /// This node's children, first to last.
    pub fn children<T>(self, arena: &Arena<T>) -> (r: Children<'_, T>)
        requires
            arena.wf(),
            self.0 < arena.nodes().len(),
        ensures
            r.valid(),
            r.state() == match arena.nodes()[self.0 as int].first_link() {
                Some(c) => Some((arena, c)),
                None => None,
            },
    {
        proof {
            lemma_wf_node(arena, self.0 as int);
        }
        match arena.nodes[self.0].first_child {
            Some(c) => Children(Some((arena, c))),
            None => Children(None),
        }
    }

    /// This node's children, first to last, the arena being handed to each
    /// step.
    pub fn children_free<T>(self, arena: &Arena<T>) -> (r: ChildrenFree)
        requires
            arena.wf(),
            self.0 < arena.nodes().len(),
        ensures
            in_range(arena.nodes(), r.current()),
            r.current() == arena.nodes()[self.0 as int].first_link(),
    {
        proof {
            lemma_wf_node(arena, self.0 as int);
        }
        ChildrenFree(arena.nodes[self.0].first_child)
    }

    /// This node's children, last to first.
    pub fn reverse_children<T>(self, arena: &Arena<T>) -> (r: ReverseChildren<'_, T>)
        requires
            arena.wf(),
            self.0 < arena.nodes().len(),
        ensures
            r.valid(),
            r.state() == match arena.nodes()[self.0 as int].last_link() {
                Some(c) => Some((arena, c)),
                None => None,
            },
    {
        proof {
            lemma_wf_node(arena, self.0 as int);
        }
        match arena.nodes[self.0].last_child {
            Some(c) => ReverseChildren(Some((arena, c))),
            None => ReverseChildren(None),
        }
    }
}

} // verus!
