//! Tree component: an arena of nodes addressed by stable integer identity.
use vstd::prelude::*;

pub mod cursor;
pub mod node;

use self::node::Node;

verus! {

/// Why a structural edit or a lookup was refused.
#[derive(Debug, Clone, Copy, PartialEq, Eq, Structural)]
pub enum TreeError {
    /// The identity was never allocated in this tree.
    NotFound,
    /// The node to attach already has a parent.
    AlreadyAttached,
    /// The node to detach has no parent.
    NotAttached,
    /// The node to insert relative to is a root.
    NoParent,
    /// A relation asked for is absent.
    NoSuchRelative,
    /// The tree holds no node.
    Empty,
    /// The edit would make a node its own parent.
    Cycle,
    /// The node is not of the kind that the operation needs.
    InvariantViolation,
}

/// The element at `i`, or `None` out of range.
pub open spec fn opt_at(s: Seq<usize>, i: int) -> Option<usize> {
    if 0 <= i < s.len() {
        Some(s[i])
    } else {
        None
    }
}

/// Each listed child points back to its parent and to its neighbours in the list.
#[verifier::opaque]
pub open spec fn kid_links<T>(nodes: Seq<Node<T>>, kids: Seq<Seq<usize>>) -> bool {
    forall|p: int, j: int|
        #![trigger kids[p][j]]
        0 <= p < kids.len() && 0 <= j < kids[p].len() ==> {
            &&& kids[p][j] < nodes.len()
            &&& nodes[kids[p][j] as int].parent == Some(p as usize)
            &&& nodes[kids[p][j] as int].prev_sibling == opt_at(kids[p], j - 1)
            &&& nodes[kids[p][j] as int].next_sibling == opt_at(kids[p], j + 1)
        }
}

/// No child list names a node twice.
#[verifier::opaque]
pub open spec fn kids_distinct(kids: Seq<Seq<usize>>) -> bool {
    forall|p: int, j: int, k: int|
        0 <= p < kids.len() && 0 <= j < kids[p].len() && 0 <= k < kids[p].len() && #[trigger] kids[p][j]
            == #[trigger] kids[p][k] ==> j == k
}

/// Each node's first-child link is the head of its child list.
#[verifier::opaque]
pub open spec fn first_links<T>(nodes: Seq<Node<T>>, kids: Seq<Seq<usize>>) -> bool {
    forall|p: int| 0 <= p < nodes.len() ==> #[trigger] nodes[p].child == opt_at(kids[p], 0)
}

/// A node with a parent is listed among its parent's children; a node without one has no
/// siblings.
#[verifier::opaque]
pub open spec fn parent_links<T>(nodes: Seq<Node<T>>, kids: Seq<Seq<usize>>) -> bool {
    forall|c: int|
        0 <= c < nodes.len() ==> match #[trigger] nodes[c].parent {
            Some(p) => p < nodes.len() && kids[p as int].contains(c as usize),
            None => nodes[c].prev_sibling is None && nodes[c].next_sibling is None,
        }
}

/// The links of `nodes` agree with the ordered child lists `kids`.
pub open spec fn links_wf<T>(nodes: Seq<Node<T>>, kids: Seq<Seq<usize>>) -> bool {
    &&& kids.len() == nodes.len()
    &&& kid_links(nodes, kids)
    &&& kids_distinct(kids)
    &&& first_links(nodes, kids)
    &&& parent_links(nodes, kids)
}

/// What `kid_links` says of the `j`-th child of `p`.
pub proof fn lemma_kid<T>(nodes: Seq<Node<T>>, kids: Seq<Seq<usize>>, p: int, j: int)
    requires
        kid_links(nodes, kids),
        0 <= p < kids.len(),
        0 <= j < kids[p].len(),
    ensures
        kids[p][j] < nodes.len(),
        nodes[kids[p][j] as int].parent == Some(p as usize),
        nodes[kids[p][j] as int].prev_sibling == opt_at(kids[p], j - 1),
        nodes[kids[p][j] as int].next_sibling == opt_at(kids[p], j + 1),
{
    reveal(kid_links);
    assert(kids[p][j] == kids[p][j]);
}

/// What `parent_links` says of node `c`.
pub proof fn lemma_parent<T>(nodes: Seq<Node<T>>, kids: Seq<Seq<usize>>, c: int)
    requires
        parent_links(nodes, kids),
        0 <= c < nodes.len(),
    ensures
        nodes[c].parent matches Some(p) ==> p < nodes.len() && kids[p as int].contains(c as usize),
        nodes[c].parent is None ==> nodes[c].prev_sibling is None && nodes[c].next_sibling is None,
{
    reveal(parent_links);
    assert(nodes[c].parent == nodes[c].parent);
}

/// What `first_links` says of node `p`.
pub proof fn lemma_first<T>(nodes: Seq<Node<T>>, kids: Seq<Seq<usize>>, p: int)
    requires
        first_links(nodes, kids),
        0 <= p < nodes.len(),
    ensures
        nodes[p].child == opt_at(kids[p], 0),
{
    reveal(first_links);
    assert(nodes[p].child == nodes[p].child);
}

/// What `kids_distinct` says of two positions in the child list of `p`.
pub proof fn lemma_distinct(kids: Seq<Seq<usize>>, p: int, j: int, k: int)
    requires
        kids_distinct(kids),
        0 <= p < kids.len(),
        0 <= j < kids[p].len(),
        0 <= k < kids[p].len(),
        kids[p][j] == kids[p][k],
    ensures
        j == k,
{
    reveal(kids_distinct);
}

/// One step of `insert_before`: the nodes after linking the unattached `n` in before the
/// `j`-th child of `p`.
pub open spec fn insert_step<T>(old_nodes: Seq<Node<T>>, old_kids: Seq<Seq<usize>>, nodes: Seq<Node<T>>, p: int, j: int, n: usize) -> bool {
    &&& links_wf(old_nodes, old_kids)
    &&& old_nodes.len() <= usize::MAX
    &&& 0 <= p < old_nodes.len()
    &&& 0 <= j < old_kids[p].len()
    &&& n < old_nodes.len()
    &&& old_nodes[n as int].parent is None
    &&& nodes.len() == old_nodes.len()
    &&& forall|i: int| 0 <= i < nodes.len() ==> #[trigger] nodes[i] == (Node {
            parent: if i == n { Some(p as usize) } else { old_nodes[i].parent },
            child: if i == p && j == 0 { Some(n) } else { old_nodes[i].child },
            prev_sibling: if i == old_kids[p][j] { Some(n) } else if i == n { opt_at(old_kids[p], j - 1) } else { old_nodes[i].prev_sibling },
            next_sibling: if i == n { Some(old_kids[p][j]) } else if j > 0 && i == old_kids[p][j - 1] { Some(n) } else { old_nodes[i].next_sibling },
            value: old_nodes[i].value,
        })
}

/// Linking the unattached `n` in before the `j`-th child of `p` keeps the links well formed.
proof fn lemma_insert_wf<T>(old_nodes: Seq<Node<T>>, old_kids: Seq<Seq<usize>>, nodes: Seq<Node<T>>, p: int, j: int, n: usize)
    requires
        insert_step(old_nodes, old_kids, nodes, p, j, n),
    ensures
        links_wf(nodes, old_kids.update(p, old_kids[p].insert(j, n))),
{
    lemma_insert_kid_links(old_nodes, old_kids, nodes, p, j, n);
    lemma_insert_kids_distinct(old_nodes, old_kids, nodes, p, j, n);
    lemma_insert_first_links(old_nodes, old_kids, nodes, p, j, n);
    lemma_insert_parent_links(old_nodes, old_kids, nodes, p, j, n);
}

/// After `insert_before`'s edits, the listed children keep consistent links.
#[verifier::rlimit(100)]
proof fn lemma_insert_kid_links<T>(old_nodes: Seq<Node<T>>, old_kids: Seq<Seq<usize>>, nodes: Seq<Node<T>>, p: int, j: int, n: usize)
    requires
        insert_step(old_nodes, old_kids, nodes, p, j, n),
    ensures
        kid_links(nodes, old_kids.update(p, old_kids[p].insert(j, n))),
{
    let ks = old_kids[p];
    let sibling = ks[j];
    let nl = ks.insert(j, n);
    ks.insert_ensures(j, n);
    let kids = old_kids.update(p, nl);
    lemma_kid(old_nodes, old_kids, p, j);
    if j > 0 {
        lemma_kid(old_nodes, old_kids, p, j - 1);
    }
    assert forall|q: int, k: int| 0 <= q < old_kids.len() && 0 <= k < old_kids[q].len() implies #[trigger] old_kids[q][k] != n by {
        lemma_kid(old_nodes, old_kids, q, k);
    }
    reveal(kid_links);
    assert forall|q: int, k: int| 0 <= q < kids.len() && 0 <= k < kids[q].len() implies {
        &&& kids[q][k] < nodes.len()
        &&& nodes[kids[q][k] as int].parent == Some(q as usize)
        &&& nodes[kids[q][k] as int].prev_sibling == opt_at(kids[q], k - 1)
        &&& nodes[kids[q][k] as int].next_sibling == opt_at(kids[q], k + 1)
    } by {
        if q == p {
            if k != j {
                let k0 = if k < j { k } else { k - 1 };
                assert(kids[q][k] == ks[k0]);
                lemma_kid(old_nodes, old_kids, q, k0);
                if k0 != j && ks[k0] == ks[j] {
                    lemma_distinct(old_kids, q, k0, j);
                }
                if j > 0 && k0 != j - 1 && ks[k0] == ks[j - 1] {
                    lemma_distinct(old_kids, q, k0, j - 1);
                }
                if k > 0 && k - 1 != j {
                    let k1 = if k - 1 < j { k - 1 } else { k - 2 };
                    assert(kids[q][k - 1] == ks[k1]);
                }
                if k + 1 < nl.len() && k + 1 != j {
                    let k2 = if k + 1 < j { k + 1 } else { k };
                    assert(kids[q][k + 1] == ks[k2]);
                }
            } else {
                if k > 0 {
                    assert(kids[q][k - 1] == ks[k - 1]);
                }
                assert(kids[q][k + 1] == ks[j]);
            }
        } else {
            lemma_kid(old_nodes, old_kids, q, k);
            assert(old_kids[q][k] != sibling);
            if j > 0 {
                assert(old_kids[q][k] != ks[j - 1]);
            }
        }
    }
}

/// After `insert_before`'s edits, the child lists stay free of repeats.
proof fn lemma_insert_kids_distinct<T>(old_nodes: Seq<Node<T>>, old_kids: Seq<Seq<usize>>, nodes: Seq<Node<T>>, p: int, j: int, n: usize)
    requires
        insert_step(old_nodes, old_kids, nodes, p, j, n),
    ensures
        kids_distinct(old_kids.update(p, old_kids[p].insert(j, n))),
{
    let ks = old_kids[p];
    let sibling = ks[j];
    let nl = ks.insert(j, n);
    ks.insert_ensures(j, n);
    let kids = old_kids.update(p, nl);
    lemma_kid(old_nodes, old_kids, p, j);
    if j > 0 {
        lemma_kid(old_nodes, old_kids, p, j - 1);
    }
    assert forall|q: int, k: int| 0 <= q < old_kids.len() && 0 <= k < old_kids[q].len() implies #[trigger] old_kids[q][k] != n by {
        lemma_kid(old_nodes, old_kids, q, k);
    }
    reveal(kids_distinct);
    assert forall|q: int, a: int, b: int|
        0 <= q < kids.len() && 0 <= a < kids[q].len() && 0 <= b < kids[q].len() && #[trigger] kids[q][a]
            == #[trigger] kids[q][b] implies a == b by {
        if q == p {
            if a != j && b != j {
                let a0 = if a < j { a } else { a - 1 };
                let b0 = if b < j { b } else { b - 1 };
                assert(kids[q][a] == ks[a0]);
                assert(kids[q][b] == ks[b0]);
                lemma_distinct(old_kids, q, a0, b0);
            } else if a != j {
                let a0 = if a < j { a } else { a - 1 };
                assert(kids[q][a] == ks[a0]);
                assert(old_kids[q][a0] != n);
            } else if b != j {
                let b0 = if b < j { b } else { b - 1 };
                assert(kids[q][b] == ks[b0]);
                assert(old_kids[q][b0] != n);
            }
        } else {
            lemma_distinct(old_kids, q, a, b);
        }
    }
}

/// After `insert_before`'s edits, first-child links stay the heads of the lists.
proof fn lemma_insert_first_links<T>(old_nodes: Seq<Node<T>>, old_kids: Seq<Seq<usize>>, nodes: Seq<Node<T>>, p: int, j: int, n: usize)
    requires
        insert_step(old_nodes, old_kids, nodes, p, j, n),
    ensures
        first_links(nodes, old_kids.update(p, old_kids[p].insert(j, n))),
{
    let ks = old_kids[p];
    let sibling = ks[j];
    let nl = ks.insert(j, n);
    ks.insert_ensures(j, n);
    let kids = old_kids.update(p, nl);
    lemma_kid(old_nodes, old_kids, p, j);
    if j > 0 {
        lemma_kid(old_nodes, old_kids, p, j - 1);
    }
    assert forall|q: int, k: int| 0 <= q < old_kids.len() && 0 <= k < old_kids[q].len() implies #[trigger] old_kids[q][k] != n by {
        lemma_kid(old_nodes, old_kids, q, k);
    }
    reveal(first_links);
    assert forall|q: int| 0 <= q < nodes.len() implies #[trigger] nodes[q].child == opt_at(kids[q], 0) by {
        lemma_first(old_nodes, old_kids, q);
        if q == p && j > 0 {
            assert(kids[q][0] == ks[0]);
        }
    }
}

/// After `insert_before`'s edits, every parent link is matched by a listing.
proof fn lemma_insert_parent_links<T>(old_nodes: Seq<Node<T>>, old_kids: Seq<Seq<usize>>, nodes: Seq<Node<T>>, p: int, j: int, n: usize)
    requires
        insert_step(old_nodes, old_kids, nodes, p, j, n),
    ensures
        parent_links(nodes, old_kids.update(p, old_kids[p].insert(j, n))),
{
    let ks = old_kids[p];
    let sibling = ks[j];
    let nl = ks.insert(j, n);
    ks.insert_ensures(j, n);
    let kids = old_kids.update(p, nl);
    lemma_kid(old_nodes, old_kids, p, j);
    if j > 0 {
        lemma_kid(old_nodes, old_kids, p, j - 1);
    }
    assert forall|q: int, k: int| 0 <= q < old_kids.len() && 0 <= k < old_kids[q].len() implies #[trigger] old_kids[q][k] != n by {
        lemma_kid(old_nodes, old_kids, q, k);
    }
    reveal(parent_links);
    assert forall|c: int| 0 <= c < nodes.len() implies match #[trigger] nodes[c].parent {
        Some(pp) => pp < nodes.len() && kids[pp as int].contains(c as usize),
        None => nodes[c].prev_sibling is None && nodes[c].next_sibling is None,
    } by {
        if c == n {
            assert(kids[p][j] == n);
        } else {
            lemma_parent(old_nodes, old_kids, c);
            if let Some(q) = old_nodes[c].parent {
                assert(old_kids[q as int].contains(c as usize));
                let k = choose|k: int| 0 <= k < old_kids[q as int].len() && old_kids[q as int][k] == c as usize;
                assert(0 <= k < old_kids[q as int].len() && old_kids[q as int][k] == c as usize);
                if q == p {
                    assert(ks[k] == c as usize);
                    let k0 = if k < j { k } else { k + 1 };
                    assert(nl[k0] == c as usize);
                    assert(kids[q as int][k0] == c as usize);
                    assert(kids[q as int].contains(c as usize));
                } else {
                    assert(kids[q as int][k] == c as usize);
                    assert(kids[q as int].contains(c as usize));
                }
                assert(nodes[c].parent == Some(q));
            } else {
                assert(c != sibling);
                if j > 0 {
                    assert(c != ks[j - 1]);
                }
                assert(nodes[c].parent is None);
                assert(nodes[c].prev_sibling is None);
                assert(nodes[c].next_sibling is None);
            }
        }
    }
}

/// In a well-formed tree, following next-sibling links from a node's first child visits each
/// of its children exactly once, in order, and ends at the last child, whose next link is
/// empty; following previous-sibling links back from the last child visits them in reverse.
/// The nodes so visited are exactly those whose parent is `p`.
pub proof fn lemma_sibling_chain<T>(t: &Tree<T>, p: int)
    requires
        t.wf(),
        0 <= p < t.size(),
    ensures
        t.nodes()[p].child == opt_at(t.children(p), 0),
        forall|j: int|
            #![trigger t.children(p)[j]]
            0 <= j < t.children(p).len() ==> {
                &&& t.children(p)[j] < t.size()
                &&& t.nodes()[t.children(p)[j] as int].parent == Some(p as usize)
                &&& t.nodes()[t.children(p)[j] as int].next_sibling == opt_at(t.children(p), j + 1)
                &&& t.nodes()[t.children(p)[j] as int].prev_sibling == opt_at(t.children(p), j - 1)
            },
        t.children(p).no_duplicates(),
        forall|c: int| 0 <= c < t.size() ==> (#[trigger] t.nodes()[c].parent == Some(p as usize) <==> t.children(p).contains(c as usize)),
{
    let nodes = t.nodes();
    let kids = t.kids();
    lemma_first(nodes, kids, p);
    assert forall|j: int| 0 <= j < kids[p].len() implies {
        &&& kids[p][j] < nodes.len()
        &&& nodes[kids[p][j] as int].parent == Some(p as usize)
        &&& nodes[kids[p][j] as int].next_sibling == opt_at(kids[p], j + 1)
        &&& nodes[kids[p][j] as int].prev_sibling == opt_at(kids[p], j - 1)
    } by {
        lemma_kid(nodes, kids, p, j);
    }
    assert forall|a: int, b: int| 0 <= a < kids[p].len() && 0 <= b < kids[p].len() && a != b implies kids[p][a] != kids[p][b] by {
        if kids[p][a] == kids[p][b] {
            lemma_distinct(kids, p, a, b);
        }
    }
    assert forall|c: int| 0 <= c < nodes.len() implies (#[trigger] nodes[c].parent == Some(p as usize) <==> kids[p].contains(c as usize)) by {
        lemma_parent(nodes, kids, c);
        if kids[p].contains(c as usize) {
            let k = choose|k: int| 0 <= k < kids[p].len() && kids[p][k] == c as usize;
            lemma_kid(nodes, kids, p, k);
        }
    }
}

/// `nodes` with the payload of node `i` replaced by `v`, links untouched.
pub open spec fn with_value<T>(nodes: Seq<Node<T>>, i: int, v: T) -> Seq<Node<T>> {
    nodes.update(i, Node { value: v, ..nodes[i] })
}

/// Changing one node's payload, links untouched, keeps the links well formed.
pub proof fn lemma_value_update<T>(nodes: Seq<Node<T>>, kids: Seq<Seq<usize>>, i: int, v: T)
    requires
        links_wf(nodes, kids),
        0 <= i < nodes.len(),
    ensures
        links_wf(with_value(nodes, i, v), kids),
{
    let after = nodes.update(i, Node { value: v, ..nodes[i] });
    assert(kid_links(after, kids)) by {
        reveal(kid_links);
    }
    assert(first_links(after, kids)) by {
        reveal(first_links);
    }
    assert(parent_links(after, kids)) by {
        reveal(parent_links);
        assert forall|c: int| 0 <= c < after.len() implies match #[trigger] after[c].parent {
            Some(p) => p < after.len() && kids[p as int].contains(c as usize),
            None => after[c].prev_sibling is None && after[c].next_sibling is None,
        } by {
            lemma_parent(nodes, kids, c);
        }
    }
}

/// An arena of nodes. Identities are indices and are never reused.
pub struct Tree<T> {
    pub(crate) nodes: Vec<Node<T>>,
    kids: Ghost<Seq<Seq<usize>>>,
}

impl<T> Tree<T> {
    /// The nodes, indexed by identity.
    pub closed spec fn nodes(&self) -> Seq<Node<T>> {
        self.nodes@
    }

    /// The ordered children of each node, indexed by identity.
    pub closed spec fn kids(&self) -> Seq<Seq<usize>> {
        self.kids@
    }

    /// The number of nodes.
    pub open spec fn size(&self) -> nat {
        self.nodes().len()
    }

    /// The ordered children of node `i`.
    pub open spec fn children(&self, i: int) -> Seq<usize> {
        self.kids()[i]
    }

    /// The links of every node agree with the child lists.
    pub open spec fn wf(&self) -> bool {
        &&& links_wf(self.nodes(), self.kids())
        &&& self.size() <= usize::MAX
        &&& self.no_self_parent()
    }

    /// No node is its own parent.
    pub open spec fn no_self_parent(&self) -> bool {
        forall|c: int| 0 <= c < self.size() ==> #[trigger] self.nodes()[c].parent != Some(c as usize)
    }

    /// A tree holding one unattached node, the root, with identity 0.
    #[must_use]
    pub fn new(node: Node<T>) -> (r: Self)
        ensures
            r.wf(),
            r.size() == 1,
            r.nodes()[0].value == node.value,
            r.nodes()[0].is_unlinked(),
            r.children(0) == Seq::<usize>::empty(),
    {
        let root = Node::new(node.value);
        let nodes = vec![root];
        let ghost kids = seq![Seq::<usize>::empty()];
        let r = Self { nodes, kids: Ghost(kids) };
        proof {
            assert(r.nodes()[0] == root);
            reveal(kid_links);
            reveal(kids_distinct);
            reveal(first_links);
            reveal(parent_links);
        }
        r
    }

    /// The number of nodes.
    pub fn len(&self) -> (r: usize)
        ensures
            r == self.size(),
    {
        self.nodes.len()
    }

    /// The node at `index`, or `None` if no such node was created.
    pub fn get<'a>(&'a self, index: usize) -> (r: Option<&'a Node<T>>)
        ensures
            index < self.size() ==> r == Some(&self.nodes()[index as int]),
            index >= self.size() ==> r is None,
    {
        if index < self.nodes.len() {
            Some(&self.nodes[index])
        } else {
            None
        }
    }

    /// The payloads and the child lists stay as they were.
    pub open spec fn same_values(&self, other: &Self) -> bool {
        &&& self.size() == other.size()
        &&& forall|i: int| 0 <= i < self.size() ==> #[trigger] self.nodes()[i].value == other.nodes()[i].value
    }

    /// Every node but `x` has the same parent in `self` as in `other`.
    pub open spec fn same_parents_except(&self, other: &Self, x: int) -> bool {
        forall|i: int| 0 <= i < self.size() && i != x ==> #[trigger] self.nodes()[i].parent == other.nodes()[i].parent
    }

    /// The last child of `p`, found by walking the sibling chain.
    pub fn last_child(&self, p: usize) -> (r: Option<usize>)
        requires
            self.wf(),
            p < self.size(),
        ensures
            r == opt_at(self.children(p as int), self.children(p as int).len() - 1),
    {
        let ghost ks = self.kids@[p as int];
        proof {
            lemma_first(self.nodes@, self.kids@, p as int);
        }
        let first = self.nodes[p].child;
        match first {
            None => {
                assert(ks.len() == 0) by {
                    if ks.len() > 0 {
                        assert(opt_at(ks, 0) is Some);
                    }
                }
                None
            },
            Some(f) => {
                let mut cur: usize = f;
                let ghost mut j: int = 0;
                assert(ks[0] == f);
                loop
                    invariant
                        self.wf(),
                        p < self.size(),
                        ks == self.kids@[p as int],
                        0 <= j < ks.len(),
                        cur == ks[j],
                    ensures
                        0 <= j < ks.len(),
                        cur == ks[j],
                        j == ks.len() - 1,
                    decreases ks.len() - j,
                {
                    proof {
                        lemma_kid(self.nodes@, self.kids@, p as int, j);
                    }
                    match self.nodes[cur].next_sibling {
                        Some(nx) => {
                            cur = nx;
                            proof {
                                j = j + 1;
                            }
                        },
                        None => {
                            break ;
                        },
                    }
                }
                Some(cur)
            },
        }
    }

    /// Makes `child` the new last child of `parent`.
    pub fn append_child(&mut self, parent: usize, child: usize) -> (r: Result<(), TreeError>)
        requires
            old(self).wf(),
        ensures
            final(self).wf(),
            final(self).same_values(old(self)),
            parent >= old(self).size() || child >= old(self).size() ==> r == Err::<(), TreeError>(TreeError::NotFound) && *final(self) == *old(self),
            parent < old(self).size() && child < old(self).size() && old(self).nodes()[child as int].parent is Some ==> r == Err::<(), TreeError>(TreeError::AlreadyAttached) && *final(self) == *old(self),
            parent < old(self).size() && child < old(self).size() && old(self).nodes()[child as int].parent is None && parent == child ==> r == Err::<(), TreeError>(TreeError::Cycle) && *final(self) == *old(self),
            parent < old(self).size() && child < old(self).size() && old(self).nodes()[child as int].parent is None && parent != child ==> {
                &&& r is Ok
                &&& final(self).kids() == old(self).kids().update(parent as int, old(self).children(parent as int).push(child))
                &&& final(self).nodes()[child as int].parent == Some(parent)
                &&& final(self).same_parents_except(old(self), child as int)
            },
    {
        if parent >= self.nodes.len() || child >= self.nodes.len() {
            return Err(TreeError::NotFound);
        }
        if self.nodes[child].parent.is_some() {
            return Err(TreeError::AlreadyAttached);
        }
        if parent == child {
            return Err(TreeError::Cycle);
        }
        let ghost old_nodes = self.nodes@;
        let ghost old_kids = self.kids@;
        let last = self.last_child(parent);
        proof {
            assert forall|q: int, k: int| 0 <= q < old_kids.len() && 0 <= k < old_kids[q].len() implies #[trigger] old_kids[q][k] != child by {
                lemma_kid(old_nodes, old_kids, q, k);
            }
            lemma_parent(old_nodes, old_kids, child as int);
        }
        match last {
            Some(l) => {
                proof {
                    lemma_kid(old_nodes, old_kids, parent as int, old_kids[parent as int].len() - 1);
                }
                self.nodes[l].next_sibling = Some(child);
            },
            None => {
                self.nodes[parent].child = Some(child);
            },
        }
        self.nodes[child].parent = Some(parent);
        self.nodes[child].prev_sibling = last;
        proof {
            self.kids@ = old_kids.update(parent as int, old_kids[parent as int].push(child));
            let nodes = self.nodes@;
            let kids = self.kids@;
            let n = old_kids[parent as int].len();
            assert(kid_links(nodes, kids)) by {
                reveal(kid_links);
                assert forall|p: int, j: int| 0 <= p < kids.len() && 0 <= j < kids[p].len() implies {
                    &&& kids[p][j] < nodes.len()
                    &&& nodes[kids[p][j] as int].parent == Some(p as usize)
                    &&& nodes[kids[p][j] as int].prev_sibling == opt_at(kids[p], j - 1)
                    &&& nodes[kids[p][j] as int].next_sibling == opt_at(kids[p], j + 1)
                } by {
                    if p == parent && j == n {
                    } else {
                        lemma_kid(old_nodes, old_kids, p, j);
                        assert(kids[p][j] == old_kids[p][j]);
                        if p == parent && j > 0 {
                            assert(kids[p][j - 1] == old_kids[p][j - 1]);
                        }
                        if p == parent && j + 1 < n {
                            assert(kids[p][j + 1] == old_kids[p][j + 1]);
                        }
                        if p == parent && j + 1 == n {
                            assert(last == Some(old_kids[p][j]));
                        }
                    }
                }
            }
            assert(kids_distinct(kids)) by {
                reveal(kids_distinct);
                assert forall|p: int, j: int, k: int|
                    0 <= p < kids.len() && 0 <= j < kids[p].len() && 0 <= k < kids[p].len() && #[trigger] kids[p][j]
                        == #[trigger] kids[p][k] implies j == k by {
                    if p == parent {
                        if j < n && k < n {
                            lemma_distinct(old_kids, p, j, k);
                        } else if j < n {
                            assert(old_kids[p][j] != child);
                        } else if k < n {
                            assert(old_kids[p][k] != child);
                        }
                    } else {
                        lemma_distinct(old_kids, p, j, k);
                    }
                }
            }
            assert(first_links(nodes, kids)) by {
                reveal(first_links);
                assert forall|p: int| 0 <= p < nodes.len() implies #[trigger] nodes[p].child == opt_at(kids[p], 0) by {
                    lemma_first(old_nodes, old_kids, p);
                    if p == parent && n > 0 {
                        assert(kids[p][0] == old_kids[p][0]);
                    }
                }
            }
            assert(parent_links(nodes, kids)) by {
                reveal(parent_links);
                assert forall|c: int| 0 <= c < nodes.len() implies match #[trigger] nodes[c].parent {
                    Some(p) => p < nodes.len() && kids[p as int].contains(c as usize),
                    None => nodes[c].prev_sibling is None && nodes[c].next_sibling is None,
                } by {
                    if c == child {
                        assert(kids[parent as int][n as int] == child);
                    } else {
                        lemma_parent(old_nodes, old_kids, c);
                        if let Some(p) = old_nodes[c].parent {
                            let k = choose|k: int| 0 <= k < old_kids[p as int].len() && old_kids[p as int][k] == c as usize;
                            assert(kids[p as int][k] == c as usize);
                        }
                    }
                }
            }
            assert forall|i: int| 0 <= i < self.size() implies #[trigger] self.nodes()[i].value == old(self).nodes()[i].value by {}
        }
        Ok(())
    }

    /// Removes `id` from its parent's child list; its own children stay with it.
    #[verifier::rlimit(60)]
    pub fn detach(&mut self, id: usize) -> (r: Result<(), TreeError>)
        requires
            old(self).wf(),
        ensures
            final(self).wf(),
            final(self).same_values(old(self)),
            id >= old(self).size() ==> r == Err::<(), TreeError>(TreeError::NotFound) && *final(self) == *old(self),
            id < old(self).size() && old(self).nodes()[id as int].parent is None ==> r == Err::<(), TreeError>(TreeError::NotAttached) && *final(self) == *old(self),
            id < old(self).size() ==> (old(self).nodes()[id as int].parent matches Some(p) ==> {
                &&& r is Ok
                &&& final(self).nodes()[id as int].parent is None
                &&& final(self).same_parents_except(old(self), id as int)
                &&& final(self).kids() == old(self).kids().update(p as int, old(self).children(p as int).remove(old(self).children(p as int).index_of(id)))
            }),
    {
        if id >= self.nodes.len() {
            return Err(TreeError::NotFound);
        }
        let p = match self.nodes[id].parent {
            None => return Err(TreeError::NotAttached),
            Some(p) => p,
        };
        let ghost old_nodes = self.nodes@;
        let ghost old_kids = self.kids@;
        proof {
            lemma_parent(old_nodes, old_kids, id as int);
        }
        let ghost ks = old_kids[p as int];
        let ghost j = ks.index_of(id);
        proof {
            lemma_kid(old_nodes, old_kids, p as int, j);
            if j > 0 {
                lemma_kid(old_nodes, old_kids, p as int, j - 1);
            }
            if j + 1 < ks.len() {
                lemma_kid(old_nodes, old_kids, p as int, j + 1);
            }
            lemma_first(old_nodes, old_kids, p as int);
        }
        let prev = self.nodes[id].prev_sibling;
        let next = self.nodes[id].next_sibling;
        match prev {
            Some(q) => {
                self.nodes[q].next_sibling = next;
            },
            None => {
                self.nodes[p].child = next;
            },
        }
        match next {
            Some(n) => {
                self.nodes[n].prev_sibling = prev;
            },
            None => {},
        }
        self.nodes[id].parent = None;
        self.nodes[id].prev_sibling = None;
        self.nodes[id].next_sibling = None;
        proof {
            let nl = ks.remove(j);
            ks.remove_ensures(j);
            self.kids@ = old_kids.update(p as int, nl);
            let nodes = self.nodes@;
            let kids = self.kids@;
            assert forall|k: int| 0 <= k < ks.len() && k != j implies #[trigger] ks[k] != id by {
                if ks[k] == id {
                    lemma_distinct(old_kids, p as int, j, k);
                }
            }
            assert(kid_links(nodes, kids)) by {
                reveal(kid_links);
                assert forall|q: int, k: int| 0 <= q < kids.len() && 0 <= k < kids[q].len() implies {
                    &&& kids[q][k] < nodes.len()
                    &&& nodes[kids[q][k] as int].parent == Some(q as usize)
                    &&& nodes[kids[q][k] as int].prev_sibling == opt_at(kids[q], k - 1)
                    &&& nodes[kids[q][k] as int].next_sibling == opt_at(kids[q], k + 1)
                } by {
                    if q == p {
                        let k0 = if k < j { k } else { k + 1 };
                        assert(kids[q][k] == ks[k0]);
                        lemma_kid(old_nodes, old_kids, q, k0);
                        if k > 0 {
                            let k1 = if k - 1 < j { k - 1 } else { k };
                            assert(kids[q][k - 1] == ks[k1]);
                        }
                        if k + 1 < nl.len() {
                            let k2 = if k + 1 < j { k + 1 } else { k + 2 };
                            assert(kids[q][k + 1] == ks[k2]);
                        }
                    } else {
                        lemma_kid(old_nodes, old_kids, q, k);
                        assert(old_kids[q][k] != id);
                        if j > 0 {
                            assert(old_kids[q][k] != ks[j - 1]);
                        }
                        if j + 1 < ks.len() {
                            assert(old_kids[q][k] != ks[j + 1]);
                        }
                    }
                }
            }
            assert(kids_distinct(kids)) by {
                reveal(kids_distinct);
                assert forall|q: int, a: int, b: int|
                    0 <= q < kids.len() && 0 <= a < kids[q].len() && 0 <= b < kids[q].len() && #[trigger] kids[q][a]
                        == #[trigger] kids[q][b] implies a == b by {
                    if q == p {
                        let a0 = if a < j { a } else { a + 1 };
                        let b0 = if b < j { b } else { b + 1 };
                        assert(kids[q][a] == ks[a0]);
                        assert(kids[q][b] == ks[b0]);
                        lemma_distinct(old_kids, q, a0, b0);
                    } else {
                        lemma_distinct(old_kids, q, a, b);
                    }
                }
            }
            assert(first_links(nodes, kids)) by {
                reveal(first_links);
                assert forall|q: int| 0 <= q < nodes.len() implies #[trigger] nodes[q].child == opt_at(kids[q], 0) by {
                    lemma_first(old_nodes, old_kids, q);
                    if q == p && nl.len() > 0 {
                        let k0 = if 0 < j { 0 } else { 1 };
                        assert(kids[q][0] == ks[k0]);
                    }
                }
            }
            assert(parent_links(nodes, kids)) by {
                reveal(parent_links);
                assert forall|c: int| 0 <= c < nodes.len() implies match #[trigger] nodes[c].parent {
                    Some(p) => p < nodes.len() && kids[p as int].contains(c as usize),
                    None => nodes[c].prev_sibling is None && nodes[c].next_sibling is None,
                } by {
                    if c != id {
                        lemma_parent(old_nodes, old_kids, c);
                        if let Some(q) = old_nodes[c].parent {
                            let k = choose|k: int| 0 <= k < old_kids[q as int].len() && old_kids[q as int][k] == c as usize;
                            if q == p {
                                assert(k != j);
                                let k0 = if k < j { k } else { k - 1 };
                                assert(kids[q as int][k0] == c as usize);
                            } else {
                                assert(kids[q as int][k] == c as usize);
                            }
                        }
                    }
                }
            }
            assert forall|i: int| 0 <= i < self.size() implies #[trigger] self.nodes()[i].value == old(self).nodes()[i].value by {}
        }
        Ok(())
    }

    /// Inserts the unattached node `new_node` immediately before `sibling`.
    #[verifier::rlimit(100)]
    pub fn insert_before(&mut self, sibling: usize, new_node: usize) -> (r: Result<(), TreeError>)
        requires
            old(self).wf(),
        ensures
            final(self).wf(),
            final(self).same_values(old(self)),
            sibling >= old(self).size() || new_node >= old(self).size() ==> r == Err::<(), TreeError>(TreeError::NotFound) && *final(self) == *old(self),
            sibling < old(self).size() && new_node < old(self).size() ==> {
                let s = old(self).nodes()[sibling as int];
                let n = old(self).nodes()[new_node as int];
                &&& n.parent is Some ==> r == Err::<(), TreeError>(TreeError::AlreadyAttached) && *final(self) == *old(self)
                &&& n.parent is None && s.parent is None ==> r == Err::<(), TreeError>(TreeError::NoParent) && *final(self) == *old(self)
                &&& n.parent is None ==> (s.parent matches Some(p) ==> p == new_node ==> r == Err::<(), TreeError>(TreeError::Cycle) && *final(self) == *old(self))
                &&& n.parent is None ==> (s.parent matches Some(p) ==> p != new_node ==> {
                    &&& r is Ok
                    &&& final(self).nodes()[new_node as int].parent == Some(p)
                    &&& final(self).same_parents_except(old(self), new_node as int)
                    &&& final(self).kids() == old(self).kids().update(p as int, old(self).children(p as int).insert(old(self).children(p as int).index_of(sibling), new_node))
                })
            },
    {
        if sibling >= self.nodes.len() || new_node >= self.nodes.len() {
            return Err(TreeError::NotFound);
        }
        if self.nodes[new_node].parent.is_some() {
            return Err(TreeError::AlreadyAttached);
        }
        let p = match self.nodes[sibling].parent {
            None => return Err(TreeError::NoParent),
            Some(p) => p,
        };
        if p == new_node {
            return Err(TreeError::Cycle);
        }
        let ghost old_nodes = self.nodes@;
        let ghost old_kids = self.kids@;
        proof {
            lemma_parent(old_nodes, old_kids, sibling as int);
            lemma_parent(old_nodes, old_kids, new_node as int);
        }
        let ghost ks = old_kids[p as int];
        let ghost j = ks.index_of(sibling);
        proof {
            lemma_kid(old_nodes, old_kids, p as int, j);
            if j > 0 {
                lemma_kid(old_nodes, old_kids, p as int, j - 1);
            }
            lemma_first(old_nodes, old_kids, p as int);
            assert forall|q: int, k: int| 0 <= q < old_kids.len() && 0 <= k < old_kids[q].len() implies #[trigger] old_kids[q][k] != new_node by {
                lemma_kid(old_nodes, old_kids, q, k);
            }
        }
        let prev = self.nodes[sibling].prev_sibling;
        match prev {
            Some(q) => {
                self.nodes[q].next_sibling = Some(new_node);
            },
            None => {
                self.nodes[p].child = Some(new_node);
            },
        }
        self.nodes[sibling].prev_sibling = Some(new_node);
        self.nodes[new_node].parent = Some(p);
        self.nodes[new_node].prev_sibling = prev;
        self.nodes[new_node].next_sibling = Some(sibling);
        proof {
            let nodes = self.nodes@;
            assert forall|i: int| 0 <= i < nodes.len() implies #[trigger] nodes[i] == (Node {
                parent: if i == new_node { Some(p) } else { old_nodes[i].parent },
                child: if i == p && j == 0 { Some(new_node) } else { old_nodes[i].child },
                prev_sibling: if i == sibling { Some(new_node) } else if i == new_node { opt_at(ks, j - 1) } else { old_nodes[i].prev_sibling },
                next_sibling: if i == new_node { Some(sibling) } else if j > 0 && i == ks[j - 1] { Some(new_node) } else { old_nodes[i].next_sibling },
                value: old_nodes[i].value,
            }) by {}
            lemma_insert_wf(old_nodes, old_kids, nodes, p as int, j, new_node);
            self.kids@ = old_kids.update(p as int, ks.insert(j, new_node));
            assert forall|i: int| 0 <= i < self.size() implies #[trigger] self.nodes()[i].value == old(self).nodes()[i].value by {}
        }
        Ok(())
    }

    /// Moves every child of `from` to the end of the children of `to`, in order.
    pub fn reparent_children(&mut self, from: usize, to: usize) -> (r: Result<(), TreeError>)
        requires
            old(self).wf(),
        ensures
            final(self).wf(),
            final(self).same_values(old(self)),
            from >= old(self).size() || to >= old(self).size() ==> r == Err::<(), TreeError>(TreeError::NotFound) && *final(self) == *old(self),
            from < old(self).size() && to < old(self).size() && from == to ==> r is Ok && *final(self) == *old(self),
            from < old(self).size() && to < old(self).size() && from != to && old(self).nodes()[to as int].parent == Some(from) ==> r == Err::<(), TreeError>(TreeError::Cycle) && *final(self) == *old(self),
            from < old(self).size() && to < old(self).size() && from != to && old(self).nodes()[to as int].parent != Some(from) ==> {
                &&& r is Ok
                &&& final(self).kids() == old(self).kids().update(
                    to as int,
                    old(self).children(to as int) + old(self).children(from as int),
                ).update(from as int, Seq::<usize>::empty())
                &&& forall|j: int| 0 <= j < old(self).size() && !old(self).children(from as int).contains(j as usize) ==> #[trigger] final(self).nodes()[j].parent == old(self).nodes()[j].parent
            },
    {
        if from >= self.nodes.len() || to >= self.nodes.len() {
            return Err(TreeError::NotFound);
        }
        if from == to {
            return Ok(());
        }
        if self.nodes[to].parent == Some(from) {
            return Err(TreeError::Cycle);
        }
        let ghost old_kids = self.kids@;
        let ghost fs = old_kids[from as int];
        let ghost ts = old_kids[to as int];
        let ghost mut i: int = 0;
        proof {
            if fs.contains(to) {
                let k = choose|k: int| 0 <= k < fs.len() && fs[k] == to;
                lemma_kid(self.nodes@, old_kids, from as int, k);
            }
            assert(fs.subrange(0, fs.len() as int) =~= fs);
            assert(ts + fs.subrange(0, 0) =~= ts);
            assert(old_kids.update(from as int, fs) =~= old_kids);
            assert(old_kids.update(to as int, ts) =~= old_kids);
        }
        loop
            invariant
                self.wf(),
                self.same_values(old(self)),
                from < self.size(),
                to < self.size(),
                from != to,
                old_kids == old(self).kids(),
                from < old_kids.len(),
                to < old_kids.len(),
                fs == old_kids[from as int],
                ts == old_kids[to as int],
                0 <= i <= fs.len(),
                !fs.contains(to),
                self.kids@ == old_kids.update(from as int, fs.subrange(i, fs.len() as int)).update(to as int, ts + fs.subrange(0, i)),
                forall|j: int| 0 <= j < old(self).size() && !fs.contains(j as usize) ==> #[trigger] self.nodes()[j].parent == old(self).nodes()[j].parent,
            ensures
                i == fs.len(),
                self.wf(),
                self.same_values(old(self)),
                self.kids@ == old_kids.update(from as int, fs.subrange(i, fs.len() as int)).update(to as int, ts + fs.subrange(0, i)),
                forall|j: int| 0 <= j < old(self).size() && !fs.contains(j as usize) ==> #[trigger] self.nodes()[j].parent == old(self).nodes()[j].parent,
            decreases fs.len() - i,
        {
            proof {
                lemma_first(self.nodes@, self.kids@, from as int);
            }
            match self.nodes[from].child {
                None => {
                    proof {
                        assert(self.kids@[from as int] == fs.subrange(i, fs.len() as int));
                        assert(opt_at(self.kids@[from as int], 0) is None);
                    }
                    break ;
                },
                Some(c) => {
                    let ghost ks = self.kids@[from as int];
                    proof {
                        assert(self.kids@.len() == old_kids.len());
                        assert(ks == fs.subrange(i, fs.len() as int));
                        lemma_kid(self.nodes@, self.kids@, from as int, 0);
                        assert(ks.contains(c));
                        lemma_distinct(self.kids@, from as int, 0, ks.index_of(c));
                    }
                    let ghost k0 = self.kids@;
                    let _ = self.detach(c);
                    let ghost k1 = self.kids@;
                    proof {
                        assert(k1 == k0.update(from as int, ks.remove(0)));
                    }
                    let _ = self.append_child(to, c);
                    proof {
                        assert(self.kids@ == k1.update(to as int, k1[to as int].push(c)));
                        assert(ks.remove(0) =~= fs.subrange(i + 1, fs.len() as int));
                        assert((ts + fs.subrange(0, i)).push(c) =~= ts + fs.subrange(0, i + 1));
                        assert(self.kids@ =~= old_kids.update(from as int, fs.subrange(i + 1, fs.len() as int)).update(to as int, ts + fs.subrange(0, i + 1)));
                        i = i + 1;
                    }
                },
            }
        }
        proof {
            assert(fs.subrange(i, fs.len() as int) =~= Seq::<usize>::empty());
            assert(fs.subrange(0, i) =~= fs);
            assert(self.kids@ =~= old_kids.update(to as int, ts + fs).update(from as int, Seq::<usize>::empty()));
        }
        Ok(())
    }

    /// The identity of the node created first: the root.
    pub fn first_node_id(&self) -> (r: Result<usize, TreeError>)
        ensures
            self.size() > 0 ==> r == Ok::<usize, TreeError>(0),
            self.size() == 0 ==> r == Err::<usize, TreeError>(TreeError::Empty),
    {
        if self.nodes.len() > 0 {
            Ok(0)
        } else {
            Err(TreeError::Empty)
        }
    }

    /// Puts `value` into node `index` and hands back the payload it held; the links stay.
    pub fn set_value(&mut self, index: usize, value: T) -> (r: Result<T, TreeError>)
        requires
            old(self).wf(),
        ensures
            final(self).wf(),
            final(self).kids() == old(self).kids(),
            index >= old(self).size() ==> r == Err::<T, TreeError>(TreeError::NotFound) && *final(self) == *old(self),
            index < old(self).size() ==> {
                &&& r == Ok::<T, TreeError>(old(self).nodes()[index as int].value)
                &&& final(self).nodes() == old(self).nodes().update(index as int, Node { value, ..old(self).nodes()[index as int] })
            },
    {
        if index >= self.nodes.len() {
            return Err(TreeError::NotFound);
        }
        let mut v = value;
        std::mem::swap(&mut self.nodes[index].value, &mut v);
        proof {
            let nodes = self.nodes@;
            let kids = self.kids@;
            let old_nodes = old(self).nodes@;
            assert(kid_links(nodes, kids)) by {
                reveal(kid_links);
            }
            assert(first_links(nodes, kids)) by {
                reveal(first_links);
            }
            assert(parent_links(nodes, kids)) by {
                reveal(parent_links);
                assert forall|c: int| 0 <= c < nodes.len() implies match #[trigger] nodes[c].parent {
                    Some(p) => p < nodes.len() && kids[p as int].contains(c as usize),
                    None => nodes[c].prev_sibling is None && nodes[c].next_sibling is None,
                } by {
                    lemma_parent(old_nodes, kids, c);
                }
            }
            assert(self.nodes@ =~= old_nodes.update(index as int, Node { value, ..old_nodes[index as int] }));
        }
        Ok(v)
    }

    /// A tree whose only change is the payload of one node is as well formed as before; so
    /// whatever is written through `get_mut`, the tree stays well formed.
    pub proof fn lemma_payload_change(before: &Self, after: &Self, i: int, v: T)
        requires
            before.wf(),
            0 <= i < before.size(),
            after.kids() == before.kids(),
            after.nodes() == with_value(before.nodes(), i, v),
        ensures
            after.wf(),
    {
        lemma_value_update(before.nodes(), before.kids(), i, v);
    }

    /// The payload of node `index`, to change in place; the links cannot be reached this way.
    pub fn get_mut<'a>(&'a mut self, index: usize) -> (r: Option<&'a mut T>)
        requires
            old(self).wf(),
        ensures
            index >= old(self).size() ==> r is None && *final(self) == *old(self),
            index < old(self).size() ==> (r matches Some(v) && *v == old(self).nodes()[index as int].value
                && final(self).kids() == old(self).kids()
                && final(self).nodes() == with_value(old(self).nodes(), index as int, *final(v))),
    {
        if index < self.nodes.len() {
            Some(&mut self.nodes[index].value)
        } else {
            None
        }
    }

    /// Adds a new unattached node holding `value`; returns its identity.
    pub fn create_node(&mut self, value: T) -> (id: usize)
        requires
            old(self).wf(),
        ensures
            final(self).wf(),
            id == old(self).size(),
            final(self).nodes() == old(self).nodes().push(Node::new_spec(value)),
            final(self).kids() == old(self).kids().push(Seq::<usize>::empty()),
    {
        let id = self.nodes.len();
        self.nodes.push(Node::new(value));
        proof {
            vstd::std_specs::vec::axiom_spec_len(&self.nodes);
            self.kids@ = self.kids@.push(Seq::<usize>::empty());
        }
        proof {
            let old_nodes = old(self).nodes@;
            let old_kids = old(self).kids@;
            let nodes = self.nodes@;
            let kids = self.kids@;
            assert(kid_links(nodes, kids)) by {
                reveal(kid_links);
                assert forall|p: int, j: int| 0 <= p < kids.len() && 0 <= j < kids[p].len() implies {
                    &&& kids[p][j] < nodes.len()
                    &&& nodes[kids[p][j] as int].parent == Some(p as usize)
                    &&& nodes[kids[p][j] as int].prev_sibling == opt_at(kids[p], j - 1)
                    &&& nodes[kids[p][j] as int].next_sibling == opt_at(kids[p], j + 1)
                } by {
                    lemma_kid(old_nodes, old_kids, p, j);
                }
            }
            assert(kids_distinct(kids)) by {
                reveal(kids_distinct);
                assert forall|p: int, j: int, k: int|
                    0 <= p < kids.len() && 0 <= j < kids[p].len() && 0 <= k < kids[p].len() && #[trigger] kids[p][j]
                        == #[trigger] kids[p][k] implies j == k by {
                    lemma_distinct(old_kids, p, j, k);
                }
            }
            assert(first_links(nodes, kids)) by {
                reveal(first_links);
                assert forall|p: int| 0 <= p < nodes.len() implies #[trigger] nodes[p].child == opt_at(kids[p], 0) by {
                    if p < id {
                        lemma_first(old_nodes, old_kids, p);
                    }
                }
            }
            assert(parent_links(nodes, kids)) by {
                reveal(parent_links);
                assert forall|c: int| 0 <= c < nodes.len() implies match #[trigger] nodes[c].parent {
                    Some(p) => p < nodes.len() && kids[p as int].contains(c as usize),
                    None => nodes[c].prev_sibling is None && nodes[c].next_sibling is None,
                } by {
                    if c < id {
                        lemma_parent(old_nodes, old_kids, c);
                        if let Some(p) = nodes[c].parent {
                            assert(kids[p as int] == old_kids[p as int]);
                        }
                    }
                }
            }
        }
        id
    }
}

} // verus!
