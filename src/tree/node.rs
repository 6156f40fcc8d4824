use vstd::prelude::*;

verus! {

/// One cell of the arena: structural links by identity, and a payload.
#[derive(Debug, Clone, Copy)]
pub struct Node<T> {
    /// The node's parent, if it is attached.
    pub parent: Option<usize>,
    /// The sibling immediately before this node.
    pub prev_sibling: Option<usize>,
    /// The sibling immediately after this node.
    pub next_sibling: Option<usize>,
    /// The node's first child.
    pub child: Option<usize>,
    /// The payload.
    pub value: T,
}

impl<T> Node<T> {
    /// A node with no parent, no siblings and no children.
    pub open spec fn is_unlinked(&self) -> bool {
        &&& self.parent is None
        &&& self.prev_sibling is None
        &&& self.next_sibling is None
        &&& self.child is None
    }

    /// The node that `new` makes.
    pub open spec fn new_spec(value: T) -> Self {
        Node { parent: None, prev_sibling: None, next_sibling: None, child: None, value }
    }

    /// Create a new node
    pub fn new(value: T) -> (r: Self)
        ensures
            r == Self::new_spec(value),
    {
        Self { parent: None, prev_sibling: None, next_sibling: None, child: None, value }
    }
}

/// A walk over a slice of nodes: from each node to its first child, else its next sibling,
/// else its parent's next sibling.
pub struct Iter<'a, T> {
    /// The node to yield next.
    pub node: Option<&'a Node<T>>,
    /// The nodes that links index into.
    pub range: &'a [Node<T>],
}

/// The node at `i` of `range`, if `i` is in range.
pub open spec fn node_at<'a, T>(range: &'a [Node<T>], i: usize) -> Option<&'a Node<T>> {
    if i < range@.len() {
        Some(&range@[i as int])
    } else {
        None
    }
}

impl<'a, T> Iter<'a, T> {
    /// Where the walk goes after `n`; `None` when `n`'s parent is missing or has no next
    /// sibling that the walk can take.
    pub open spec fn after(range: &'a [Node<T>], n: &'a Node<T>) -> Option<Option<&'a Node<T>>> {
        match n.child {
            Some(c) => Some(node_at(range, c)),
            None => match n.next_sibling {
                Some(s) => Some(node_at(range, s)),
                None => match n.parent {
                    Some(p) => match node_at(range, p) {
                        Some(pn) => match pn.next_sibling {
                            Some(x) => Some(node_at(range, x)),
                            None => None,
                        },
                        None => None,
                    },
                    None => Some(None),
                },
            },
        }
    }

    fn at(range: &'a [Node<T>], i: usize) -> (r: Option<&'a Node<T>>)
        ensures
            r == node_at(range, i),
    {
        if i < range.len() {
            Some(&range[i])
        } else {
            None
        }
    }

    /// Yields the current node's payload and moves on. When the walk climbs to a parent
    /// that is missing or has no next sibling, it yields nothing and stays put.
    pub fn next(&mut self) -> (r: Option<&'a T>)
        ensures
            old(self).node is None ==> r is None && *final(self) == *old(self),
            old(self).node matches Some(n) ==> match Self::after(old(self).range, n) {
                Some(nx) => r == Some(&n.value) && final(self).node == nx && final(self).range == old(self).range,
                None => r is None && *final(self) == *old(self),
            },
    {
        let node = match self.node {
            Some(n) => n,
            None => return None,
        };
        let next = if let Some(child) = node.child {
            Self::at(self.range, child)
        } else if let Some(sibling) = node.next_sibling {
            Self::at(self.range, sibling)
        } else if let Some(parent) = node.parent {
            let pn = match Self::at(self.range, parent) {
                Some(pn) => pn,
                None => return None,
            };
            let nx = match pn.next_sibling {
                Some(nx) => nx,
                None => return None,
            };
            Self::at(self.range, nx)
        } else {
            None
        };
        self.node = next;
        Some(&node.value)
    }
}

} // verus!
