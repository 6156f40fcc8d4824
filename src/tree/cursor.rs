//! A handle that moves over one tree by identity.
use vstd::prelude::*;

use super::{opt_at, Tree, TreeError};

verus! {

/// A position in a tree. Moves that find no such relative leave the position unchanged.
pub struct Cursor<'a, T> {
    tree: &'a Tree<T>,
    id: usize,
}

impl<'a, T> Cursor<'a, T> {
    /// The tree the cursor moves over.
    pub closed spec fn tree_spec(&self) -> &'a Tree<T> {
        self.tree
    }

    /// The current position.
    pub closed spec fn at(&self) -> usize {
        self.id
    }

    /// The cursor is over a well-formed tree, at one of its nodes.
    pub open spec fn valid(&self) -> bool {
        self.tree_spec().wf() && self.at() < self.tree_spec().size()
    }

    /// A cursor at `id`, if that node exists.
    pub fn new(tree: &'a Tree<T>, id: usize) -> (r: Result<Self, TreeError>)
        requires
            tree.wf(),
        ensures
            id < tree.size() ==> (r matches Ok(c) && c.valid() && c.at() == id && c.tree_spec() == tree),
            id >= tree.size() ==> r == Err::<Self, TreeError>(TreeError::NotFound),
    {
        if id < tree.len() {
            Ok(Cursor { tree, id })
        } else {
            Err(TreeError::NotFound)
        }
    }

    /// The current position.
    pub fn id(&self) -> (r: usize)
        ensures
            r == self.at(),
    {
        self.id
    }

    /// The payload at the current position.
    pub fn get(&self) -> (r: &'a T)
        requires
            self.valid(),
        ensures
            *r == self.tree_spec().nodes()[self.at() as int].value,
    {
        &self.tree.nodes[self.id].value
    }

    /// The parent of the current position, without moving.
    pub fn peek_parent(&self) -> (r: Option<usize>)
        requires
            self.valid(),
        ensures
            r == self.tree_spec().nodes()[self.at() as int].parent,
    {
        self.tree.nodes[self.id].parent
    }

    /// Moves to `to` if it is present.
    fn go(&mut self, to: Option<usize>) -> (r: Result<(), TreeError>)
        requires
            old(self).valid(),
            to matches Some(n) ==> n < old(self).tree_spec().size(),
        ensures
            final(self).valid(),
            final(self).tree_spec() == old(self).tree_spec(),
            to matches Some(n) ==> r is Ok && final(self).at() == n,
            to is None ==> r == Err::<(), TreeError>(TreeError::NoSuchRelative) && final(self).at() == old(self).at(),
    {
        match to {
            Some(n) => {
                self.id = n;
                Ok(())
            },
            None => Err(TreeError::NoSuchRelative),
        }
    }

    /// Moves to the parent.
    pub fn parent(&mut self) -> (r: Result<(), TreeError>)
        requires
            old(self).valid(),
        ensures
            final(self).valid(),
            final(self).tree_spec() == old(self).tree_spec(),
            old(self).tree_spec().nodes()[old(self).at() as int].parent matches Some(p) ==> r is Ok && final(self).at() == p,
            old(self).tree_spec().nodes()[old(self).at() as int].parent is None ==> r == Err::<(), TreeError>(TreeError::NoSuchRelative) && final(self).at() == old(self).at(),
    {
        proof {
            super::lemma_parent(self.tree.nodes(), self.tree.kids(), self.id as int);
        }
        let to = self.tree.nodes[self.id].parent;
        self.go(to)
    }

    /// Moves to the first child.
    pub fn first_child(&mut self) -> (r: Result<(), TreeError>)
        requires
            old(self).valid(),
        ensures
            final(self).valid(),
            final(self).tree_spec() == old(self).tree_spec(),
            opt_at(old(self).tree_spec().children(old(self).at() as int), 0) matches Some(c) ==> r is Ok && final(self).at() == c,
            old(self).tree_spec().children(old(self).at() as int).len() == 0 ==> r == Err::<(), TreeError>(TreeError::NoSuchRelative) && final(self).at() == old(self).at(),
    {
        proof {
            super::lemma_first(self.tree.nodes(), self.tree.kids(), self.id as int);
            if self.tree.children(self.id as int).len() > 0 {
                super::lemma_kid(self.tree.nodes(), self.tree.kids(), self.id as int, 0);
            }
        }
        let to = self.tree.nodes[self.id].child;
        self.go(to)
    }

    /// Moves to the last child.
    pub fn last_child(&mut self) -> (r: Result<(), TreeError>)
        requires
            old(self).valid(),
        ensures
            final(self).valid(),
            final(self).tree_spec() == old(self).tree_spec(),
            old(self).tree_spec().children(old(self).at() as int).len() > 0 ==> r is Ok && final(self).at() == old(self).tree_spec().children(old(self).at() as int).last(),
            old(self).tree_spec().children(old(self).at() as int).len() == 0 ==> r == Err::<(), TreeError>(TreeError::NoSuchRelative) && final(self).at() == old(self).at(),
    {
        let to = self.tree.last_child(self.id);
        proof {
            let ks = self.tree.children(self.id as int);
            if ks.len() > 0 {
                super::lemma_kid(self.tree.nodes(), self.tree.kids(), self.id as int, ks.len() - 1);
            }
        }
        self.go(to)
    }

    /// Moves to the previous sibling.
    pub fn prev_sibling(&mut self) -> (r: Result<(), TreeError>)
        requires
            old(self).valid(),
        ensures
            final(self).valid(),
            final(self).tree_spec() == old(self).tree_spec(),
            old(self).tree_spec().nodes()[old(self).at() as int].prev_sibling matches Some(q) ==> r is Ok && final(self).at() == q,
            old(self).tree_spec().nodes()[old(self).at() as int].prev_sibling is None ==> r == Err::<(), TreeError>(TreeError::NoSuchRelative) && final(self).at() == old(self).at(),
    {
        proof {
            self.lemma_sibling_in_range();
        }
        let to = self.tree.nodes[self.id].prev_sibling;
        self.go(to)
    }

    /// Moves to the next sibling.
    pub fn next_sibling(&mut self) -> (r: Result<(), TreeError>)
        requires
            old(self).valid(),
        ensures
            final(self).valid(),
            final(self).tree_spec() == old(self).tree_spec(),
            old(self).tree_spec().nodes()[old(self).at() as int].next_sibling matches Some(q) ==> r is Ok && final(self).at() == q,
            old(self).tree_spec().nodes()[old(self).at() as int].next_sibling is None ==> r == Err::<(), TreeError>(TreeError::NoSuchRelative) && final(self).at() == old(self).at(),
    {
        proof {
            self.lemma_sibling_in_range();
        }
        let to = self.tree.nodes[self.id].next_sibling;
        self.go(to)
    }

    /// The sibling links of a node in a well-formed tree name nodes of that tree.
    proof fn lemma_sibling_in_range(&self)
        requires
            self.valid(),
        ensures
            self.tree.nodes()[self.id as int].prev_sibling matches Some(q) ==> q < self.tree.size(),
            self.tree.nodes()[self.id as int].next_sibling matches Some(q) ==> q < self.tree.size(),
    {
        let nodes = self.tree.nodes();
        let kids = self.tree.kids();
        super::lemma_parent(nodes, kids, self.id as int);
        if let Some(p) = nodes[self.id as int].parent {
            let j = choose|j: int| 0 <= j < kids[p as int].len() && kids[p as int][j] == self.id;
            super::lemma_kid(nodes, kids, p as int, j);
            if j > 0 {
                super::lemma_kid(nodes, kids, p as int, j - 1);
            }
            if j + 1 < kids[p as int].len() {
                super::lemma_kid(nodes, kids, p as int, j + 1);
            }
        }
    }
}

} // verus!
