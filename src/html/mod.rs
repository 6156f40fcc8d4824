//! A markup document held in an arena tree, and the operations that build it.
use vstd::prelude::*;
use vstd::string::*;

pub mod node;

use self::node::{
    add_missing, attrs_view, names_unique, Attribute, Comment, Doctype, Element,
    NameView, Node, ProcessingInstruction, QualName, Text,
};
use crate::tree::{Tree, TreeError};

verus! {

/// The document-compatibility mode that the parser settled on.
#[derive(Debug, Clone, Copy, PartialEq, Eq, Structural)]
pub enum QuirksMode {
    /// Full quirks mode.
    Quirks,
    /// Limited quirks mode.
    LimitedQuirks,
    /// No quirks mode.
    NoQuirks,
}

/// What to place: a node already created, or text.
pub enum NodeOrText {
    /// A node, by identity.
    AppendNode(usize),
    /// Text, to merge into an adjacent text node or to hold in a new one.
    AppendText(String),
}

/// Adds to `e` each attribute of `new` whose name it lacks, in order.
fn add_missing_attrs_to(e: &mut Element, new: Vec<Attribute>)
    ensures
        final(e).name == old(e).name,
        final(e).id == old(e).id,
        final(e).classes == old(e).classes,
        attrs_view(final(e).attrs@) == add_missing(attrs_view(old(e).attrs@), attrs_view(new@)),
{
    self::node::add_missing_attrs(&mut e.attrs, new);
}

/// `add_missing` keeps names distinct where they were.
proof fn lemma_add_missing_unique_if(existing: Seq<self::node::AttrView>, new: Seq<self::node::AttrView>)
    ensures
        names_unique(existing) ==> names_unique(add_missing(existing, new)),
{
    if names_unique(existing) {
        self::node::lemma_add_missing_unique(existing, new);
    }
}

/// The text of a text node.
pub open spec fn text_of(n: Node) -> Option<Seq<char>> {
    match n {
        Node::Text(t) => Some(t.text@),
        _ => None,
    }
}

/// The namespace of HTML elements.
pub open spec fn html_ns() -> Seq<char> {
    "http://www.w3.org/1999/xhtml"@
}

/// The local name of the template element.
pub open spec fn template_local() -> Seq<char> {
    "template"@
}

/// A name that is the HTML template element's.
pub open spec fn is_template(n: NameView) -> bool {
    n.1 == html_ns() && n.2 == template_local()
}

/// A document or fragment built from construction events.
pub struct Html {
    /// The tree of the parsed HTML
    pub tree: Tree<Node>,
    /// QuirksMode
    pub quirks_mode: QuirksMode,
    /// Errors during parsing
    pub errors: Vec<String>,
}

impl Html {
    /// The tree is well formed and holds its root.
    pub open spec fn wf(&self) -> bool {
        &&& self.tree.wf()
        &&& self.tree.size() >= 1
        &&& Self::root_ok(self.tree.nodes()[0])
    }

    /// The root holds the document or the fragment and has no parent.
    pub open spec fn root_ok(n: crate::tree::node::Node<Node>) -> bool {
        &&& n.parent is None
        &&& (n.value is Document || n.value is Fragment)
    }

    /// The text held at node `i`, if it is a text node.
    pub open spec fn text_at(&self, i: int) -> Option<Seq<char>> {
        text_of(self.tree.nodes()[i].value)
    }

    /// `new` is `old` with `t` added to the end of text node `l`, and nothing else changed.
    pub open spec fn merged_into(old: &Html, new: &Html, l: int, t: Seq<char>) -> bool {
        &&& new.tree.kids() == old.tree.kids()
        &&& new.tree.size() == old.tree.size()
        &&& new.text_at(l) == Some(old.text_at(l).unwrap() + t)
        &&& forall|i: int| 0 <= i < old.tree.size() && i != l ==> #[trigger] new.tree.nodes()[i] == old.tree.nodes()[i]
        &&& new.tree.nodes()[l].parent == old.tree.nodes()[l].parent
    }

    /// `new` is `old` with one new text node holding `t`, at the end of the node list, that
    /// the child list `placed` of `parent` takes in.
    pub open spec fn text_node_added(old: &Html, new: &Html, parent: int, placed: Seq<usize>, t: Seq<char>) -> bool {
        let n = old.tree.size();
        &&& new.tree.size() == n + 1
        &&& new.tree.kids() == old.tree.kids().push(Seq::<usize>::empty()).update(parent, placed)
        &&& new.text_at(n as int) == Some(t)
        &&& new.tree.nodes()[n as int].parent == Some(parent as usize)
        &&& new.tree.same_parents_except(&old.tree, n as int)
        &&& forall|i: int| 0 <= i < n ==> #[trigger] new.tree.nodes()[i].value == old.tree.nodes()[i].value
    }

    /// The effect of appending text `t` under `parent`: merged into the last child if that is
    /// text, else held in a new last child.
    pub open spec fn appended_text(old: &Html, new: &Html, parent: int, t: Seq<char>) -> bool {
        let ks = old.tree.children(parent);
        if ks.len() > 0 && old.text_at(ks.last() as int) is Some {
            Self::merged_into(old, new, ks.last() as int, t)
        } else {
            Self::text_node_added(old, new, parent, ks.push(old.tree.size() as usize), t)
        }
    }

    /// The outcome of appending `child` under `parent`, with result `r`.
    pub open spec fn appended(old: &Html, new: &Html, parent: usize, child: NodeOrText, r: Result<(), TreeError>) -> bool {
        if parent >= old.tree.size() {
            r == Err::<(), TreeError>(TreeError::NotFound) && *new == *old
        } else {
            match child {
                NodeOrText::AppendText(t) => r is Ok && Self::appended_text(old, new, parent as int, t@),
                NodeOrText::AppendNode(c) => {
                    &&& c >= old.tree.size() ==> r == Err::<(), TreeError>(TreeError::NotFound) && *new == *old
                    &&& c == 0 ==> r == Err::<(), TreeError>(TreeError::InvariantViolation) && *new == *old
                    &&& 0 < c < old.tree.size() && old.tree.nodes()[c as int].parent is Some ==> r == Err::<(), TreeError>(TreeError::AlreadyAttached) && *new == *old
                    &&& 0 < c < old.tree.size() && old.tree.nodes()[c as int].parent is None && c == parent ==> r == Err::<(), TreeError>(TreeError::Cycle) && *new == *old
                    &&& 0 < c < old.tree.size() && old.tree.nodes()[c as int].parent is None && c != parent ==> {
                        &&& r is Ok
                        &&& new.tree.kids() == old.tree.kids().update(parent as int, old.tree.children(parent as int).push(c))
                        &&& new.tree.nodes()[c as int].parent == Some(parent)
                        &&& new.tree.same_parents_except(&old.tree, c as int)
                        &&& new.tree.same_values(&old.tree)
                    }
                },
            }
        }
    }

    /// The effect of placing text `t` before `sibling`, whose parent is `p`: merged into the
    /// previous sibling if that is text, else held in a new node just before `sibling`.
    pub open spec fn inserted_text(old: &Html, new: &Html, sibling: int, p: int, t: Seq<char>) -> bool {
        let ks = old.tree.children(p);
        match old.tree.nodes()[sibling].prev_sibling {
            Some(q) if old.text_at(q as int) is Some => Self::merged_into(old, new, q as int, t),
            _ => Self::text_node_added(old, new, p, ks.insert(ks.index_of(sibling as usize), old.tree.size() as usize), t),
        }
    }

    /// A new document: a tree holding only the document root.
    pub fn new_document() -> (r: Self)
        ensures
            r.wf(),
            r.tree.size() == 1,
            r.tree.nodes()[0].value is Document,
            r.tree.nodes()[0].parent is None,
            r.tree.children(0) == Seq::<usize>::empty(),
            r.quirks_mode == QuirksMode::NoQuirks,
            r.errors@.len() == 0,
    {
        Html { tree: Tree::new(crate::tree::node::Node::new(Node::Document)), quirks_mode: QuirksMode::NoQuirks, errors: Vec::new() }
    }

    /// A new fragment: a tree holding only the fragment root.
    pub fn new_fragment() -> (r: Self)
        ensures
            r.wf(),
            r.tree.size() == 1,
            r.tree.nodes()[0].value is Fragment,
            r.tree.nodes()[0].parent is None,
            r.tree.children(0) == Seq::<usize>::empty(),
            r.quirks_mode == QuirksMode::NoQuirks,
            r.errors@.len() == 0,
    {
        Html { tree: Tree::new(crate::tree::node::Node::new(Node::Fragment)), quirks_mode: QuirksMode::NoQuirks, errors: Vec::new() }
    }

    /// Records a parse error; construction goes on.
    pub fn parse_error(&mut self, msg: String)
        ensures
            final(self).errors@ == old(self).errors@.push(msg),
            final(self).tree == old(self).tree,
            final(self).quirks_mode == old(self).quirks_mode,
    {
        self.errors.push(msg);
    }

    /// The identity of the document root.
    pub fn get_document(&self) -> (r: usize)
        ensures
            r == 0,
    {
        0
    }

    /// The identity of the same node, compared by identity alone.
    pub fn same_node(&self, x: usize, y: usize) -> (r: bool)
        ensures
            r == (x == y),
    {
        x == y
    }

    /// Records the quirks mode.
    pub fn set_quirks_mode(&mut self, mode: QuirksMode)
        ensures
            final(self).quirks_mode == mode,
            final(self).tree == old(self).tree,
            final(self).errors == old(self).errors,
    {
        self.quirks_mode = mode;
    }
    /// Adds `t` to the end of node `l` if `l` is a text node; says whether it was.
    fn merge_text(&mut self, l: usize, t: &String) -> (r: bool)
        requires
            old(self).wf(),
            l < old(self).tree.size(),
        ensures
            final(self).wf(),
            r == (old(self).text_at(l as int) is Some),
            r ==> Self::merged_into(old(self), final(self), l as int, t@),
            final(self).quirks_mode == old(self).quirks_mode,
            final(self).errors == old(self).errors,
            !r ==> *final(self) == *old(self),
    {
        let merged = match self.tree.get(l) {
            Some(n) => match &n.value {
                Node::Text(x) => {
                    let mut s = x.text.clone();
                    s.append(t.as_str());
                    Some(s)
                },
                _ => None,
            },
            None => None,
        };
        match merged {
            Some(s) => {
                let _ = self.tree.set_value(l, Node::Text(Text { text: s }));
                true
            },
            None => false,
        }
    }

    /// Appends a new text node holding `t` as the last child of `parent`.
    fn append_text_node(&mut self, parent: usize, t: String)
        requires
            old(self).wf(),
            parent < old(self).tree.size(),
        ensures
            final(self).wf(),
            Self::text_node_added(old(self), final(self), parent as int, old(self).tree.children(parent as int).push(old(self).tree.size() as usize), t@),
            final(self).quirks_mode == old(self).quirks_mode,
            final(self).errors == old(self).errors,
    {
        let id = self.tree.create_node(Node::Text(Text { text: t }));
        let _ = self.tree.append_child(parent, id);
    }

    /// Places `child` as the last child of `parent`. Text merges into a last child that is
    /// text; otherwise it gets a text node of its own. The root is never placed.
    pub fn append(&mut self, parent: usize, child: NodeOrText) -> (r: Result<(), TreeError>)
        requires
            old(self).wf(),
        ensures
            final(self).wf(),
            final(self).quirks_mode == old(self).quirks_mode,
            final(self).errors == old(self).errors,
            Self::appended(old(self), final(self), parent, child, r),
    {
        if parent >= self.tree.len() {
            return Err(TreeError::NotFound);
        }
        match child {
            NodeOrText::AppendNode(c) => {
                if c >= self.tree.len() {
                    return Err(TreeError::NotFound);
                }
                if c == 0 {
                    return Err(TreeError::InvariantViolation);
                }
                let r = self.tree.append_child(parent, c);
                r
            },
            NodeOrText::AppendText(t) => {
                match self.tree.last_child(parent) {
                    Some(l) => {
                        proof {
                            crate::tree::lemma_kid(self.tree.nodes(), self.tree.kids(), parent as int, self.tree.children(parent as int).len() - 1);
                        }
                        if self.merge_text(l, &t) {
                            return Ok(());
                        }
                    },
                    None => {},
                }
                self.append_text_node(parent, t);
                Ok(())
            },
        }
    }
    /// Places `new_node` immediately before `sibling`. Text merges into a previous sibling
    /// that is text; otherwise it gets a text node of its own. The root is never placed.
    pub fn append_before_sibling(&mut self, sibling: usize, new_node: NodeOrText) -> (r: Result<(), TreeError>)
        requires
            old(self).wf(),
        ensures
            final(self).wf(),
            final(self).quirks_mode == old(self).quirks_mode,
            final(self).errors == old(self).errors,
            sibling >= old(self).tree.size() ==> r == Err::<(), TreeError>(TreeError::NotFound) && *final(self) == *old(self),
            sibling < old(self).tree.size() && old(self).tree.nodes()[sibling as int].parent is None ==> r is Err && *final(self) == *old(self),
            sibling < old(self).tree.size() && old(self).tree.nodes()[sibling as int].parent is None ==> match new_node {
                NodeOrText::AppendText(t) => r == Err::<(), TreeError>(TreeError::NoParent),
                NodeOrText::AppendNode(c) => 0 < c < old(self).tree.size() && old(self).tree.nodes()[c as int].parent is None ==> r == Err::<(), TreeError>(TreeError::NoParent),
            },
            sibling < old(self).tree.size() ==> (old(self).tree.nodes()[sibling as int].parent matches Some(p) ==> match new_node {
                NodeOrText::AppendText(t) => r is Ok && Self::inserted_text(old(self), final(self), sibling as int, p as int, t@),
                NodeOrText::AppendNode(c) => {
                    &&& c >= old(self).tree.size() ==> r == Err::<(), TreeError>(TreeError::NotFound) && *final(self) == *old(self)
                    &&& c == 0 ==> r == Err::<(), TreeError>(TreeError::InvariantViolation) && *final(self) == *old(self)
                    &&& 0 < c < old(self).tree.size() && old(self).tree.nodes()[c as int].parent is Some ==> r == Err::<(), TreeError>(TreeError::AlreadyAttached) && *final(self) == *old(self)
                    &&& 0 < c < old(self).tree.size() && old(self).tree.nodes()[c as int].parent is None && c == p ==> r == Err::<(), TreeError>(TreeError::Cycle) && *final(self) == *old(self)
                    &&& 0 < c < old(self).tree.size() && old(self).tree.nodes()[c as int].parent is None && c != p ==> {
                        &&& r is Ok
                        &&& final(self).tree.kids() == old(self).tree.kids().update(p as int, old(self).tree.children(p as int).insert(old(self).tree.children(p as int).index_of(sibling), c))
                        &&& final(self).tree.nodes()[c as int].parent == Some(p)
                        &&& final(self).tree.same_parents_except(&old(self).tree, c as int)
                        &&& final(self).tree.same_values(&old(self).tree)
                    }
                },
            }),
    {
        if sibling >= self.tree.len() {
            return Err(TreeError::NotFound);
        }
        match new_node {
            NodeOrText::AppendNode(c) => {
                if c >= self.tree.len() {
                    return Err(TreeError::NotFound);
                }
                if c == 0 {
                    return Err(TreeError::InvariantViolation);
                }
                let r = self.tree.insert_before(sibling, c);
                r
            },
            NodeOrText::AppendText(t) => {
                let (parent, prev) = match self.tree.get(sibling) {
                    Some(n) => (n.parent, n.prev_sibling),
                    None => (None, None),
                };
                if parent.is_none() {
                    return Err(TreeError::NoParent);
                }
                proof {
                    crate::tree::lemma_parent(self.tree.nodes(), self.tree.kids(), sibling as int);
                    let p = parent.unwrap() as int;
                    let ks = self.tree.children(p);
                    crate::tree::lemma_kid(self.tree.nodes(), self.tree.kids(), p, ks.index_of(sibling));
                    if ks.index_of(sibling) > 0 {
                        crate::tree::lemma_kid(self.tree.nodes(), self.tree.kids(), p, ks.index_of(sibling) - 1);
                    }
                }
                match prev {
                    Some(q) => {
                        if self.merge_text(q, &t) {
                            return Ok(());
                        }
                    },
                    None => {},
                }
                let id = self.tree.create_node(Node::Text(Text { text: t }));
                let r = self.tree.insert_before(sibling, id);
                r
            },
        }
    }

    /// Creates an unattached element. A template element gets a fragment child at once, to
    /// hold its contents.
    pub fn create_element(&mut self, name: QualName, attrs: Vec<Attribute>) -> (r: usize)
        requires
            old(self).wf(),
        ensures
            final(self).wf(),
            final(self).quirks_mode == old(self).quirks_mode,
            final(self).errors == old(self).errors,
            r == old(self).tree.size(),
            final(self).tree.nodes()[r as int].value matches Node::Element(e) && e.built_from(name@, attrs_view(attrs@)),
            final(self).tree.nodes()[r as int].parent is None,
            forall|i: int| 0 <= i < old(self).tree.size() ==> #[trigger] final(self).tree.nodes()[i].parent == old(self).tree.nodes()[i].parent,
            forall|i: int| 0 <= i < old(self).tree.size() ==> #[trigger] final(self).tree.nodes()[i].value == old(self).tree.nodes()[i].value,
            !is_template(name@) ==> {
                &&& final(self).tree.size() == old(self).tree.size() + 1
                &&& final(self).tree.kids() == old(self).tree.kids().push(Seq::<usize>::empty())
            },
            is_template(name@) ==> {
                &&& final(self).tree.size() == old(self).tree.size() + 2
                &&& final(self).tree.kids() == old(self).tree.kids().push(seq![(r + 1) as usize]).push(Seq::<usize>::empty())
                &&& final(self).tree.nodes()[r + 1].value is Fragment
            },
    {
        let ns: String = "http://www.w3.org/1999/xhtml".to_owned();
        let template: String = "template".to_owned();
        let template_name = name.ns == ns && name.local == template;
        let node = self.tree.create_node(Node::Element(Element::new(name, attrs)));
        if template_name {
            let f = self.tree.create_node(Node::Fragment);
            let _ = self.tree.append_child(node, f);
            proof {
                assert(self.tree.kids() =~= old(self).tree.kids().push(seq![(node + 1) as usize]).push(Seq::<usize>::empty()));
            }
        }
        node
    }

    /// Creates an unattached comment.
    pub fn create_comment(&mut self, text: String) -> (r: usize)
        requires
            old(self).wf(),
        ensures
            final(self).wf(),
            final(self).quirks_mode == old(self).quirks_mode,
            final(self).errors == old(self).errors,
            r == old(self).tree.size(),
            final(self).tree.size() == old(self).tree.size() + 1,
            final(self).tree.kids() == old(self).tree.kids().push(Seq::<usize>::empty()),
            final(self).tree.nodes()[r as int].value matches Node::Comment(c) && c.comment@ == text@,
            final(self).tree.nodes()[r as int].parent is None,
            forall|i: int| 0 <= i < old(self).tree.size() ==> #[trigger] final(self).tree.nodes()[i] == old(self).tree.nodes()[i],
    {
        self.tree.create_node(Node::Comment(Comment { comment: text }))
    }

    /// Creates an unattached processing instruction.
    pub fn create_pi(&mut self, target: String, data: String) -> (r: usize)
        requires
            old(self).wf(),
        ensures
            final(self).wf(),
            final(self).quirks_mode == old(self).quirks_mode,
            final(self).errors == old(self).errors,
            r == old(self).tree.size(),
            final(self).tree.size() == old(self).tree.size() + 1,
            final(self).tree.kids() == old(self).tree.kids().push(Seq::<usize>::empty()),
            final(self).tree.nodes()[r as int].value matches Node::ProcessingInstruction(pi) && pi.target@ == target@ && pi.data@ == data@,
            final(self).tree.nodes()[r as int].parent is None,
            forall|i: int| 0 <= i < old(self).tree.size() ==> #[trigger] final(self).tree.nodes()[i] == old(self).tree.nodes()[i],
    {
        self.tree.create_node(Node::ProcessingInstruction(ProcessingInstruction { target, data }))
    }

    /// The name of the element `target`.
    pub fn elem_name(&self, target: usize) -> (r: Result<&QualName, TreeError>)
        ensures
            target >= self.tree.size() ==> r == Err::<&QualName, TreeError>(TreeError::NotFound),
            target < self.tree.size() ==> match self.tree.nodes()[target as int].value {
                Node::Element(e) => r == Ok::<&QualName, TreeError>(&e.name),
                _ => r == Err::<&QualName, TreeError>(TreeError::InvariantViolation),
            },
    {
        match self.tree.get(target) {
            None => Err(TreeError::NotFound),
            Some(n) => match &n.value {
                Node::Element(e) => Ok(&e.name),
                _ => Err(TreeError::InvariantViolation),
            },
        }
    }

    /// Appends under `element` when it has a parent, and under `prev_element` when not.
    pub fn append_based_on_parent_node(&mut self, element: usize, prev_element: usize, child: NodeOrText) -> (r: Result<(), TreeError>)
        requires
            old(self).wf(),
        ensures
            final(self).wf(),
            final(self).quirks_mode == old(self).quirks_mode,
            final(self).errors == old(self).errors,
            element >= old(self).tree.size() ==> r == Err::<(), TreeError>(TreeError::NotFound) && *final(self) == *old(self),
            element < old(self).tree.size() && old(self).tree.nodes()[element as int].parent is Some ==> Self::appended(old(self), final(self), element, child, r),
            element < old(self).tree.size() && old(self).tree.nodes()[element as int].parent is None ==> Self::appended(old(self), final(self), prev_element, child, r),
    {
        let has_parent = match self.tree.get(element) {
            None => return Err(TreeError::NotFound),
            Some(n) => n.parent.is_some(),
        };
        if has_parent {
            self.append(element, child)
        } else {
            self.append(prev_element, child)
        }
    }

    /// Appends a doctype as the last child of the document root.
    pub fn append_doctype_to_document(&mut self, name: String, public_id: String, system_id: String)
        requires
            old(self).wf(),
        ensures
            final(self).wf(),
            final(self).quirks_mode == old(self).quirks_mode,
            final(self).errors == old(self).errors,
            final(self).tree.size() == old(self).tree.size() + 1,
            final(self).tree.kids() == old(self).tree.kids().push(Seq::<usize>::empty()).update(0, old(self).tree.children(0).push(old(self).tree.size() as usize)),
            final(self).tree.nodes()[old(self).tree.size() as int].value matches Node::Doctype(d) && d.name@ == name@ && d.public_id@ == public_id@ && d.system_id@ == system_id@,
            final(self).tree.nodes()[old(self).tree.size() as int].parent == Some(0usize),
            forall|i: int| 0 <= i < old(self).tree.size() ==> #[trigger] final(self).tree.nodes()[i].value == old(self).tree.nodes()[i].value && final(self).tree.nodes()[i].parent == old(self).tree.nodes()[i].parent,
    {
        let doctype = Doctype { name, public_id, system_id };
        let document = self.get_document();
        let id = self.tree.create_node(Node::Doctype(doctype));
        let _ = self.tree.append_child(document, id);
    }

    /// The content fragment of the template element `target`: its first child.
    pub fn get_template_contents(&self, target: usize) -> (r: Result<usize, TreeError>)
        requires
            self.wf(),
        ensures
            target >= self.tree.size() ==> r == Err::<usize, TreeError>(TreeError::NotFound),
            target < self.tree.size() && self.tree.children(target as int).len() == 0 ==> r == Err::<usize, TreeError>(TreeError::InvariantViolation),
            target < self.tree.size() && self.tree.children(target as int).len() > 0 ==> r == Ok::<usize, TreeError>(self.tree.children(target as int)[0]),
    {
        match self.tree.get(target) {
            None => Err(TreeError::NotFound),
            Some(n) => {
                proof {
                    crate::tree::lemma_first(self.tree.nodes(), self.tree.kids(), target as int);
                }
                match n.child {
                    Some(c) => Ok(c),
                    None => Err(TreeError::InvariantViolation),
                }
            },
        }
    }

    /// Adds each attribute of `attributes` whose name the element `target` lacks, in order;
    /// never overwrites a value.
    pub fn add_attrs_if_missing(&mut self, target: usize, attributes: Vec<Attribute>) -> (r: Result<(), TreeError>)
        requires
            old(self).wf(),
        ensures
            final(self).wf(),
            final(self).quirks_mode == old(self).quirks_mode,
            final(self).errors == old(self).errors,
            final(self).tree.kids() == old(self).tree.kids(),
            target >= old(self).tree.size() ==> r == Err::<(), TreeError>(TreeError::NotFound) && *final(self) == *old(self),
            target < old(self).tree.size() ==> match old(self).tree.nodes()[target as int].value {
                Node::Element(e) => {
                    &&& r is Ok
                    &&& final(self).tree.nodes()[target as int].value matches Node::Element(f) && f.name == e.name && f.id == e.id && f.classes == e.classes && attrs_view(f.attrs@) == add_missing(attrs_view(e.attrs@), attrs_view(attributes@))
                        && (names_unique(attrs_view(e.attrs@)) ==> names_unique(attrs_view(f.attrs@)))
                    &&& forall|i: int| 0 <= i < old(self).tree.size() && i != target ==> #[trigger] final(self).tree.nodes()[i] == old(self).tree.nodes()[i]
                },
                _ => r == Err::<(), TreeError>(TreeError::InvariantViolation) && final(self).tree.nodes() == old(self).tree.nodes(),
            },
    {
        let taken = self.tree.set_value(target, Node::Document);
        match taken {
            Err(e) => Err(e),
            Ok(Node::Element(mut e)) => {
                let ghost e0 = e;
                proof {
                    lemma_add_missing_unique_if(attrs_view(e.attrs@), attrs_view(attributes@));
                }
                add_missing_attrs_to(&mut e, attributes);
                let _ = self.tree.set_value(target, Node::Element(e));
                proof {
                    assert(self.tree.nodes()[target as int].value == Node::Element(e));
                    assert(old(self).tree.nodes()[target as int].value == Node::Element(e0));
                }
                Ok(())
            },
            Ok(other) => {
                let _ = self.tree.set_value(target, other);
                proof {
                    assert(self.tree.nodes() =~= old(self).tree.nodes());
                }
                Err(TreeError::InvariantViolation)
            },
        }
    }

    /// Takes `target` out of its parent's children; its own subtree stays with it.
    pub fn remove_from_parent(&mut self, target: usize) -> (r: Result<(), TreeError>)
        requires
            old(self).wf(),
        ensures
            final(self).wf(),
            final(self).quirks_mode == old(self).quirks_mode,
            final(self).errors == old(self).errors,
            final(self).tree.same_values(&old(self).tree),
            target >= old(self).tree.size() ==> r == Err::<(), TreeError>(TreeError::NotFound) && *final(self) == *old(self),
            target < old(self).tree.size() && old(self).tree.nodes()[target as int].parent is None ==> r == Err::<(), TreeError>(TreeError::NotAttached) && *final(self) == *old(self),
            target < old(self).tree.size() ==> (old(self).tree.nodes()[target as int].parent matches Some(p) ==> {
                &&& r is Ok
                &&& final(self).tree.kids() == old(self).tree.kids().update(p as int, old(self).tree.children(p as int).remove(old(self).tree.children(p as int).index_of(target)))
            }),
    {
        let r = self.tree.detach(target);
        r
    }
    /// The child lists of `t` once `id` is taken out of its parent's children, if it has a
    /// parent.
    pub open spec fn kids_after_detach(t: &Tree<Node>, id: int) -> Seq<Seq<usize>> {
        match t.nodes()[id].parent {
            Some(p) => t.kids().update(p as int, t.children(p as int).remove(t.children(p as int).index_of(id as usize))),
            None => t.kids(),
        }
    }

    /// Takes `node` out of its parent's children, then moves every child of `node`, in order,
    /// to the end of the children of `new_parent`.
    pub fn reparent_children(&mut self, node: usize, new_parent: usize) -> (r: Result<(), TreeError>)
        requires
            old(self).wf(),
        ensures
            final(self).wf(),
            final(self).quirks_mode == old(self).quirks_mode,
            final(self).errors == old(self).errors,
            final(self).tree.same_values(&old(self).tree),
            node >= old(self).tree.size() || new_parent >= old(self).tree.size() ==> r == Err::<(), TreeError>(TreeError::NotFound) && *final(self) == *old(self),
            node < old(self).tree.size() && new_parent < old(self).tree.size() && node != new_parent && old(self).tree.nodes()[new_parent as int].parent == Some(node) ==> r == Err::<(), TreeError>(TreeError::Cycle) && *final(self) == *old(self),
            node < old(self).tree.size() && new_parent < old(self).tree.size() && (node == new_parent || old(self).tree.nodes()[new_parent as int].parent != Some(node)) ==> {
                let k1 = Self::kids_after_detach(&old(self).tree, node as int);
                &&& r is Ok
                &&& final(self).tree.nodes()[node as int].parent is None
                &&& node == new_parent ==> final(self).tree.kids() == k1
                &&& node != new_parent ==> {
                    &&& final(self).tree.kids() == k1.update(new_parent as int, k1[new_parent as int] + k1[node as int]).update(node as int, Seq::<usize>::empty())
                    &&& final(self).tree.children(node as int).len() == 0
                    &&& forall|j: int| 0 <= j < k1[node as int].len() ==> #[trigger] final(self).tree.nodes()[k1[node as int][j] as int].parent == Some(new_parent)
                }
            },
    {
        if node >= self.tree.len() || new_parent >= self.tree.len() {
            return Err(TreeError::NotFound);
        }
        let (attached, np_parent) = match (self.tree.get(node), self.tree.get(new_parent)) {
            (Some(n), Some(np)) => (n.parent.is_some(), np.parent),
            _ => (false, None),
        };
        if node != new_parent && np_parent == Some(node) {
            return Err(TreeError::Cycle);
        }
        if attached {
            let _ = self.tree.detach(node);
        }
        let ghost k1 = self.tree.kids();
        let ghost t1 = self.tree.nodes();
        proof {
            assert(crate::tree::links_wf(t1, k1));
            assert(t1[node as int].parent is None);
            assert(t1[0].parent is None);
            assert(node != new_parent ==> t1[new_parent as int].parent != Some(node));
        }
        let r = self.tree.reparent_children(node, new_parent);
        proof {
            if node != new_parent {
                let kp = k1[new_parent as int];
                let kn = k1[node as int];
                assert forall|j: int| 0 <= j < kn.len() implies #[trigger] self.tree.nodes()[kn[j] as int].parent == Some(new_parent) by {
                    assert(self.tree.children(new_parent as int)[kp.len() + j] == kn[j]);
                    crate::tree::lemma_kid(self.tree.nodes(), self.tree.kids(), new_parent as int, kp.len() + j);
                }
                if kn.contains(node) {
                    let k = choose|k: int| 0 <= k < kn.len() && kn[k] == node;
                    crate::tree::lemma_kid(t1, k1, node as int, k);
                }
                if kn.contains(0usize) {
                    let k = choose|k: int| 0 <= k < kn.len() && kn[k] == 0usize;
                    crate::tree::lemma_kid(t1, k1, node as int, k);
                }
            }
        }
        r
    }
}

/// Appending text under a parent whose last child is a text node adds no child: the child
/// list stays as it was, and that node's text becomes its old text followed by the new.
pub proof fn lemma_append_text_merges(before: &Html, after: &Html, parent: int, t: Seq<char>)
    requires
        Html::appended_text(before, after, parent, t),
        before.tree.children(parent).len() > 0,
        before.text_at(before.tree.children(parent).last() as int) is Some,
    ensures
        after.tree.children(parent) == before.tree.children(parent),
        after.text_at(before.tree.children(parent).last() as int) == Some(
            before.text_at(before.tree.children(parent).last() as int).unwrap() + t,
        ),
{
}

/// Placing text `a` and then text `b` before the same `sibling` leaves one text node just
/// before it that holds both, in order: the earlier previous sibling if that was text, else
/// one new node. The parent gains at most one child.
pub proof fn lemma_text_before_twice(h0: &Html, h1: &Html, h2: &Html, sibling: int, p: int, a: Seq<char>, b: Seq<char>)
    requires
        h0.wf(),
        h1.wf(),
        0 <= sibling < h0.tree.size(),
        0 <= p < h0.tree.size(),
        h0.tree.nodes()[sibling].parent == Some(p as usize),
        Html::inserted_text(h0, h1, sibling, p, a),
        Html::inserted_text(h1, h2, sibling, p, b),
    ensures
        match h0.tree.nodes()[sibling].prev_sibling {
            Some(q) if h0.text_at(q as int) is Some => {
                &&& h2.tree.nodes()[sibling].prev_sibling == Some(q)
                &&& h2.text_at(q as int) == Some(h0.text_at(q as int).unwrap() + a + b)
            },
            _ => {
                &&& h2.tree.nodes()[sibling].prev_sibling == Some(h0.tree.size() as usize)
                &&& h2.text_at(h0.tree.size() as int) == Some(a + b)
            },
        },
        h2.tree.children(p).len() <= h0.tree.children(p).len() + 1,
        h2.tree.size() <= h0.tree.size() + 1,
{
    let ks = h0.tree.children(p);
    crate::tree::lemma_parent(h0.tree.nodes(), h0.tree.kids(), sibling);
    let j = ks.index_of(sibling as usize);
    crate::tree::lemma_kid(h0.tree.nodes(), h0.tree.kids(), p, j);
    if j > 0 {
        crate::tree::lemma_kid(h0.tree.nodes(), h0.tree.kids(), p, j - 1);
        if ks[j - 1] == ks[j] {
            crate::tree::lemma_distinct(h0.tree.kids(), p, j - 1, j);
        }
    }
    match h0.tree.nodes()[sibling].prev_sibling {
        Some(q) if h0.text_at(q as int) is Some => {
            assert(h1.tree.nodes()[sibling] == h0.tree.nodes()[sibling]);
            assert(h1.text_at(q as int) is Some);
            assert(h2.tree.nodes()[sibling] == h1.tree.nodes()[sibling]);
            assert(h0.text_at(q as int).unwrap() + a + b =~= h1.text_at(q as int).unwrap() + b);
        },
        _ => {
            let n = h0.tree.size();
            let nl = ks.insert(j, n as usize);
            ks.insert_ensures(j, n as usize);
            assert(h1.tree.children(p) == nl);
            crate::tree::lemma_kid(h1.tree.nodes(), h1.tree.kids(), p, j + 1);
            assert(nl[j + 1] == sibling);
            assert(nl.index_of(sibling as usize) == j + 1) by {
                let m = nl.index_of(sibling as usize);
                assert(nl.contains(sibling as usize));
                crate::tree::lemma_distinct(h1.tree.kids(), p, m, j + 1);
            }
            assert(h1.tree.nodes()[sibling].prev_sibling == Some(n as usize));
            assert(h1.text_at(n as int) == Some(a));
            assert(h2.tree.nodes()[sibling] == h1.tree.nodes()[sibling]);
        },
    }
}

} // verus!
