//! The payload of each tree node: the kinds of node a markup document holds.
use vstd::prelude::*;

verus! {

/// What a qualified name is: prefix, namespace URL, local part.
pub type NameView = (Option<Seq<char>>, Seq<char>, Seq<char>);

/// What an attribute is: its name and its value.
pub type AttrView = (NameView, Seq<char>);

/// The view of an optional string.
pub open spec fn opt_str(o: Option<String>) -> Option<Seq<char>> {
    match o {
        Some(s) => Some(s@),
        None => None,
    }
}

/// A namespaced name.
pub struct QualName {
    /// The prefix written in the source, if any.
    pub prefix: Option<String>,
    /// The namespace URL.
    pub ns: String,
    /// The local part.
    pub local: String,
}

impl View for QualName {
    type V = NameView;

    open spec fn view(&self) -> NameView {
        (opt_str(self.prefix), self.ns@, self.local@)
    }
}

/// An attribute as the parser hands it over.
pub struct Attribute {
    /// The attribute name.
    pub name: QualName,
    /// The attribute value.
    pub value: String,
}

impl View for Attribute {
    type V = AttrView;

    open spec fn view(&self) -> AttrView {
        (self.name@, self.value@)
    }
}

/// The views of a list of attributes.
pub open spec fn attrs_view(v: Seq<Attribute>) -> Seq<AttrView> {
    v.map_values(|a: Attribute| a@)
}

/// The views of a list of strings.
pub open spec fn strs_view(v: Seq<String>) -> Seq<Seq<char>> {
    v.map_values(|s: String| s@)
}

/// Some attribute in `attrs` is named `n`.
pub open spec fn has_name(attrs: Seq<AttrView>, n: NameView) -> bool {
    exists|i: int| 0 <= i < attrs.len() && #[trigger] attrs[i].0 == n
}

/// `existing`, followed in order by each attribute of `new` whose name is not yet present.
pub open spec fn add_missing(existing: Seq<AttrView>, new: Seq<AttrView>) -> Seq<AttrView>
    decreases new.len(),
{
    if new.len() == 0 {
        existing
    } else {
        let next = if has_name(existing, new[0].0) {
            existing
        } else {
            existing.push(new[0])
        };
        add_missing(next, new.drop_first())
    }
}

/// Adding an attribute whose name is already present leaves the attributes as they were, the
/// existing value included; adding one with a new name puts it after all the existing ones.
pub proof fn lemma_add_missing_one(existing: Seq<AttrView>, a: AttrView)
    ensures
        has_name(existing, a.0) ==> add_missing(existing, seq![a]) == existing,
        !has_name(existing, a.0) ==> add_missing(existing, seq![a]) == existing.push(a),
{
    let s = seq![a];
    assert(s.drop_first() =~= Seq::<AttrView>::empty());
    assert(s[0] == a);
    reveal_with_fuel(add_missing, 2);
}

/// Adding attributes never changes or reorders those already present: they stay a prefix.
pub proof fn lemma_add_missing_keeps(existing: Seq<AttrView>, new: Seq<AttrView>)
    ensures
        add_missing(existing, new).len() >= existing.len(),
        add_missing(existing, new).subrange(0, existing.len() as int) == existing,
    decreases new.len(),
{
    if new.len() > 0 {
        let next = if has_name(existing, new[0].0) {
            existing
        } else {
            existing.push(new[0])
        };
        lemma_add_missing_keeps(next, new.drop_first());
        assert(add_missing(existing, new) == add_missing(next, new.drop_first()));
        assert(next.subrange(0, existing.len() as int) =~= existing);
        assert(add_missing(existing, new).subrange(0, existing.len() as int) =~= add_missing(next, new.drop_first()).subrange(0, next.len() as int).subrange(0, existing.len() as int));
    } else {
        assert(existing.subrange(0, existing.len() as int) =~= existing);
    }
}

/// No two attributes of `attrs` share a name.
pub open spec fn names_unique(attrs: Seq<AttrView>) -> bool {
    forall|i: int, j: int| 0 <= i < j < attrs.len() ==> #[trigger] attrs[i].0 != #[trigger] attrs[j].0
}

/// Adding attributes never repeats a name: from attributes with distinct names, `add_missing`
/// gives attributes with distinct names.
pub proof fn lemma_add_missing_unique(existing: Seq<AttrView>, new: Seq<AttrView>)
    requires
        names_unique(existing),
    ensures
        names_unique(add_missing(existing, new)),
    decreases new.len(),
{
    if new.len() > 0 {
        let next = if has_name(existing, new[0].0) {
            existing
        } else {
            existing.push(new[0])
        };
        if !has_name(existing, new[0].0) {
            assert forall|i: int, j: int| 0 <= i < j < next.len() implies #[trigger] next[i].0 != #[trigger] next[j].0 by {
                if j == existing.len() {
                    assert(existing[i].0 != new[0].0);
                } else {
                    assert(next[i] == existing[i] && next[j] == existing[j]);
                }
            }
        }
        lemma_add_missing_unique(next, new.drop_first());
    }
}

/// The value of the first attribute of `attrs` whose local name is `local`.
pub open spec fn first_local(attrs: Seq<AttrView>, local: Seq<char>) -> Option<Seq<char>>
    decreases attrs.len(),
{
    if attrs.len() == 0 {
        None
    } else if attrs[0].0.2 == local {
        Some(attrs[0].1)
    } else {
        first_local(attrs.drop_first(), local)
    }
}

/// `s` with every repeat of an earlier item left out.
pub open spec fn dedup(s: Seq<Seq<char>>) -> Seq<Seq<char>>
    decreases s.len(),
{
    if s.len() == 0 {
        s
    } else {
        let d = dedup(s.drop_last());
        if d.contains(s.last()) {
            d
        } else {
            d.push(s.last())
        }
    }
}

/// A character with the Unicode White_Space property.
pub open spec fn is_white_space(c: char) -> bool {
    let u = c as u32;
    ||| 0x9 <= u <= 0xD
    ||| u == 0x20
    ||| u == 0x85
    ||| u == 0xA0
    ||| u == 0x1680
    ||| 0x2000 <= u <= 0x200A
    ||| u == 0x2028
    ||| u == 0x2029
    ||| u == 0x202F
    ||| u == 0x205F
    ||| u == 0x3000
}

/// `acc`, then the tokens of `cur` followed by `s`: the maximal non-empty runs of characters
/// that are not white space.
pub open spec fn tokens_from(s: Seq<char>, cur: Seq<char>, acc: Seq<Seq<char>>) -> Seq<Seq<char>>
    decreases s.len(),
{
    let closed = if cur.len() > 0 {
        acc.push(cur)
    } else {
        acc
    };
    if s.len() == 0 {
        closed
    } else if is_white_space(s[0]) {
        tokens_from(s.drop_first(), Seq::empty(), closed)
    } else {
        tokens_from(s.drop_first(), cur.push(s[0]), acc)
    }
}

/// The whitespace-separated tokens of `s`, in order.
pub open spec fn whitespace_tokens(s: Seq<char>) -> Seq<Seq<char>> {
    tokens_from(s, Seq::empty(), Seq::empty())
}

/// The class set that a `class` attribute value gives.
pub open spec fn classes_of(v: Option<Seq<char>>) -> Seq<Seq<char>> {
    match v {
        Some(s) => dedup(whitespace_tokens(s)),
        None => Seq::empty(),
    }
}

/// Relies on `str::split_whitespace`: the maximal non-empty runs of characters without the
/// Unicode White_Space property, in order.
#[verifier::external_body]
fn split_tokens(s: &str) -> (r: Vec<String>)
    ensures
        strs_view(r@) == whitespace_tokens(s@),
{
    s.split_whitespace().map(|t| t.to_string()).collect()
}

/// Two names are the same name.
pub fn same_name(a: &QualName, b: &QualName) -> (r: bool)
    ensures
        r == (a@ == b@),
{
    let prefix_eq = match (&a.prefix, &b.prefix) {
        (Some(x), Some(y)) => *x == *y,
        (None, None) => true,
        _ => false,
    };
    prefix_eq && a.ns == b.ns && a.local == b.local
}

/// Whether some attribute of `attrs` is named `n`.
fn find_name(attrs: &Vec<Attribute>, n: &QualName) -> (r: bool)
    ensures
        r == has_name(attrs_view(attrs@), n@),
{
    let mut i: usize = 0;
    while i < attrs.len()
        invariant
            0 <= i <= attrs.len(),
            forall|k: int| 0 <= k < i ==> attrs@[k].name@ != n@,
        decreases attrs.len() - i,
    {
        if same_name(&attrs[i].name, n) {
            assert(attrs_view(attrs@)[i as int].0 == n@);
            return true;
        }
        i = i + 1;
    }
    proof {
        if has_name(attrs_view(attrs@), n@) {
            let k = choose|k: int| 0 <= k < attrs_view(attrs@).len() && #[trigger] attrs_view(attrs@)[k].0 == n@;
            assert(attrs@[k].name@ == n@);
        }
    }
    false
}

/// Appends to `target`, in order, each attribute of `new` whose name `target` lacks.
pub fn add_missing_attrs(target: &mut Vec<Attribute>, new: Vec<Attribute>)
    ensures
        attrs_view(final(target)@) == add_missing(attrs_view(old(target)@), attrs_view(new@)),
{
    let mut rest = new;
    loop
        invariant
            add_missing(attrs_view(target@), attrs_view(rest@)) == add_missing(attrs_view(old(target)@), attrs_view(new@)),
        ensures
            attrs_view(target@) == add_missing(attrs_view(old(target)@), attrs_view(new@)),
        decreases rest.len(),
    {
        if rest.len() == 0 {
            break;
        }
        let ghost before = attrs_view(target@);
        let ghost rv = attrs_view(rest@);
        let a = rest.remove(0);
        assert(attrs_view(rest@) =~= rv.drop_first());
        if !find_name(target, &a.name) {
            target.push(a);
            assert(attrs_view(target@) =~= before.push(rv[0]));
        }
    }
}

/// The value of the first attribute whose local name is `local`.
fn value_of_local(attrs: &Vec<Attribute>, local: &String) -> (r: Option<String>)
    ensures
        opt_str(r) == first_local(attrs_view(attrs@), local@),
{
    let mut i: usize = 0;
    assert(attrs_view(attrs@).subrange(0, attrs@.len() as int) =~= attrs_view(attrs@));
    while i < attrs.len()
        invariant
            0 <= i <= attrs.len(),
            first_local(attrs_view(attrs@).subrange(i as int, attrs@.len() as int), local@) == first_local(attrs_view(attrs@), local@),
        decreases attrs.len() - i,
    {
        let ghost rest = attrs_view(attrs@).subrange(i as int, attrs@.len() as int);
        if attrs[i].name.local == *local {
            return Some(attrs[i].value.clone());
        }
        assert(rest.drop_first() =~= attrs_view(attrs@).subrange(i + 1, attrs@.len() as int));
        i = i + 1;
    }
    assert(attrs_view(attrs@).subrange(i as int, attrs@.len() as int).len() == 0);
    None
}

/// `tokens` with every repeat of an earlier token left out.
pub fn dedup_tokens(tokens: Vec<String>) -> (r: Vec<String>)
    ensures
        strs_view(r@) == dedup(strs_view(tokens@)),
{
    let mut out: Vec<String> = Vec::new();
    let mut i: usize = 0;
    while i < tokens.len()
        invariant
            0 <= i <= tokens.len(),
            strs_view(out@) == dedup(strs_view(tokens@).subrange(0, i as int)),
        decreases tokens.len() - i,
    {
        let ghost pre = strs_view(tokens@).subrange(0, i as int);
        let ghost next = strs_view(tokens@).subrange(0, i + 1);
        assert(next.drop_last() =~= pre);
        let mut found = false;
        let mut k: usize = 0;
        while k < out.len()
            invariant
                0 <= k <= out.len(),
                found == exists|m: int| 0 <= m < k && out@[m]@ == tokens@[i as int]@,
                i < tokens.len(),
            decreases out.len() - k,
        {
            if out[k] == tokens[i] {
                found = true;
            }
            k = k + 1;
        }
        proof {
            let d = strs_view(out@);
            if found {
                let m = choose|m: int| 0 <= m < out.len() && out@[m]@ == tokens@[i as int]@;
                assert(d[m] == next.last());
            } else {
                assert forall|m: int| 0 <= m < d.len() implies d[m] != next.last() by {
                    assert(d[m] == out@[m]@);
                }
            }
        }
        if !found {
            out.push(tokens[i].clone());
            assert(strs_view(out@) =~= strs_view(out@).drop_last().push(tokens@[i as int]@));
        }
        i = i + 1;
    }
    assert(strs_view(tokens@).subrange(0, tokens.len() as int) =~= strs_view(tokens@));
    out
}

/// A doctype.
pub struct Doctype {
    /// The doctype name.
    pub name: String,
    /// The doctype public ID.
    pub public_id: String,
    /// The doctype system ID.
    pub system_id: String,
}

/// A comment.
pub struct Comment {
    /// The comment text.
    pub comment: String,
}

/// Text.
pub struct Text {
    /// The text.
    pub text: String,
}

/// An element.
pub struct Element {
    /// The element name.
    pub name: QualName,
    /// The value of the element's `id` attribute.
    pub id: Option<String>,
    /// The distinct tokens of the element's `class` attribute, in first-seen order.
    pub classes: Vec<String>,
    /// The attributes, names unique, in first-seen order.
    pub attrs: Vec<Attribute>,
}

/// A processing instruction.
pub struct ProcessingInstruction {
    /// The PI target.
    pub target: String,
    /// The PI data.
    pub data: String,
}

/// The kinds of node a document holds.
pub enum Node {
    /// The document root.
    Document,
    /// The fragment root.
    Fragment,
    /// A doctype.
    Doctype(Doctype),
    /// A comment.
    Comment(Comment),
    /// Text.
    Text(Text),
    /// An element.
    Element(Element),
    /// A processing instruction.
    ProcessingInstruction(ProcessingInstruction),
}

/// The local name of the attribute that gives an element's identity.
pub open spec fn id_local() -> Seq<char> {
    seq!['i', 'd']
}

/// The local name of the attribute that gives an element's classes.
pub open spec fn class_local() -> Seq<char> {
    seq!['c', 'l', 'a', 's', 's']
}

impl Node {
    /// Returns self as an element.
    pub fn as_element(&self) -> (r: Option<&Element>)
        ensures
            self matches Node::Element(e) ==> r == Some(e),
            !(self is Element) ==> r is None,
    {
        match self {
            Node::Element(e) => Some(e),
            _ => None,
        }
    }
}

impl Element {
    /// The element that `new` builds from `name` and `attrs`.
    pub open spec fn built_from(&self, name: NameView, attrs: Seq<AttrView>) -> bool {
        &&& self.name@ == name
        &&& attrs_view(self.attrs@) == add_missing(Seq::empty(), attrs)
        &&& opt_str(self.id) == first_local(attrs, id_local())
        &&& strs_view(self.classes@) == classes_of(first_local(attrs, class_local()))
    }

    /// Builds an element: the first of several attributes with one name wins, `id` is the
    /// first `id` attribute's value, and `classes` the distinct tokens of the first `class`
    /// attribute's value.
    pub fn new(name: QualName, attrs: Vec<Attribute>) -> (r: Self)
        ensures
            r.built_from(name@, attrs_view(attrs@)),
            names_unique(attrs_view(r.attrs@)),
    {
        proof {
            lemma_add_missing_unique(Seq::empty(), attrs_view(attrs@));
        }
        let id_name: String = "id".to_owned();
        let class_name: String = "class".to_owned();
        proof {
            reveal_strlit("id");
            reveal_strlit("class");
            assert(id_name@ =~= id_local());
            assert(class_name@ =~= class_local());
        }
        let id = value_of_local(&attrs, &id_name);
        let classes = match value_of_local(&attrs, &class_name) {
            Some(v) => dedup_tokens(split_tokens(v.as_str())),
            None => {
                assert(strs_view(Seq::<String>::empty()) =~= Seq::<Seq<char>>::empty());
                Vec::new()
            },
        };
        let mut own: Vec<Attribute> = Vec::new();
        assert(attrs_view(own@) =~= Seq::<AttrView>::empty());
        add_missing_attrs(&mut own, attrs);
        Element { name, id, classes, attrs: own }
    }
}

} // verus!
