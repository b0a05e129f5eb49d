//! The node model: text leaves, elements and the empty placeholder, the edits
//! that transform one tree into another, and the mathematical view of each.

use vstd::prelude::*;
use vstd::std_specs::cmp::PartialEqSpecImpl;
use vstd::string::StringExecFns;

verus! {

/// The value of an attribute: a string or a flag.
#[derive(Debug)]
pub enum AttributeValue {
    String(String),
    Bool(bool),
}

/// An attribute of an element: its name and its value.
pub type Attribute = (String, AttributeValue);

/// An event binding of an element: the event kind and the handler id.
pub type Handler = (String, String);

/// An element: a tag name, attributes, event bindings and children.
#[derive(Debug)]
pub struct Element {
    pub(crate) name: String,
    pub(crate) attributes: Vec<Attribute>,
    pub(crate) handlers: Vec<Handler>,
    pub(crate) children: Vec<Node>,
}

/// One position of the tree. `Null` renders nothing.
#[derive(Debug)]
pub enum Node {
    Text(String),
    Element(Element),
    Null,
}

/// One edit. Child edits are addressed by the sibling position that the
/// child has at the moment the edit is applied.
#[derive(Debug)]
pub enum Diff {
    SetAttribute(String, AttributeValue),
    RemoveAttribute(String),
    AddChild(usize, Node),
    ReplaceChild(usize, Node),
    RemoveChild(usize),
    PatchChild(usize, Vec<Diff>),
    SetHandler(String, String),
    RemoveHandler(String, String),
}

/// What an attribute value holds.
pub ghost enum AttributeValueView {
    String(Seq<char>),
    Bool(bool),
}

/// What an attribute holds: the characters of its name, and its value.
pub type AttributeView = (Seq<char>, AttributeValueView);

/// What an event binding holds: the characters of its kind and of its id.
pub type HandlerView = (Seq<char>, Seq<char>);

/// What an element holds.
pub ghost struct ElementView {
    pub name: Seq<char>,
    pub attributes: Seq<AttributeView>,
    pub handlers: Seq<HandlerView>,
    pub children: Seq<NodeView>,
}

/// What a node holds.
pub ghost enum NodeView {
    Text(Seq<char>),
    Element(ElementView),
    Null,
}

/// What an edit holds.
pub ghost enum DiffView {
    SetAttribute(Seq<char>, AttributeValueView),
    RemoveAttribute(Seq<char>),
    AddChild(nat, NodeView),
    ReplaceChild(nat, NodeView),
    RemoveChild(nat),
    PatchChild(nat, Seq<DiffView>),
    SetHandler(Seq<char>, Seq<char>),
    RemoveHandler(Seq<char>, Seq<char>),
}

impl View for AttributeValue {
    type V = AttributeValueView;

    open spec fn view(&self) -> AttributeValueView {
        match self {
            AttributeValue::String(s) => AttributeValueView::String(s@),
            AttributeValue::Bool(b) => AttributeValueView::Bool(*b),
        }
    }
}

/// A list of named values as pairs of the name's characters and the value's
/// view.
pub open spec fn pairs_view<V: View>(s: Seq<(String, V)>) -> Seq<(Seq<char>, V::V)> {
    Seq::new(s.len(), |i: int| (s[i].0@, s[i].1@))
}

/// The attributes of an element as pairs of name and value.
pub open spec fn attributes_view(s: Seq<Attribute>) -> Seq<AttributeView> {
    pairs_view(s)
}

/// The event bindings of an element as pairs of kind and id.
pub open spec fn handlers_view(s: Seq<Handler>) -> Seq<HandlerView> {
    pairs_view(s)
}

/// The views of a sequence of nodes, in order.
pub open spec fn nodes_view(s: Seq<Node>) -> Seq<NodeView> {
    Seq::new(s.len(), |i: int| s[i]@)
}

/// The views of a sequence of edits, in order.
pub open spec fn diffs_view(s: Seq<Diff>) -> Seq<DiffView> {
    Seq::new(s.len(), |i: int| s[i]@)
}

impl View for Node {
    type V = NodeView;

    open spec fn view(&self) -> NodeView
        decreases self,
    {
        match self {
            Node::Text(s) => NodeView::Text(s@),
            Node::Element(e) => NodeView::Element(e@),
            Node::Null => NodeView::Null,
        }
    }
}

impl View for Element {
    type V = ElementView;

    open(crate) spec fn view(&self) -> ElementView
        decreases self,
    {
        ElementView {
            name: self.name@,
            attributes: attributes_view(self.attributes@),
            handlers: handlers_view(self.handlers@),
            children: Seq::new(
                self.children.len() as nat,
                |i: int|
                    if 0 <= i < self.children.len() {
                        self.children[i]@
                    } else {
                        NodeView::Null
                    },
            ),
        }
    }
}

/// The view of an edit.
pub open spec fn diff_view(d: Diff) -> DiffView
    decreases d,
{
    match d {
        Diff::SetAttribute(k, v) => DiffView::SetAttribute(k@, v@),
        Diff::RemoveAttribute(k) => DiffView::RemoveAttribute(k@),
        Diff::AddChild(i, n) => DiffView::AddChild(i as nat, n@),
        Diff::ReplaceChild(i, n) => DiffView::ReplaceChild(i as nat, n@),
        Diff::RemoveChild(i) => DiffView::RemoveChild(i as nat),
        Diff::PatchChild(i, edits) => DiffView::PatchChild(
            i as nat,
            Seq::new(
                edits.len() as nat,
                |j: int|
                    if 0 <= j < edits.len() {
                        diff_view(edits[j])
                    } else {
                        DiffView::RemoveChild(0)
                    },
            ),
        ),
        Diff::SetHandler(k, id) => DiffView::SetHandler(k@, id@),
        Diff::RemoveHandler(k, id) => DiffView::RemoveHandler(k@, id@),
    }
}

impl View for Diff {
    type V = DiffView;

    open spec fn view(&self) -> DiffView {
        diff_view(*self)
    }
}

/// The children of an element's view are the views of its children.
pub(crate) proof fn lemma_element_children(e: &Element)
    ensures
        e@.children == nodes_view(e.children@),
{
    assert(e@.children =~= nodes_view(e.children@));
}

/// The edits of a patch's view are the views of its edits.
pub proof fn lemma_patch_view(i: usize, edits: Vec<Diff>)
    ensures
        Diff::PatchChild(i, edits)@ == DiffView::PatchChild(i as nat, diffs_view(edits@)),
{
    let d = Diff::PatchChild(i, edits);
    let es = d@->PatchChild_1;
    assert(es.len() == edits.len());
    assert(es =~= diffs_view(edits@));
}

impl Clone for AttributeValue {
    fn clone(&self) -> (res: AttributeValue)
        ensures
            res@ == self@,
    {
        match self {
            AttributeValue::String(s) => AttributeValue::String(s.clone()),
            AttributeValue::Bool(b) => AttributeValue::Bool(*b),
        }
    }
}

impl PartialEq for AttributeValue {
    fn eq(&self, other: &AttributeValue) -> (res: bool) {
        match (self, other) {
            (AttributeValue::String(a), AttributeValue::String(b)) => *a == *b,
            (AttributeValue::Bool(a), AttributeValue::Bool(b)) => *a == *b,
            _ => false,
        }
    }
}

impl PartialEqSpecImpl for AttributeValue {
    open spec fn obeys_eq_spec() -> bool {
        true
    }

    open spec fn eq_spec(&self, other: &AttributeValue) -> bool {
        self@ == other@
    }
}

/// Copies a list of attributes.
pub fn clone_attributes(a: &[Attribute]) -> (res: Vec<Attribute>)
    ensures
        attributes_view(res@) == attributes_view(a@),
{
    let mut res: Vec<Attribute> = Vec::new();
    let mut k: usize = 0;
    while k < a.len()
        invariant
            k <= a.len(),
            res.len() == k,
            forall|j: int| 0 <= j < k ==> res@[j].0@ == a@[j].0@ && res@[j].1@ == a@[j].1@,
        decreases a.len() - k,
    {
        res.push((a[k].0.clone(), a[k].1.clone()));
        k += 1;
    }
    assert(attributes_view(res@) =~= attributes_view(a@));
    res
}

/// Copies a list of event bindings.
pub fn clone_handlers(a: &[Handler]) -> (res: Vec<Handler>)
    ensures
        handlers_view(res@) == handlers_view(a@),
{
    let mut res: Vec<Handler> = Vec::new();
    let mut k: usize = 0;
    while k < a.len()
        invariant
            k <= a.len(),
            res.len() == k,
            forall|j: int| 0 <= j < k ==> res@[j].0@ == a@[j].0@ && res@[j].1@ == a@[j].1@,
        decreases a.len() - k,
    {
        res.push((a[k].0.clone(), a[k].1.clone()));
        k += 1;
    }
    assert(handlers_view(res@) =~= handlers_view(a@));
    res
}

/// Whether two lists of attributes hold the same names and values in the
/// same order.
pub fn attributes_eq(a: &[Attribute], b: &[Attribute]) -> (res: bool)
    ensures
        res == (attributes_view(a@) == attributes_view(b@)),
{
    if a.len() != b.len() {
        assert(attributes_view(a@).len() != attributes_view(b@).len());
        return false;
    }
    let mut k: usize = 0;
    while k < a.len()
        invariant
            k <= a.len(),
            a.len() == b.len(),
            forall|j: int| 0 <= j < k ==> a@[j].0@ == b@[j].0@ && a@[j].1@ == b@[j].1@,
        decreases a.len() - k,
    {
        if a[k].0 != b[k].0 || a[k].1 != b[k].1 {
            assert(attributes_view(a@)[k as int] != attributes_view(b@)[k as int]);
            return false;
        }
        k += 1;
    }
    assert(attributes_view(a@) =~= attributes_view(b@));
    true
}

/// Whether two lists of event bindings hold the same kinds and ids in the
/// same order.
pub fn handlers_eq(a: &[Handler], b: &[Handler]) -> (res: bool)
    ensures
        res == (handlers_view(a@) == handlers_view(b@)),
{
    if a.len() != b.len() {
        assert(handlers_view(a@).len() != handlers_view(b@).len());
        return false;
    }
    let mut k: usize = 0;
    while k < a.len()
        invariant
            k <= a.len(),
            a.len() == b.len(),
            forall|j: int| 0 <= j < k ==> a@[j].0@ == b@[j].0@ && a@[j].1@ == b@[j].1@,
        decreases a.len() - k,
    {
        if a[k].0 != b[k].0 || a[k].1 != b[k].1 {
            assert(handlers_view(a@)[k as int] != handlers_view(b@)[k as int]);
            return false;
        }
        k += 1;
    }
    assert(handlers_view(a@) =~= handlers_view(b@));
    true
}

impl Clone for Node {
    fn clone(&self) -> (res: Node)
        ensures
            res@ == self@,
        decreases self,
    {
        match self {
            Node::Text(s) => Node::Text(s.clone()),
            Node::Element(e) => Node::Element(e.clone()),
            Node::Null => Node::Null,
        }
    }
}

impl Clone for Element {
    fn clone(&self) -> (res: Element)
        ensures
            res@ == self@,
        decreases self,
    {
        let mut children: Vec<Node> = Vec::new();
        let mut k: usize = 0;
        while k < self.children.len()
            invariant
                k <= self.children.len(),
                children.len() == k,
                forall|j: int| 0 <= j < k ==> children@[j]@ == self.children@[j]@,
            decreases self.children.len() - k,
        {
            children.push(self.children[k].clone());
            k += 1;
        }
        let res = Element {
            name: self.name.clone(),
            attributes: clone_attributes(self.attributes.as_slice()),
            handlers: clone_handlers(self.handlers.as_slice()),
            children,
        };
        assert(res@.children =~= self@.children);
        res
    }
}

impl PartialEq for Node {
    fn eq(&self, other: &Node) -> (res: bool)
        decreases self,
    {
        match (self, other) {
            (Node::Text(a), Node::Text(b)) => *a == *b,
            (Node::Element(a), Node::Element(b)) => a.eq(b),
            (Node::Null, Node::Null) => true,
            _ => false,
        }
    }
}

impl PartialEqSpecImpl for Node {
    open spec fn obeys_eq_spec() -> bool {
        true
    }

    open spec fn eq_spec(&self, other: &Node) -> bool {
        self@ == other@
    }
}

impl PartialEq for Element {
    fn eq(&self, other: &Element) -> (res: bool)
        decreases self,
    {
        if self.name != other.name {
            return false;
        }
        if !attributes_eq(self.attributes.as_slice(), other.attributes.as_slice()) {
            return false;
        }
        if !handlers_eq(self.handlers.as_slice(), other.handlers.as_slice()) {
            return false;
        }
        if self.children.len() != other.children.len() {
            assert(self@.children.len() != other@.children.len());
            return false;
        }
        let mut k: usize = 0;
        while k < self.children.len()
            invariant
                k <= self.children.len(),
                self.children.len() == other.children.len(),
                forall|j: int| 0 <= j < k ==> self.children@[j]@ == other.children@[j]@,
            decreases self.children.len() - k,
        {
            if !self.children[k].eq(&other.children[k]) {
                assert(self@.children[k as int] != other@.children[k as int]);
                return false;
            }
            k += 1;
        }
        assert(self@.children =~= other@.children);
        true
    }
}

impl PartialEqSpecImpl for Element {
    open spec fn obeys_eq_spec() -> bool {
        true
    }

    open spec fn eq_spec(&self, other: &Element) -> bool {
        self@ == other@
    }
}


impl Clone for Diff {
    fn clone(&self) -> (res: Diff)
        ensures
            res@ == self@,
        decreases self,
    {
        match self {
            Diff::SetAttribute(k, v) => Diff::SetAttribute(k.clone(), v.clone()),
            Diff::RemoveAttribute(k) => Diff::RemoveAttribute(k.clone()),
            Diff::AddChild(i, n) => Diff::AddChild(*i, n.clone()),
            Diff::ReplaceChild(i, n) => Diff::ReplaceChild(*i, n.clone()),
            Diff::RemoveChild(i) => Diff::RemoveChild(*i),
            Diff::PatchChild(i, edits) => {
                let mut copy: Vec<Diff> = Vec::new();
                let mut k: usize = 0;
                while k < edits.len()
                    invariant
                        *self is PatchChild,
                        self->PatchChild_1 == *edits,
                        k <= edits.len(),
                        copy.len() == k,
                        forall|j: int| 0 <= j < k ==> copy@[j]@ == edits@[j]@,
                    decreases edits.len() - k,
                {
                    copy.push(edits[k].clone());
                    k += 1;
                }
                proof {
                    lemma_patch_view(*i, copy);
                    lemma_patch_view(*i, *edits);
                    assert(diffs_view(copy@) =~= diffs_view(edits@));
                }
                Diff::PatchChild(*i, copy)
            },
            Diff::SetHandler(k, id) => Diff::SetHandler(k.clone(), id.clone()),
            Diff::RemoveHandler(k, id) => Diff::RemoveHandler(k.clone(), id.clone()),
        }
    }
}

impl PartialEq for Diff {
    fn eq(&self, other: &Diff) -> (res: bool)
        decreases self,
    {
        match (self, other) {
            (Diff::SetAttribute(k, v), Diff::SetAttribute(l, w)) => *k == *l && *v == *w,
            (Diff::RemoveAttribute(k), Diff::RemoveAttribute(l)) => *k == *l,
            (Diff::AddChild(i, n), Diff::AddChild(j, m)) => *i == *j && n.eq(m),
            (Diff::ReplaceChild(i, n), Diff::ReplaceChild(j, m)) => *i == *j && n.eq(m),
            (Diff::RemoveChild(i), Diff::RemoveChild(j)) => *i == *j,
            (Diff::PatchChild(i, edits), Diff::PatchChild(j, others)) => {
                proof {
                    lemma_patch_view(*i, *edits);
                    lemma_patch_view(*j, *others);
                }
                if *i != *j || edits.len() != others.len() {
                    assert(*i == *j ==> diffs_view(edits@).len() != diffs_view(others@).len());
                    return false;
                }
                let mut k: usize = 0;
                while k < edits.len()
                    invariant
                        *self is PatchChild,
                        self->PatchChild_1 == *edits,
                        self@ == DiffView::PatchChild(*i as nat, diffs_view(edits@)),
                        other@ == DiffView::PatchChild(*j as nat, diffs_view(others@)),
                        *i == *j,
                        k <= edits.len(),
                        edits.len() == others.len(),
                        forall|p: int| 0 <= p < k ==> edits@[p]@ == others@[p]@,
                    decreases edits.len() - k,
                {
                    if !edits[k].eq(&others[k]) {
                        assert(diffs_view(edits@)[k as int] != diffs_view(others@)[k as int]);
                        return false;
                    }
                    k += 1;
                }
                assert(diffs_view(edits@) =~= diffs_view(others@));
                true
            },
            (Diff::SetHandler(k, a), Diff::SetHandler(l, b)) => *k == *l && *a == *b,
            (Diff::RemoveHandler(k, a), Diff::RemoveHandler(l, b)) => *k == *l && *a == *b,
            _ => false,
        }
    }
}

impl PartialEqSpecImpl for Diff {
    open spec fn obeys_eq_spec() -> bool {
        true
    }

    open spec fn eq_spec(&self, other: &Diff) -> bool {
        self@ == other@
    }
}

/// The name of the attribute that holds an element's key.
pub open spec fn key_name() -> Seq<char> {
    "key"@
}

/// The value of the first attribute with the given name, if there is one.
pub open spec fn first_value(attributes: Seq<AttributeView>, name: Seq<char>) -> Option<
    AttributeValueView,
>
    decreases attributes.len(),
{
    if attributes.len() == 0 {
        None
    } else if attributes.first().0 == name {
        Some(attributes.first().1)
    } else {
        first_value(attributes.drop_first(), name)
    }
}

/// The key of an element: the value of its first attribute named `key`, if
/// that value is a string.
pub open spec fn element_key(e: ElementView) -> Option<Seq<char>> {
    match first_value(e.attributes, key_name()) {
        Some(AttributeValueView::String(s)) => Some(s),
        _ => None,
    }
}

/// The key of a node: that of an element, none for a text or an empty node.
pub open spec fn node_key(n: NodeView) -> Option<Seq<char>> {
    match n {
        NodeView::Element(e) => element_key(e),
        _ => None,
    }
}

/// What an optional string holds.
pub open spec fn option_view(s: Option<String>) -> Option<Seq<char>> {
    match s {
        Some(s) => Some(s@),
        None => None,
    }
}

impl Element {
    /// An element with the given tag name, attributes, event bindings and
    /// children.
    pub fn new(
        name: String,
        attributes: Vec<Attribute>,
        handlers: Vec<Handler>,
        children: Vec<Node>,
    ) -> (res: Element)
        ensures
            res@ == (ElementView {
                name: name@,
                attributes: attributes_view(attributes@),
                handlers: handlers_view(handlers@),
                children: nodes_view(children@),
            }),
    {
        let res = Element { name, attributes, handlers, children };
        proof {
            lemma_element_children(&res);
        }
        res
    }

    /// The tag name.
    pub fn name(&self) -> (res: &str)
        ensures
            res@ == self@.name,
    {
        self.name.as_str()
    }

    /// The attributes, in order.
    pub fn attributes(&self) -> (res: &[Attribute])
        ensures
            attributes_view(res@) == self@.attributes,
    {
        self.attributes.as_slice()
    }

    /// The event bindings, in order.
    pub fn handlers(&self) -> (res: &[Handler])
        ensures
            handlers_view(res@) == self@.handlers,
    {
        self.handlers.as_slice()
    }

    /// The children, in order.
    pub fn children(&self) -> (res: &[Node])
        ensures
            nodes_view(res@) == self@.children,
    {
        proof {
            lemma_element_children(self);
        }
        self.children.as_slice()
    }

    /// The key: the value of the first attribute named `key`, if it is a
    /// string.
    pub fn get_key(&self) -> (res: Option<String>)
        ensures
            option_view(res) == element_key(self@),
    {
        let key = String::from_str("key");
        let ghost attributes = self@.attributes;
        let mut k: usize = 0;
        assert(attributes.skip(0) =~= attributes);
        while k < self.attributes.len()
            invariant
                k <= self.attributes.len(),
                key@ == key_name(),
                attributes == attributes_view(self.attributes@),
                first_value(attributes, key_name()) == first_value(
                    attributes.skip(k as int),
                    key_name(),
                ),
            decreases self.attributes.len() - k,
        {
            proof {
                assert(attributes.skip(k as int).drop_first() =~= attributes.skip(k as int + 1));
            }
            if self.attributes[k].0 == key {
                return match &self.attributes[k].1 {
                    AttributeValue::String(s) => Some(s.clone()),
                    AttributeValue::Bool(_) => None,
                };
            }
            k += 1;
        }
        None
    }
}

impl Node {
    /// The key of an element; none for a text or an empty node.
    pub fn get_key(&self) -> (res: Option<String>)
        ensures
            option_view(res) == node_key(self@),
    {
        match self {
            Node::Element(el) => el.get_key(),
            _ => None,
        }
    }
}


} // verus!
