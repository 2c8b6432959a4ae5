//! The virtual DOM: the trees that are compared.
use vstd::prelude::*;

verus! {

/// A handler for one kind of event. `id` says which handler it is.
#[derive(Clone, Copy, Debug, PartialEq, Eq)]
pub struct Listener<'a> {
    pub event: &'a str,
    pub id: u64,
}

/// A named value on an element.
///
/// A volatile attribute can change on the physical node behind the virtual
/// tree's back (through user input, say), so it is set again on every diff.
#[derive(Clone, Copy, Debug, PartialEq, Eq)]
pub struct Attribute<'a> {
    pub name: &'a str,
    pub value: &'a str,
    pub volatile: bool,
}

impl<'a> Attribute<'a> {
    /// Whether the attribute has to be set even where its value has not changed.
    pub fn is_volatile(&self) -> (r: bool)
        ensures
            r == self.volatile,
    {
        self.volatile
    }
}

/// A piece of text.
#[derive(Clone, Copy, Debug, PartialEq, Eq)]
pub struct VText<'a> {
    pub text: &'a str,
}

/// An element with its attributes, listeners and children.
#[derive(Debug)]
pub struct VElement<'a> {
    pub key: Option<u64>,
    pub tag_name: &'a str,
    pub listeners: Vec<Listener<'a>>,
    pub attributes: Vec<Attribute<'a>>,
    pub children: Vec<VNode<'a>>,
    pub namespace: Option<&'a str>,
}

/// A component. Components cannot be diffed yet.
#[derive(Clone, Copy, Debug, PartialEq, Eq)]
pub struct VComponent {}

/// A node of the virtual tree.
#[derive(Debug)]
pub enum VNode<'a> {
    Text(VText<'a>),
    Element(VElement<'a>),
    Component(VComponent),
    Suspended,
}

impl<'a> VNode<'a> {
    pub open spec fn spec_key(&self) -> Option<u64> {
        match self {
            VNode::Element(e) => e.key,
            _ => None,
        }
    }

    /// The key that tells a node apart from its siblings. Only elements have one.
    #[verifier::when_used_as_spec(spec_key)]
    pub fn key(&self) -> (r: Option<u64>)
        ensures
            r == self.spec_key(),
    {
        match self {
            VNode::Element(e) => e.key,
            _ => None,
        }
    }
}

/// How many nodes a tree has.
pub open spec fn size(n: VNode) -> nat
    decreases n,
{
    match n {
        VNode::Element(e) => 1 + size_all(e.children@),
        _ => 1,
    }
}

/// How many nodes a list of trees has in all.
pub open spec fn size_all(ns: Seq<VNode>) -> nat
    decreases ns,
{
    if ns.len() == 0 {
        0
    } else {
        size_all(ns.drop_last()) + size(ns.last())
    }
}

pub proof fn lemma_size_index(ns: Seq<VNode>, i: int)
    requires
        0 <= i < ns.len(),
    ensures
        size(ns[i]) <= size_all(ns),
    decreases ns.len(),
{
    if i < ns.len() - 1 {
        lemma_size_index(ns.drop_last(), i);
    }
}

pub proof fn lemma_size_take(ns: Seq<VNode>, j: int)
    requires
        0 <= j <= ns.len(),
    ensures
        size_all(ns.subrange(0, j)) <= size_all(ns),
    decreases ns.len(),
{
    if j == ns.len() {
        assert(ns.subrange(0, j) =~= ns);
    } else {
        lemma_size_take(ns.drop_last(), j);
        assert(ns.drop_last().subrange(0, j) =~= ns.subrange(0, j));
    }
}

pub proof fn lemma_size_subrange(ns: Seq<VNode>, i: int, j: int)
    requires
        0 <= i <= j <= ns.len(),
    ensures
        size_all(ns.subrange(i, j)) <= size_all(ns),
    decreases j - i,
{
    if i < j {
        lemma_size_subrange(ns, i, j - 1);
        assert(ns.subrange(i, j).drop_last() =~= ns.subrange(i, j - 1));
        lemma_size_subrange_split(ns, i, j);
    }
}

proof fn lemma_size_subrange_split(ns: Seq<VNode>, i: int, j: int)
    requires
        0 <= i <= j <= ns.len(),
    ensures
        size_all(ns.subrange(0, i)) + size_all(ns.subrange(i, j)) <= size_all(ns),
    decreases j - i,
{
    if i == j {
        lemma_size_take(ns, i);
    } else {
        lemma_size_take(ns, j);
        lemma_size_subrange_sum(ns, i, j);
    }
}

proof fn lemma_size_subrange_sum(ns: Seq<VNode>, i: int, j: int)
    requires
        0 <= i <= j <= ns.len(),
    ensures
        size_all(ns.subrange(0, i)) + size_all(ns.subrange(i, j)) == size_all(ns.subrange(0, j)),
    decreases j - i,
{
    if i < j {
        lemma_size_subrange_sum(ns, i, j - 1);
        assert(ns.subrange(i, j).drop_last() =~= ns.subrange(i, j - 1));
        assert(ns.subrange(0, j).drop_last() =~= ns.subrange(0, j - 1));
    } else {
        assert(ns.subrange(i, j) =~= Seq::<VNode>::empty());
    }
}

/// Whether two strings that may be missing are the same.
pub open spec fn same_optional_str(a: Option<&str>, b: Option<&str>) -> bool {
    match (a, b) {
        (Some(x), Some(y)) => x@ == y@,
        (None, None) => true,
        _ => false,
    }
}

/// Whether two elements are of one type: a node of the one type can be turned
/// into a node of the other in place.
pub open spec fn same_type(a: VElement, b: VElement) -> bool {
    a.tag_name@ == b.tag_name@ && same_optional_str(a.namespace, b.namespace)
}

/// Whether diffing `old` with `new` keeps the physical node. Where it does
/// not, the node is replaced by a new one.
pub open spec fn keeps_node(old: VNode, new: VNode) -> bool {
    match (old, new) {
        (VNode::Text(_), VNode::Text(_)) => true,
        (VNode::Element(a), VNode::Element(b)) => same_type(a, b),
        _ => false,
    }
}

/// Whether a tree holds only text and elements, and so can be created.
pub open spec fn renderable(n: VNode) -> bool
    decreases n,
{
    match n {
        VNode::Text(_) => true,
        VNode::Element(e) => renderable_all(e.children@),
        _ => false,
    }
}

/// Whether every tree of a list can be created.
pub open spec fn renderable_all(ns: Seq<VNode>) -> bool
    decreases ns,
{
    forall|i: int| 0 <= i < ns.len() ==> renderable(#[trigger] ns[i])
}

/// `core::str`'s `==`: two strings are equal exactly when they hold the same
/// characters.
#[verifier::external_body]
pub(crate) fn same_str(a: &str, b: &str) -> (r: bool)
    ensures
        r == (a@ == b@),
{
    a == b
}

/// Whether two strings that may be missing are the same.
pub(crate) fn equal_optional_str(a: Option<&str>, b: Option<&str>) -> (r: bool)
    ensures
        r == same_optional_str(a, b),
{
    match (a, b) {
        (Some(x), Some(y)) => same_str(x, y),
        (None, None) => true,
        _ => false,
    }
}

} // verus!
