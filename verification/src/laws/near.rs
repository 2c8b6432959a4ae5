//! Physical nodes that have changed behind the virtual tree's back.
//!
//! A volatile attribute can change on a physical node without a diff, through
//! user input, say. As every diff sets the volatile attributes of the new node
//! again, it is enough that a physical node reflects the old node in all but
//! these.
use crate::dom::Label;
use crate::dom::PNode;
use crate::dom::attribute_map;
use crate::dom::listener_map;
use crate::dom::optional_view;
use crate::dom::reflects;
use crate::dom::reflects_all;
use crate::laws::basic::lemma_sizes;
use crate::laws::right::same_kind;
use crate::laws::right::told_by_key;
use crate::vnode::Attribute;
use crate::vnode::VNode;
use crate::vnode::size;
use crate::vnode::size_all;
use vstd::prelude::*;

verus! {

/// Whether one of the attributes is volatile and has the name.
pub open spec fn volatile_name(attrs: Seq<Attribute>, name: Seq<char>) -> bool {
    exists|i: int|
        0 <= i < attrs.len() && (#[trigger] attrs[i]).name@ == name && attrs[i].volatile
}

/// Whether a node has the old attributes, in all but those that are volatile
/// among the new ones.
pub open spec fn nearly_has(
    a: Map<Seq<char>, Seq<char>>,
    old: Seq<Attribute>,
    new: Seq<Attribute>,
) -> bool {
    forall|k: Seq<char>|
        !volatile_name(new, k) ==> (#[trigger] a.contains_key(k) == attribute_map(
            old,
        ).contains_key(k)) && (a.contains_key(k) ==> a[k] == attribute_map(old)[k])
}

/// Whether a physical tree reflects the old tree, in all but the attributes that
/// are volatile in the new tree.
#[verifier::opaque]
pub open spec fn nearly_reflects(p: PNode, old: VNode, new: VNode) -> bool
    decreases size(old),
{
    match (old, new) {
        (VNode::Element(a), VNode::Element(b)) => if same_kind(old, new) {
            let olds = a.children@;
            let news = b.children@;
            let kids = p.children;
            proof {
                lemma_sizes(olds);
            }
            &&& p.label is Element
            &&& p.label->tag == a.tag_name@
            &&& p.label->namespace == optional_view(a.namespace)
            &&& p.label->listeners == listener_map(a.listeners@)
            &&& nearly_has(p.label->attributes, a.attributes@, b.attributes@)
            &&& kids.len() == olds.len()
            &&& if told_by_key(olds, news) {
                forall|i: int, j: int|
                    #![trigger olds[i], news[j]]
                    0 <= i < olds.len() && 0 <= j < news.len() && olds[i].key() == news[j].key()
                        ==> nearly_reflects(kids[i], olds[i], news[j])
            } else {
                forall|i: int|
                    #![trigger olds[i]]
                    #![trigger news[i]]
                    0 <= i < olds.len() && i < news.len() ==> nearly_reflects(
                        kids[i],
                        olds[i],
                        news[i],
                    )
            }
        } else {
            true
        },
        (VNode::Text(a), VNode::Text(_)) => p.label == Label::Text(a.text@) && p.children.len()
            == 0,
        _ => true,
    }
}

/// Whether physical nodes reflect old nodes, in all but the attributes that are
/// volatile in the new nodes of their keys.
#[verifier::opaque]
pub open spec fn nearly_by_key(kids: Seq<PNode>, olds: Seq<VNode>, news: Seq<VNode>) -> bool {
    kids.len() == olds.len() && forall|i: int, j: int|
        #![trigger olds[i], news[j]]
        0 <= i < olds.len() && 0 <= j < news.len() && olds[i].key() == news[j].key()
            ==> nearly_reflects(kids[i], olds[i], news[j])
}

/// Whether physical nodes reflect old nodes, in all but the attributes that are
/// volatile in the new nodes at their places.
pub open spec fn nearly_in_order(kids: Seq<PNode>, olds: Seq<VNode>, news: Seq<VNode>) -> bool {
    kids.len() == olds.len() && forall|i: int|
        #![trigger olds[i]]
        #![trigger news[i]]
        0 <= i < olds.len() && i < news.len() ==> nearly_reflects(kids[i], olds[i], news[i])
}

/// Whether the children of a physical node reflect the old children, in all but
/// the attributes that are volatile in the new ones.
pub open spec fn nearly_children(kids: Seq<PNode>, olds: Seq<VNode>, news: Seq<VNode>) -> bool {
    if told_by_key(olds, news) {
        nearly_by_key(kids, olds, news)
    } else {
        nearly_in_order(kids, olds, news)
    }
}

pub proof fn lemma_nearly(p: PNode, old: VNode, new: VNode)
    ensures
        old is Element && new is Element && same_kind(old, new) ==> nearly_reflects(p, old, new)
            == {
            let a = old->Element_0;
            let b = new->Element_0;
            &&& p.label is Element
            &&& p.label->tag == a.tag_name@
            &&& p.label->namespace == optional_view(a.namespace)
            &&& p.label->listeners == listener_map(a.listeners@)
            &&& nearly_has(p.label->attributes, a.attributes@, b.attributes@)
            &&& nearly_children(p.children, a.children@, b.children@)
        },
        old is Text && new is Text ==> nearly_reflects(p, old, new) == (p.label == Label::Text(
            old->Text_0.text@,
        ) && p.children.len() == 0),
        !same_kind(old, new) ==> nearly_reflects(p, old, new),
{
    reveal(nearly_reflects);
    reveal(nearly_by_key);
}

/// What reflects the old tree does so in all but what does not matter.
pub proof fn lemma_nearly_reflects(p: PNode, old: VNode, new: VNode)
    requires
        reflects(p, old),
    ensures
        nearly_reflects(p, old, new),
    decreases size(old), 0nat,
{
    lemma_nearly(p, old, new);
    if old is Element && new is Element && same_kind(old, new) {
        let olds = old->Element_0.children@;
        let news = new->Element_0.children@;
        lemma_nearly_children(p.children, olds, news);
    }
}

/// What reflects the old children does so in all but what does not matter.
pub proof fn lemma_nearly_children(kids: Seq<PNode>, olds: Seq<VNode>, news: Seq<VNode>)
    requires
        reflects_all(kids, olds),
    ensures
        nearly_children(kids, olds, news),
        nearly_by_key(kids, olds, news),
        nearly_in_order(kids, olds, news),
    decreases size_all(olds), 1nat,
{
    reveal(nearly_by_key);
    lemma_sizes(olds);
    assert forall|i: int, j: int|
        #![trigger olds[i], news[j]]
        0 <= i < olds.len() && 0 <= j < news.len() implies nearly_reflects(
        kids[i],
        olds[i],
        news[j],
    ) by {
        assert(size(olds[i]) <= size_all(olds));
        lemma_nearly_reflects(kids[i], olds[i], news[j]);
    }
}

} // verus!
