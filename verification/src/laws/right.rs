//! Which physical nodes a diff keeps.
//!
//! `kids` are physical nodes that reflect old nodes, and `kids2` those that
//! stand for the new nodes afterwards. No identity from `start` on was taken
//! before, so that a node with such an identity is a new one.
use crate::dom::PNode;
use crate::dom::optional_view;
use crate::keys::has_key;
use crate::laws::basic::lemma_sizes;
use crate::vnode::VNode;
use crate::vnode::size;
use crate::vnode::size_all;
use vstd::prelude::*;

verus! {

/// Whether two nodes are of one kind, so that a physical node for the one can
/// be turned into one for the other: two texts, or two elements with the same
/// tag in the same namespace.
pub open spec fn same_kind(old: VNode, new: VNode) -> bool {
    match (old, new) {
        (VNode::Text(_), VNode::Text(_)) => true,
        (VNode::Element(a), VNode::Element(b)) => a.tag_name@ == b.tag_name@ && optional_view(
            a.namespace,
        ) == optional_view(b.namespace),
        _ => false,
    }
}

/// The physical node is the same where the two nodes are of one kind, and a new
/// one otherwise.
pub open spec fn right_node(p: PNode, q: PNode, old: VNode, new: VNode, start: nat) -> bool {
    if same_kind(old, new) {
        q.id == p.id
    } else {
        start <= q.id
    }
}

/// Whether the keys of the children tell which physical nodes are reused: both
/// the old and the new ones have keys.
pub open spec fn told_by_key(olds: Seq<VNode>, news: Seq<VNode>) -> bool {
    olds.len() > 0 && news.len() > 0 && olds[0].key() is Some && news[0].key() is Some
}

/// Whether the children are written anew as one text: that is the new one, and
/// no old text of the same characters comes first.
pub open spec fn rewritten(olds: Seq<VNode>, news: Seq<VNode>) -> bool {
    &&& news.len() == 1
    &&& news[0] is Text
    &&& olds.len() > 0 && olds[0] is Text ==> olds[0]->Text_0.text@ != news[0]->Text_0.text@
}

/// The physical node is the right one for the new node, and so are the nodes
/// beneath it, at every depth: where it is kept, its children are the right ones
/// for the new children, by key or in order.
#[verifier::opaque]
pub open spec fn right_tree(p: PNode, q: PNode, old: VNode, new: VNode, start: nat) -> bool
    decreases size(old),
{
    right_node(p, q, old, new, start) && (old is Element && new is Element && same_kind(old, new)
        ==> {
        let olds = old->Element_0.children@;
        let news = new->Element_0.children@;
        let kids = p.children;
        let kids2 = q.children;
        proof {
            lemma_sizes(olds);
        }
        if told_by_key(olds, news) {
            &&& kids2.len() == news.len()
            &&& forall|i: int, j: int|
                #![trigger olds[i], news[j]]
                0 <= i < olds.len() && 0 <= j < news.len() && olds[i].key() == news[j].key()
                    ==> right_tree(kids[i], kids2[j], olds[i], news[j], start)
            &&& forall|j: int|
                0 <= j < news.len() && !has_key(olds, (#[trigger] news[j]).key()) ==> start
                    <= kids2[j].id
        } else if rewritten(olds, news) {
            &&& kids2.len() == if news[0]->Text_0.text@.len() == 0 {
                0nat
            } else {
                1nat
            }
            &&& forall|j: int| 0 <= j < kids2.len() ==> start <= (#[trigger] kids2[j]).id
        } else {
            &&& kids2.len() == news.len()
            &&& forall|i: int|
                #![trigger olds[i]]
                #![trigger news[i]]
                0 <= i < olds.len() && i < news.len() ==> right_tree(
                    kids[i],
                    kids2[i],
                    olds[i],
                    news[i],
                    start,
                )
            &&& forall|j: int| olds.len() <= j < news.len() ==> start <= (#[trigger] kids2[j]).id
        }
    })
}

/// Physical nodes are reused as the keys tell: for a new node whose key an old
/// one has, the physical node of the old one, if the two are of one kind, and a
/// new node otherwise. So it is beneath each node that is kept.
pub open spec fn reuses(
    olds: Seq<VNode>,
    news: Seq<VNode>,
    kids: Seq<PNode>,
    kids2: Seq<PNode>,
    start: nat,
) -> bool {
    &&& forall|i: int, j: int|
        #![trigger olds[i], news[j]]
        0 <= i < olds.len() && 0 <= j < news.len() && olds[i].key() == news[j].key() ==> right_node(
            kids[i],
            kids2[j],
            olds[i],
            news[j],
            start,
        ) && right_tree(kids[i], kids2[j], olds[i], news[j], start)
    &&& forall|j: int|
        0 <= j < news.len() && !has_key(olds, (#[trigger] news[j]).key()) ==> start <= kids2[j].id
}

/// Physical nodes are reused in order: each new node gets the physical node of
/// the old node at its index, if the two are of one kind, and a new node
/// otherwise. So it is beneath each node that is kept.
pub open spec fn reuses_in_order(
    olds: Seq<VNode>,
    news: Seq<VNode>,
    kids: Seq<PNode>,
    kids2: Seq<PNode>,
    start: nat,
) -> bool {
    &&& forall|i: int|
        #![trigger olds[i]]
        #![trigger news[i]]
        0 <= i < olds.len() && i < news.len() ==> right_node(
            kids[i],
            kids2[i],
            olds[i],
            news[i],
            start,
        ) && right_tree(kids[i], kids2[i], olds[i], news[i], start)
    &&& forall|j: int| olds.len() <= j < news.len() ==> start <= (#[trigger] kids2[j]).id
}

/// The children of a node that is kept are the right ones for the new children.
pub open spec fn right_children(
    olds: Seq<VNode>,
    news: Seq<VNode>,
    kids: Seq<PNode>,
    kids2: Seq<PNode>,
    start: nat,
) -> bool {
    if told_by_key(olds, news) {
        kids2.len() == news.len() && reuses(olds, news, kids, kids2, start)
    } else if rewritten(olds, news) {
        &&& kids2.len() == if news[0]->Text_0.text@.len() == 0 {
            0nat
        } else {
            1nat
        }
        &&& forall|j: int| 0 <= j < kids2.len() ==> start <= (#[trigger] kids2[j]).id
    } else {
        kids2.len() == news.len() && reuses_in_order(olds, news, kids, kids2, start)
    }
}

/// The nodes beneath a node that is kept are the right ones exactly when its
/// children are.
pub proof fn lemma_right_tree(p: PNode, q: PNode, old: VNode, new: VNode, start: nat)
    ensures
        right_tree(p, q, old, new, start) ==> right_node(p, q, old, new, start),
        old is Element && new is Element && same_kind(old, new) ==> right_tree(
            p,
            q,
            old,
            new,
            start,
        ) == (q.id == p.id && right_children(
            old->Element_0.children@,
            new->Element_0.children@,
            p.children,
            q.children,
            start,
        )),
        !(old is Element && new is Element && same_kind(old, new)) ==> right_tree(
            p,
            q,
            old,
            new,
            start,
        ) == right_node(p, q, old, new, start),
{
    reveal(right_tree);
    if old is Element && new is Element && same_kind(old, new) {
        let olds = old->Element_0.children@;
        let news = new->Element_0.children@;
        let kids = p.children;
        let kids2 = q.children;
        if right_children(olds, news, kids, kids2, start) && q.id == p.id {
            assert(right_tree(p, q, old, new, start));
        }
        if right_tree(p, q, old, new, start) {
            if told_by_key(olds, news) {
                assert forall|i: int, j: int|
                    #![trigger olds[i], news[j]]
                    0 <= i < olds.len() && 0 <= j < news.len() && olds[i].key()
                        == news[j].key() implies right_node(
                    kids[i],
                    kids2[j],
                    olds[i],
                    news[j],
                    start,
                ) && right_tree(kids[i], kids2[j], olds[i], news[j], start) by {
                    assert(right_tree(kids[i], kids2[j], olds[i], news[j], start));
                }
            } else if !rewritten(olds, news) {
                assert forall|i: int|
                    #![trigger olds[i]]
                    #![trigger news[i]]
                    0 <= i < olds.len() && i < news.len() implies right_node(
                    kids[i],
                    kids2[i],
                    olds[i],
                    news[i],
                    start,
                ) && right_tree(kids[i], kids2[i], olds[i], news[i], start) by {
                    assert(right_tree(kids[i], kids2[i], olds[i], news[i], start));
                }
            }
        }
    }
}

/// A node that is right is right too if fewer identities were taken before.
pub proof fn lemma_right_earlier(
    p: PNode,
    q: PNode,
    old: VNode,
    new: VNode,
    start: nat,
    earlier: nat,
)
    requires
        right_tree(p, q, old, new, start),
        earlier <= start,
    ensures
        right_tree(p, q, old, new, earlier),
    decreases size(old),
{
    lemma_right_tree(p, q, old, new, start);
    lemma_right_tree(p, q, old, new, earlier);
    if old is Element && new is Element && same_kind(old, new) {
        let olds = old->Element_0.children@;
        let news = new->Element_0.children@;
        let kids = p.children;
        let kids2 = q.children;
        lemma_sizes(olds);
        if told_by_key(olds, news) {
            assert forall|i: int, j: int|
                #![trigger olds[i], news[j]]
                0 <= i < olds.len() && 0 <= j < news.len() && olds[i].key()
                    == news[j].key() implies right_node(
                kids[i],
                kids2[j],
                olds[i],
                news[j],
                earlier,
            ) && right_tree(kids[i], kids2[j], olds[i], news[j], earlier) by {
                assert(size(olds[i]) <= size_all(olds));
                lemma_right_earlier(kids[i], kids2[j], olds[i], news[j], start, earlier);
            }
        } else if !rewritten(olds, news) {
            assert forall|i: int|
                #![trigger olds[i]]
                #![trigger news[i]]
                0 <= i < olds.len() && i < news.len() implies right_node(
                kids[i],
                kids2[i],
                olds[i],
                news[i],
                earlier,
            ) && right_tree(kids[i], kids2[i], olds[i], news[i], earlier) by {
                assert(size(olds[i]) <= size_all(olds));
                lemma_right_earlier(kids[i], kids2[i], olds[i], news[i], start, earlier);
            }
        }
    }
}

} // verus!
