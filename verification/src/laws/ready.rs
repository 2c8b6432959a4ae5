//! Which trees can be diffed.
use crate::keys::lemma_count_le;
use crate::keys::lemma_prefix_from;
use crate::keys::lemma_suffix_from;
use crate::keys::reused;
use crate::keys::shared_prefix;
use crate::keys::shared_suffix;
use crate::keys::sources;
use crate::laws::basic::lemma_sizes;
use crate::laws::right::told_by_key;
use crate::slots::larger;
use crate::slots::shorter;
use crate::slots::slots;
use crate::slots::slots_beyond_prefix;
use crate::slots::slots_children;
use crate::slots::slots_keyed;
use crate::slots::slots_source;
use crate::slots::slots_sources;
use crate::slots::slots_walk;
use crate::steps::can_diff;
use crate::steps::can_diff_by_key;
use crate::steps::can_diff_children;
use crate::steps::can_diff_in_order;
use crate::steps::can_diff_keyed;
use crate::steps::takes_text;
use crate::vnode::VNode;
use crate::vnode::lemma_size_index;
use crate::vnode::lemma_size_subrange;
use crate::vnode::renderable;
use crate::vnode::renderable_all;
use crate::vnode::same_type;
use crate::vnode::size;
use crate::vnode::size_all;
use vstd::prelude::*;

verus! {

/// Only elements have keys: each the one it was given.
pub proof fn law_key<'a>(n: VNode<'a>)
    ensures
        n.key() == match n {
            VNode::Element(e) => e.key,
            _ => None,
        },
{
}

/// Whether a tree holds only texts and elements, and siblings in it have keys of
/// their own or none of them has one.
pub open spec fn orderly(n: VNode) -> bool
    decreases n,
{
    match n {
        VNode::Text(_) => true,
        VNode::Element(e) => orderly_all(e.children@),
        _ => false,
    }
}

/// Whether siblings have keys of their own or none of them has one, and so it is
/// in the trees beneath them.
pub open spec fn orderly_all(ns: Seq<VNode>) -> bool
    decreases ns,
{
    &&& ns.len() < u32::MAX
    &&& forall|i: int| 0 <= i < ns.len() ==> orderly(#[trigger] ns[i])
    &&& {
        ||| forall|i: int| 0 <= i < ns.len() ==> (#[trigger] ns[i]).key() is None
        ||| {
            &&& forall|i: int| 0 <= i < ns.len() ==> (#[trigger] ns[i]).key() is Some
            &&& forall|i: int, j: int|
                0 <= i < j < ns.len() ==> (#[trigger] ns[i]).key() != (#[trigger] ns[j]).key()
        }
    }
}

/// A tree whose siblings are keyed as they have to be can be created.
pub proof fn law_orderly_trees_can_be_created<'a>(n: VNode<'a>)
    requires
        orderly(n),
    ensures
        renderable(n),
    decreases n,
{
    if let VNode::Element(e) = n {
        let kids = e.children@;
        assert forall|i: int| 0 <= i < kids.len() implies renderable(#[trigger] kids[i]) by {
            law_orderly_trees_can_be_created(kids[i]);
        }
        assert(renderable_all(kids));
    }
}

/// Any two trees whose siblings are keyed as they have to be can be diffed.
pub proof fn law_orderly_trees_can_be_diffed<'a>(old: VNode<'a>, new: VNode<'a>)
    requires
        orderly(old),
        orderly(new),
    ensures
        can_diff(old, new),
    decreases size(old), 0nat,
{
    law_orderly_trees_can_be_created(new);
    if let (VNode::Element(a), VNode::Element(b)) = (old, new) {
        if same_type(a, b) {
            law_orderly_children_can_be_diffed(a.children@, b.children@);
        }
    }
}

/// Any two lists of siblings that are keyed as they have to be can be diffed.
pub proof fn law_orderly_children_can_be_diffed<'a>(olds: Seq<VNode<'a>>, news: Seq<VNode<'a>>)
    requires
        orderly_all(olds),
        orderly_all(news),
    ensures
        can_diff_children(olds, news),
        told_by_key(olds, news) ==> can_diff_keyed(olds, news),
        !told_by_key(olds, news) ==> can_diff_in_order(olds, news),
    decreases size_all(olds), 1nat,
{
    lemma_sizes(olds);
    assert forall|j: int| 0 <= j < news.len() implies renderable(#[trigger] news[j]) by {
        law_orderly_trees_can_be_created(news[j]);
    }
    assert forall|i: int, j: int|
        #![trigger olds[i], news[j]]
        0 <= i < olds.len() && 0 <= j < news.len() implies can_diff(olds[i], news[j]) by {
        assert(size(olds[i]) <= size_all(olds));
        law_orderly_trees_can_be_diffed(olds[i], news[j]);
    }
    assert(can_diff_in_order(olds, news));
    if told_by_key(olds, news) {
        reveal(can_diff_keyed);
        lemma_prefix_from(olds, news, 0);
        let p = shared_prefix(olds, news);
        lemma_suffix_from(olds.skip(p), news.skip(p), 0);
        assert(can_diff_by_key(olds, news));
        assert(can_diff_keyed(olds, news));
    }
}

proof fn lemma_size_add<'a>(a: Seq<VNode<'a>>, b: Seq<VNode<'a>>)
    ensures
        size_all(a + b) == size_all(a) + size_all(b),
    decreases b.len(),
{
    if b.len() == 0 {
        assert(a + b =~= a);
    } else {
        assert((a + b).drop_last() =~= a + b.drop_last());
        lemma_size_add(a, b.drop_last());
    }
}

proof fn lemma_size_positive<'a>(n: VNode<'a>)
    ensures
        size(n) >= 1,
{
}

proof fn lemma_size_and_length<'a>(ns: Seq<VNode<'a>>, i: int)
    requires
        0 <= i < ns.len(),
    ensures
        ns.len() + size(ns[i]) <= size_all(ns) + 1,
    decreases ns.len(),
{
    lemma_length_le_size(ns.drop_last());
    lemma_size_positive(ns.last());
    if i < ns.len() - 1 {
        lemma_size_and_length(ns.drop_last(), i);
    }
}

proof fn lemma_length_le_size<'a>(ns: Seq<VNode<'a>>)
    ensures
        ns.len() <= size_all(ns),
    decreases ns.len(),
{
    if ns.len() > 0 {
        lemma_size_positive(ns.last());
        lemma_length_le_size(ns.drop_last());
    }
}

/// To diff two trees takes fewer temporaries than the old one has nodes.
pub proof fn law_temporaries_of_a_node<'a>(old: VNode<'a>, new: VNode<'a>)
    ensures
        slots(old, new) < size(old),
    decreases size(old), 0nat, 0int,
{
    if let (VNode::Element(a), VNode::Element(b)) = (old, new) {
        if same_type(a, b) {
            law_temporaries_of_children(a.children@, b.children@);
        }
    }
}

/// To diff two lists of children takes no more temporaries than the old ones
/// have nodes.
pub proof fn law_temporaries_of_children<'a>(olds: Seq<VNode<'a>>, news: Seq<VNode<'a>>)
    ensures
        slots_children(olds, news) <= size_all(olds),
    decreases size_all(olds), 8nat, 0int,
{
    reveal(slots_walk);
    reveal(slots_keyed);
    reveal(slots_beyond_prefix);
    if news.len() == 0 || takes_text(olds, news) || olds.len() == 0 {
    } else if olds[0].key() is Some && news[0].key() is Some {
        law_temporaries_by_key(olds, news);
    } else {
        lemma_temporaries_of_walk(olds, news, shorter(olds, news));
    }
}

proof fn lemma_temporaries_of_walk<'a>(olds: Seq<VNode<'a>>, news: Seq<VNode<'a>>, n: int)
    ensures
        slots_walk(olds, news, n) <= size_all(olds),
    decreases size_all(olds), 1nat, n,
{
    reveal(slots_walk);
    if 0 < n <= olds.len() {
        lemma_size_index(olds, n - 1);
        lemma_temporaries_of_walk(olds, news, n - 1);
        law_temporaries_of_a_node(olds[n - 1], news[n - 1]);
    }
}

proof fn lemma_temporaries_of_sources<'a>(olds: Seq<VNode<'a>>, news: Seq<VNode<'a>>, k: int)
    ensures
        slots_sources(olds, news, k) + olds.len() <= size_all(olds),
    decreases size_all(olds), 3nat, k,
{
    reveal(slots_walk);
    reveal(slots_keyed);
    reveal(slots_beyond_prefix);
    lemma_length_le_size(olds);
    if k > 0 {
        lemma_temporaries_of_sources(olds, news, k - 1);
        let i = sources(olds, news)[k - 1] as int;
        assert(slots_source(olds, news, k - 1) == if 0 <= i < olds.len() {
            slots(olds[i], news[k - 1])
        } else {
            0
        });
        assert(slots_sources(olds, news, k) == larger(
            slots_sources(olds, news, k - 1),
            slots_source(olds, news, k - 1),
        ));
        if 0 <= i < olds.len() {
            lemma_size_index(olds, i);
            lemma_size_and_length(olds, i);
            law_temporaries_of_a_node(olds[i], news[k - 1]);
        }
    }
}

/// To diff children by key takes no more temporaries than the old ones have
/// nodes.
pub proof fn law_temporaries_by_key<'a>(olds: Seq<VNode<'a>>, news: Seq<VNode<'a>>)
    ensures
        slots_keyed(olds, news) <= size_all(olds),
    decreases size_all(olds), 7nat, 0int,
{
    reveal(slots_walk);
    reveal(slots_keyed);
    reveal(slots_beyond_prefix);
    let p = shared_prefix(olds, news);
    lemma_temporaries_of_walk(olds, news, p);
    let s = shared_suffix(olds.skip(p), news.skip(p));
    let x = olds.len() - s;
    let y = news.len() - s;
    if 0 <= s && 0 <= p <= x && p <= y {
        let mid = olds.subrange(p, x);
        let new_mid = news.subrange(p, y);
        let tail = olds.subrange(x, olds.len() as int);
        let new_tail = news.subrange(y, news.len() as int);
        lemma_size_subrange(olds, p, x);
        lemma_size_subrange(olds, x, olds.len() as int);
        lemma_temporaries_of_sources(mid, new_mid, new_mid.len() as int);
        lemma_temporaries_of_walk(tail, new_tail, s);
        lemma_count_le(reused(mid, new_mid));
        lemma_length_le_size(mid);
        assert(olds =~= olds.take(p) + (mid + tail));
        lemma_size_add(mid, tail);
        lemma_size_add(olds.take(p), mid + tail);
    }
}

} // verus!
