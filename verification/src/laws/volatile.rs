//! What diffing attributes does to a node whose attributes have changed behind
//! the virtual tree's back.
use crate::dom::Machine;
use crate::dom::identified;
use crate::dom::identified_all;
use crate::dom::lemma_follow_add;
use crate::dom::lemma_follow_empty;
use crate::dom::lemma_follow_push;
use crate::dom::reflects;
use crate::dom::reflects_all;
use crate::laws::basic::clean;
use crate::laws::basic::clean_all;
use crate::laws::basic::lemma_drop_attrs;
use crate::laws::basic::lemma_has_name_last;
use crate::laws::basic::lemma_relabeled;
use crate::laws::basic::lemma_shows;
use crate::laws::basic::lemma_shows_children;
use crate::laws::basic::lemma_without_attributes_at;
use crate::laws::basic::lemma_written;
use crate::laws::basic::on_element;
use crate::laws::basic::relabeled;
use crate::laws::basic::unambiguous;
use crate::laws::basic::unambiguous_tree;
use crate::laws::basic::unambiguous_trees;
use crate::laws::basic::without_attributes;
use crate::laws::basic::written;
use crate::laws::emitted::bears;
use crate::laws::emitted::has_first;
use crate::laws::emitted::lemma_has_first;
use crate::laws::near::nearly_children;
use crate::laws::near::nearly_reflects;
use crate::laws::proper::all_proper;
use crate::laws::proper::tidy;
use crate::laws::right::right_children;
use crate::laws::right::right_tree;
use crate::laws::turn::lemma_children;
use crate::laws::turn::lemma_node;
use crate::laws::turn::refilled;
use crate::laws::turn::renewed;
use crate::slots::slots;
use crate::slots::slots_children;
use crate::steps::attr_steps;
use crate::steps::can_diff;
use crate::steps::can_diff_children;
use crate::steps::children_steps;
use crate::steps::has_name;
use crate::steps::needs_set;
use crate::steps::node_steps;
use crate::vnode::Attribute;
use crate::vnode::VNode;
use vstd::prelude::*;

verus! {

broadcast use {lemma_follow_empty, lemma_follow_push, lemma_follow_add};

proof fn lemma_unambiguous_init(attrs: Seq<Attribute>)
    requires
        unambiguous(attrs),
        attrs.len() > 0,
    ensures
        unambiguous(attrs.drop_last()),
{
    let init = attrs.drop_last();
    assert forall|x: int, y: int|
        0 <= x < init.len() && 0 <= y < init.len() && (#[trigger] init[x]).name@ == (
        #[trigger] init[y]).name@ implies init[x].value@ == init[y].value@ by {
        assert(attrs[x].name@ == attrs[y].name@);
    }
}

proof fn lemma_written_at(
    a: Map<Seq<char>, Seq<char>>,
    old: Seq<Attribute>,
    new: Seq<Attribute>,
    i: int,
)
    requires
        unambiguous(new),
        0 <= i < new.len(),
        needs_set(old, new[i]),
    ensures
        written(a, old, new).contains_key(new[i].name@),
        written(a, old, new)[new[i].name@] == new[i].value@,
    decreases new.len(),
{
    let init = new.drop_last();
    if i < init.len() {
        lemma_unambiguous_init(new);
        lemma_written_at(a, old, init, i);
        if new.last().name@ == new[i].name@ {
            assert(new[new.len() - 1].value@ == new[i].value@);
        }
    }
}

proof fn lemma_not_written(
    a: Map<Seq<char>, Seq<char>>,
    old: Seq<Attribute>,
    new: Seq<Attribute>,
    k: Seq<char>,
)
    requires
        !has_name(new, k),
    ensures
        written(a, old, new).contains_key(k) == a.contains_key(k),
        written(a, old, new)[k] == a[k],
    decreases new.len(),
{
    if new.len() > 0 {
        lemma_has_name_last(new, k);
        lemma_not_written(a, old, new.drop_last(), k);
    }
}

/// Whatever attributes a node has, after `diff_attr` it has the new value of
/// every volatile attribute, and of every one that the first old attribute of its
/// name does not give it. It has none of the old attributes whose name no new one
/// has. Those whose name neither an old nor a new one has are as they were, and
/// nothing else has changed.
pub proof fn law_diff_attr_from_any<'a>(
    m: Machine,
    olds: Seq<Attribute<'a>>,
    news: Seq<Attribute<'a>>,
    is_namespaced: bool,
) -> (after: Machine)
    requires
        on_element(m),
        unambiguous(news),
    ensures
        m.follow(attr_steps(olds, news, is_namespaced)) == Some(after),
        after == relabeled(m, after.focus().label->attributes, m.focus().label->listeners),
        forall|i: int|
            0 <= i < news.len() && ((#[trigger] news[i]).volatile || !has_first(
                olds,
                news[i].name@,
                news[i].value@,
            )) ==> after.focus().label->attributes.contains_key(news[i].name@)
                && after.focus().label->attributes[news[i].name@] == news[i].value@,
        forall|k: Seq<char>| #[trigger]
            bears(olds, k) && !bears(news, k) ==> !after.focus().label->attributes.contains_key(k),
        forall|k: Seq<char>|
            !bears(olds, k) && !bears(news, k) ==> (
            #[trigger] after.focus().label->attributes.contains_key(k)
                == m.focus().label->attributes.contains_key(k))
                && after.focus().label->attributes[k] == m.focus().label->attributes[k],
{
    let a = m.focus().label->attributes;
    let l = m.focus().label->listeners;
    let a1 = written(a, olds, news);
    let a2 = without_attributes(a1, olds, news);
    let after = relabeled(m, a2, l);
    lemma_written(m, olds, news, is_namespaced);
    lemma_relabeled(m, a1, l, a2, l);
    lemma_relabeled(m, a2, l, a2, l);
    lemma_drop_attrs(relabeled(m, a1, l), olds, news);
    assert forall|k: Seq<char>| #[trigger] bears(olds, k) == has_name(olds, k) by {}
    assert forall|k: Seq<char>| #[trigger] bears(news, k) == has_name(news, k) by {}
    assert forall|i: int|
        0 <= i < news.len() && ((#[trigger] news[i]).volatile || !has_first(
            olds,
            news[i].name@,
            news[i].value@,
        )) implies a2.contains_key(news[i].name@) && a2[news[i].name@] == news[i].value@ by {
        lemma_has_first(olds, news[i].name@, news[i].value@);
        lemma_written_at(a, olds, news, i);
        assert(has_name(news, news[i].name@));
        lemma_without_attributes_at(a1, olds, news, news[i].name@);
    }
    assert forall|k: Seq<char>| #[trigger] bears(olds, k) && !bears(news, k) implies !a2.contains_key(
        k,
    ) by {
        lemma_without_attributes_at(a1, olds, news, k);
    }
    assert forall|k: Seq<char>| !bears(olds, k) && !bears(news, k) implies (
    #[trigger] a2.contains_key(k) == a.contains_key(k)) && a2[k] == a[k] by {
        lemma_not_written(a, olds, news, k);
        lemma_without_attributes_at(a1, olds, news, k);
        lemma_untouched(a1, olds, news, k);
    }
    after
}

proof fn lemma_untouched(
    a: Map<Seq<char>, Seq<char>>,
    old: Seq<Attribute>,
    new: Seq<Attribute>,
    k: Seq<char>,
)
    requires
        !has_name(old, k),
    ensures
        without_attributes(a, old, new)[k] == a[k],
    decreases old.len(),
{
    if old.len() > 0 {
        lemma_has_name_last(old, k);
        lemma_untouched(a, old.drop_last(), new, k);
    }
}

/// Whatever the volatile attributes of the new tree have become on the physical
/// nodes, at any depth, after `diff_node` the physical tree reflects the new
/// tree, wherever that can be had. All else is as after a diff of a tree that has
/// not changed behind the virtual tree's back.
pub proof fn law_diff_node_resets_volatile<'a>(
    m: Machine,
    old: VNode<'a>,
    new: VNode<'a>,
    t: nat,
) -> (after: Machine)
    requires
        m.loose.len() == 0,
        nearly_reflects(m.top, old, new),
        identified(m.top, m.fresh),
        can_diff(old, new),
        t + slots(old, new) <= u32::MAX,
    ensures
        m.follow(node_steps(old, new, t)) == Some(after),
        after.frames == m.frames,
        after.loose.len() == 0,
        unambiguous_tree(old) && unambiguous_tree(new) && clean(new) ==> reflects(after.top, new),
        right_tree(m.top, after.top, old, new, m.fresh),
        tidy(old) && tidy(new) ==> all_proper(m, node_steps(old, new, t)),
{
    reveal(renewed);
    let after = lemma_node(m, old, new, t);
    if unambiguous_tree(old) && unambiguous_tree(new) && clean(new) {
        lemma_shows(old, new);
    }
    after
}

/// Like `law_diff_node_resets_volatile`, for `diff_children`.
pub proof fn law_diff_children_resets_volatile<'a>(
    m: Machine,
    olds: Seq<VNode<'a>>,
    news: Seq<VNode<'a>>,
    t: nat,
) -> (after: Machine)
    requires
        m.loose.len() == 0,
        m.top.label is Element,
        olds.len() <= usize::MAX,
        news.len() <= usize::MAX,
        nearly_children(m.top.children, olds, news),
        identified_all(m.top.children, m.fresh),
        can_diff_children(olds, news),
        t + slots_children(olds, news) <= u32::MAX,
    ensures
        m.follow(children_steps(olds, news, t)) == Some(after),
        refilled(m, after, t),
        unambiguous_trees(olds) && unambiguous_trees(news) && clean_all(news) ==> reflects_all(
            after.top.children,
            news,
        ),
        right_children(olds, news, m.top.children, after.top.children, m.fresh),
{
    if unambiguous_trees(olds) && unambiguous_trees(news) && clean_all(news) {
        lemma_shows_children(olds, news);
    }
    lemma_children(m, olds, news, t)
}

} // verus!
