//! What the instructions do that the diffing machine emits, when a stack
//! machine runs them on a physical tree.
//!
//! Each law speaks of a change list in the state `s` and of a machine that
//! starts as `origin` and is in the state `m` once it has run the stream of
//! `s`. What is then emitted takes it from `m` to `after`.
use crate::changelist::Edit;
use crate::changelist::ListState;
use crate::changelist::Move;
use crate::changelist::Step;
use crate::dom::Frame;
use crate::dom::Machine;
use crate::dom::PNode;
use crate::dom::attribute_map;
use crate::dom::identified;
use crate::dom::identified_all;
use crate::dom::instructions;
use crate::dom::lemma_follow_add;
use crate::dom::lemma_follow_empty;
use crate::dom::lemma_follow_push;
use crate::dom::lemma_run_add;
use crate::dom::lemma_stream;
use crate::dom::listener_map;
use crate::dom::reflects;
use crate::dom::reflects_all;
use crate::keys::has_key;
use crate::keys::shared_prefix;
use crate::laws::basic::appended;
use crate::laws::basic::clean;
use crate::laws::basic::clean_all;
use crate::laws::basic::created;
use crate::laws::basic::diffed_attributes;
use crate::laws::basic::lemma_append;
use crate::laws::basic::lemma_attrs;
use crate::laws::basic::lemma_create;
use crate::laws::basic::lemma_diffed_attributes;
use crate::laws::basic::lemma_listeners;
use crate::laws::basic::lemma_settles;
use crate::laws::basic::lemma_shown_at;
use crate::laws::basic::lemma_shows;
use crate::laws::basic::lemma_shows_by_key;
use crate::laws::basic::lemma_shows_children;
use crate::laws::basic::lemma_shows_in_order;
use crate::laws::basic::on_element;
use crate::laws::basic::relabeled;
use crate::laws::basic::settles;
use crate::laws::basic::shown_at;
use crate::laws::basic::shows;
use crate::laws::basic::shows_by_key;
use crate::laws::basic::shows_children;
use crate::laws::basic::shows_in_order;
use crate::laws::basic::unambiguous;
use crate::laws::basic::unambiguous_tree;
use crate::laws::basic::unambiguous_trees;
use crate::laws::near::lemma_nearly_children;
use crate::laws::near::lemma_nearly_reflects;
use crate::laws::near::nearly_reflects;
use crate::laws::position::inside;
use crate::laws::position::lemma_cut;
use crate::laws::position::outside;
use crate::laws::position::same_below;
use crate::laws::proper::all_proper;
use crate::laws::proper::neat;
use crate::laws::proper::tidy;
use crate::laws::right::lemma_right_tree;
use crate::laws::right::reuses;
use crate::laws::right::reuses_in_order;
use crate::laws::right::right_children;
use crate::laws::right::right_node;
use crate::laws::right::right_tree;
use crate::laws::right::same_kind;
use crate::laws::turn::Scene;
use crate::laws::turn::lemma_can_turn;
use crate::laws::turn::lemma_children;
use crate::laws::turn::lemma_feasible;
use crate::laws::turn::lemma_in_order;
use crate::laws::turn::lemma_keyed;
use crate::laws::turn::lemma_middle;
use crate::laws::turn::lemma_node;
use crate::laws::turn::lemma_plan_feasible;
use crate::laws::turn::lemma_prefix;
use crate::laws::turn::lemma_prefix_near;
use crate::laws::turn::lemma_suffix;
use crate::laws::turn::middle_plan;
use crate::laws::turn::prefix_renewed;
use crate::laws::turn::refilled;
use crate::laws::turn::renewed;
use crate::laws::turn::rest_created;
use crate::laws::turn::turned;
use crate::slots::shorter;
use crate::slots::slots;
use crate::slots::slots_children;
use crate::slots::slots_keyed;
use crate::slots::slots_middle;
use crate::slots::slots_walk;
use crate::steps::append_steps;
use crate::steps::attr_steps;
use crate::steps::can_diff;
use crate::steps::can_diff_children;
use crate::steps::can_diff_in_order;
use crate::steps::can_diff_keyed;
use crate::steps::children_steps;
use crate::steps::clear_steps;
use crate::steps::create_steps;
use crate::steps::cut_steps;
use crate::steps::in_order_steps;
use crate::steps::keyed_steps;
use crate::steps::listener_steps;
use crate::steps::middle_steps;
use crate::steps::node_steps;
use crate::steps::prefix_steps;
use crate::steps::suffix_steps;
use crate::vnode::Attribute;
use crate::vnode::Listener;
use crate::vnode::VNode;
use crate::vnode::renderable;
use crate::vnode::renderable_all;
use vstd::prelude::*;

pub mod basic;
pub mod emitted;
pub mod fewest;
pub mod fits;
pub mod moves;
pub mod near;
pub mod order;
pub mod placed;
pub mod position;
pub mod proper;
pub mod ready;
pub mod right;
pub mod turn;
pub mod volatile;

verus! {

broadcast use {lemma_follow_empty, lemma_follow_push};

/// What is emitted comes after what was emitted before, of which nothing is
/// changed.
pub proof fn law_batched<'a>(s: ListState<'a>, steps: Seq<Step<'a>>)
    ensures
        s.perform(steps).stream == s.stream + instructions(steps),
{
    lemma_stream(s, steps);
}

proof fn lemma_emitted<'a>(
    s: ListState<'a>,
    origin: Machine,
    m: Machine,
    steps: Seq<Step<'a>>,
    after: Machine,
)
    requires
        origin.run(s.stream) == Some(m),
        m.follow(steps) == Some(after),
    ensures
        origin.run(s.perform(steps).stream) == Some(after),
{
    reveal(Machine::follow);
    lemma_stream(s, steps);
    lemma_run_add(origin, s.stream, instructions(steps));
}

/// `diff_node` emits instructions that modify the physical node on top of the
/// stack, which reflects `old`, into something that reflects `new`, wherever
/// that can be had: wherever no element has two values for one attribute, and
/// none gets an empty text for its only child. The stack is in the same state
/// before and after. The physical node is the same one where both nodes are of
/// one kind, and a new one otherwise, and so are the nodes beneath it, by key or
/// in order. Where no element has two listeners for one event or two attributes
/// of one name, each instruction fits the node that it is for.
pub proof fn law_diff_node<'a>(
    s: ListState<'a>,
    origin: Machine,
    m: Machine,
    old: VNode<'a>,
    new: VNode<'a>,
) -> (after: Machine)
    requires
        origin.run(s.stream) == Some(m),
        m.loose.len() == 0,
        reflects(m.top, old),
        identified(m.top, m.fresh),
        can_diff(old, new),
        s.next_temporary + slots(old, new) <= u32::MAX,
    ensures
        origin.run(s.perform(node_steps(old, new, s.next_temporary)).stream) == Some(after),
        turned(m, after, old, new, s.next_temporary),
        after.frames == m.frames,
        after.loose.len() == 0,
        shows(old, new) ==> reflects(after.top, new),
        unambiguous_tree(old) && unambiguous_tree(new) && clean(new) ==> reflects(after.top, new),
        right_node(m.top, after.top, old, new, m.fresh),
        right_tree(m.top, after.top, old, new, m.fresh),
        tidy(old) && tidy(new) ==> all_proper(m, node_steps(old, new, s.next_temporary)),
        old is Element && new is Element && same_kind(old, new) ==> right_children(
            old->Element_0.children@,
            new->Element_0.children@,
            m.top.children,
            after.top.children,
            m.fresh,
        ),
{
    reveal(renewed);
    lemma_nearly_reflects(m.top, old, new);
    let after = lemma_node(m, old, new, s.next_temporary);
    lemma_emitted(s, origin, m, node_steps(old, new, s.next_temporary), after);
    lemma_right_tree(m.top, after.top, old, new, m.fresh);
    if unambiguous_tree(old) && unambiguous_tree(new) && clean(new) {
        lemma_shows(old, new);
    }
    after
}

/// `diff_listeners` turns the old listeners of the node on top of the stack
/// into the new ones, and leaves everything else unchanged.
pub proof fn law_diff_listeners<'a>(
    s: ListState<'a>,
    origin: Machine,
    m: Machine,
    olds: Seq<Listener<'a>>,
    news: Seq<Listener<'a>>,
)
    requires
        origin.run(s.stream) == Some(m),
        on_element(m),
        m.focus().label->listeners == listener_map(olds),
    ensures
        origin.run(s.perform(listener_steps(olds, news)).stream) == Some(
            relabeled(m, m.focus().label->attributes, listener_map(news)),
        ),
{
    lemma_listeners(m, olds, news);
    lemma_emitted(
        s,
        origin,
        m,
        listener_steps(olds, news),
        relabeled(m, m.focus().label->attributes, listener_map(news)),
    );
}

/// `diff_attr` turns the old attributes of the node on top of the stack into
/// the new ones, if they settle, and leaves everything else unchanged.
pub proof fn law_diff_attr<'a>(
    s: ListState<'a>,
    origin: Machine,
    m: Machine,
    olds: Seq<Attribute<'a>>,
    news: Seq<Attribute<'a>>,
    is_namespaced: bool,
)
    requires
        origin.run(s.stream) == Some(m),
        on_element(m),
        m.focus().label->attributes == attribute_map(olds),
    ensures
        origin.run(s.perform(attr_steps(olds, news, is_namespaced)).stream) == Some(
            relabeled(m, diffed_attributes(olds, news), m.focus().label->listeners),
        ),
        settles(olds, news) ==> diffed_attributes(olds, news) == attribute_map(news),
        unambiguous(olds) && unambiguous(news) ==> diffed_attributes(olds, news) == attribute_map(
            news,
        ),
{
    lemma_attrs(m, olds, news, is_namespaced);
    if unambiguous(olds) && unambiguous(news) {
        lemma_settles(olds, news);
    }
    if settles(olds, news) {
        lemma_diffed_attributes(olds, news);
    }
    lemma_emitted(
        s,
        origin,
        m,
        attr_steps(olds, news, is_namespaced),
        relabeled(m, diffed_attributes(olds, news), m.focus().label->listeners),
    );
}

/// `diff_children` turns the children of the node on top of the stack, which
/// reflect `olds`, into children that reflect `news`, wherever that can be had.
/// The stack is in the same state before and after. Where the children have
/// keys, the keys tell which physical nodes are reused.
pub proof fn law_diff_children<'a>(
    s: ListState<'a>,
    origin: Machine,
    m: Machine,
    olds: Seq<VNode<'a>>,
    news: Seq<VNode<'a>>,
) -> (after: Machine)
    requires
        origin.run(s.stream) == Some(m),
        m.loose.len() == 0,
        m.top.label is Element,
        olds.len() <= usize::MAX,
        news.len() <= usize::MAX,
        reflects_all(m.top.children, olds),
        identified_all(m.top.children, m.fresh),
        can_diff_children(olds, news),
        s.next_temporary + slots_children(olds, news) <= u32::MAX,
    ensures
        origin.run(s.perform(children_steps(olds, news, s.next_temporary)).stream) == Some(after),
        refilled(m, after, s.next_temporary),
        shows_children(olds, news) ==> reflects_all(after.top.children, news),
        olds.len() > 0 && news.len() > 0 && olds[0].key() is Some && news[0].key() is Some
            ==> reuses(olds, news, m.top.children, after.top.children, m.fresh),
        right_children(olds, news, m.top.children, after.top.children, m.fresh),
        neat(olds, news) ==> all_proper(m, children_steps(olds, news, s.next_temporary)),
        unambiguous_trees(olds) && unambiguous_trees(news) && clean_all(news) ==> reflects_all(
            after.top.children,
            news,
        ),
{
    if unambiguous_trees(olds) && unambiguous_trees(news) && clean_all(news) {
        lemma_shows_children(olds, news);
    }
    lemma_nearly_children(m.top.children, olds, news);
    let after = lemma_children(m, olds, news, s.next_temporary);
    lemma_emitted(s, origin, m, children_steps(olds, news, s.next_temporary), after);
    after
}

/// `diff_non_keyed_children` turns the children of the node on top of the
/// stack, which reflect `olds`, into children that reflect `news`, wherever that
/// can be had. The stack is in the same state before and after.
pub proof fn law_diff_non_keyed_children<'a>(
    s: ListState<'a>,
    origin: Machine,
    m: Machine,
    olds: Seq<VNode<'a>>,
    news: Seq<VNode<'a>>,
) -> (after: Machine)
    requires
        origin.run(s.stream) == Some(m),
        m.loose.len() == 0,
        0 < olds.len() <= usize::MAX,
        news.len() > 0,
        reflects_all(m.top.children, olds),
        identified_all(m.top.children, m.fresh),
        can_diff_in_order(olds, news),
        s.next_temporary + slots_walk(olds, news, shorter(olds, news)) <= u32::MAX,
    ensures
        origin.run(s.perform(in_order_steps(olds, news, s.next_temporary)).stream) == Some(after),
        refilled(m, after, s.next_temporary),
        after.top.children.len() == news.len(),
        shows_in_order(olds, news) ==> reflects_all(after.top.children, news),
        unambiguous_trees(olds) && unambiguous_trees(news) && (forall|i: int|
            0 <= i < news.len() ==> clean(#[trigger] news[i])) ==> reflects_all(
            after.top.children,
            news,
        ),
        reuses_in_order(olds, news, m.top.children, after.top.children, m.fresh),
        neat(olds, news) ==> all_proper(m, in_order_steps(olds, news, s.next_temporary)),
{
    if unambiguous_trees(olds) && unambiguous_trees(news) && (forall|i: int|
        0 <= i < news.len() ==> clean(#[trigger] news[i])) {
        lemma_shows_in_order(olds, news);
    }
    lemma_nearly_children(m.top.children, olds, news);
    let after = lemma_in_order(m, olds, news, s.next_temporary);
    lemma_emitted(s, origin, m, in_order_steps(olds, news, s.next_temporary), after);
    after
}

/// `diff_keyed_children` turns the children of the node on top of the stack,
/// which reflect `olds`, into children that reflect `news`, wherever that can be
/// had. The stack is in the same state before and after. The keys tell which
/// physical nodes are reused: a new node whose key an old node has gets the
/// physical node of that one, if it can be kept, and a new node with a fresh key
/// gets a new physical node.
pub proof fn law_diff_keyed_children<'a>(
    s: ListState<'a>,
    origin: Machine,
    m: Machine,
    olds: Seq<VNode<'a>>,
    news: Seq<VNode<'a>>,
) -> (after: Machine)
    requires
        origin.run(s.stream) == Some(m),
        m.loose.len() == 0,
        m.top.label is Element,
        0 < olds.len() <= usize::MAX,
        news.len() <= usize::MAX,
        reflects_all(m.top.children, olds),
        identified_all(m.top.children, m.fresh),
        can_diff_keyed(olds, news),
        s.next_temporary + slots_keyed(olds, news) <= u32::MAX,
    ensures
        origin.run(s.perform(keyed_steps(olds, news, s.next_temporary)).stream) == Some(after),
        refilled(m, after, s.next_temporary),
        after.top.children.len() == news.len(),
        shows_by_key(olds, news) ==> reflects_all(after.top.children, news),
        unambiguous_trees(olds) && unambiguous_trees(news) && (forall|i: int|
            0 <= i < news.len() ==> clean(#[trigger] news[i])) ==> reflects_all(
            after.top.children,
            news,
        ),
        reuses(olds, news, m.top.children, after.top.children, m.fresh),
        neat(olds, news) ==> all_proper(m, keyed_steps(olds, news, s.next_temporary)),
{
    if unambiguous_trees(olds) && unambiguous_trees(news) && (forall|i: int|
        0 <= i < news.len() ==> clean(#[trigger] news[i])) {
        lemma_shows_by_key(olds, news);
    }
    lemma_can_turn(olds, news);
    lemma_nearly_children(m.top.children, olds, news);
    let after = lemma_keyed(m, olds, news, s.next_temporary);
    lemma_emitted(s, origin, m, keyed_steps(olds, news, s.next_temporary), after);
    after
}

/// `diff_keyed_prefix` turns the physical nodes of the shared prefix. Where the
/// prefix is all of the old nodes, the rest of the new ones is appended; where
/// it is all of the new nodes, the rest of the old ones is removed; otherwise
/// the rest is left as it is. The stack is in the same state before and after.
pub proof fn law_diff_keyed_prefix<'a>(
    s: ListState<'a>,
    origin: Machine,
    m: Machine,
    olds: Seq<VNode<'a>>,
    news: Seq<VNode<'a>>,
) -> (after: Machine)
    requires
        origin.run(s.stream) == Some(m),
        m.loose.len() == 0,
        0 < olds.len() <= usize::MAX,
        reflects_all(m.top.children, olds),
        identified_all(m.top.children, m.fresh),
        forall|i: int|
            0 <= i < shared_prefix(olds, news) ==> can_diff(#[trigger] olds[i], news[i]),
        shared_prefix(olds, news) == olds.len() ==> forall|i: int|
            olds.len() <= i < news.len() ==> renderable(#[trigger] news[i]),
        s.next_temporary + slots_walk(olds, news, shared_prefix(olds, news)) <= u32::MAX,
    ensures
        origin.run(s.perform(prefix_steps(olds, news, s.next_temporary)).stream) == Some(after),
        outside(after, m.frames, m.top, after.top.children),
        m.fresh <= after.fresh,
        same_below(m.temps, after.temps, s.next_temporary),
        ({
            let p = shared_prefix(olds, news);
            let kids = after.top.children;
            &&& prefix_renewed(m.top.children, kids, olds, news, p, m.fresh)
            &&& if p == olds.len() {
                kids.len() == news.len() && rest_created(kids, news, p, m.fresh)
            } else if p == news.len() {
                kids.len() == news.len()
            } else {
                kids.len() == olds.len() && forall|i: int|
                    p <= i < olds.len() ==> #[trigger] kids[i] == m.top.children[i]
            }
        }),
        forall|i: int|
            0 <= i < shared_prefix(olds, news) ==> right_tree(
                m.top.children[i],
                after.top.children[i],
                olds[i],
                #[trigger] news[i],
                m.fresh,
            ) && (unambiguous_tree(olds[i]) && unambiguous_tree(news[i]) && clean(news[i])
                ==> reflects(after.top.children[i], news[i])),
{
    lemma_nearly_children(m.top.children, olds, news);
    lemma_prefix_near(m.top.children, olds, news);
    let (after, kids) = lemma_prefix(m, olds, news, s.next_temporary);
    lemma_emitted(s, origin, m, prefix_steps(olds, news, s.next_temporary), after);
    reveal(prefix_renewed);
    reveal(renewed);
    assert forall|i: int| 0 <= i < shared_prefix(olds, news) implies right_tree(
        m.top.children[i],
        kids[i],
        olds[i],
        #[trigger] news[i],
        m.fresh,
    ) && (unambiguous_tree(olds[i]) && unambiguous_tree(news[i]) && clean(news[i]) ==> reflects(
        kids[i],
        news[i],
    )) by {
        assert(renewed(m.top.children[i], kids[i], olds[i], news[i], m.fresh));
        if unambiguous_tree(olds[i]) && unambiguous_tree(news[i]) && clean(news[i]) {
            lemma_shows(olds[i], news[i]);
        }
    }
    after
}

/// `diff_keyed_middle` turns the physical nodes between those of the shared
/// prefix and those of the shared suffix, which reflect `olds`, into nodes that
/// reflect `news`, wherever that can be had. It leaves those around them as they
/// are, and the stack is in the same state before and after.
pub proof fn law_diff_keyed_middle<'a>(
    s: ListState<'a>,
    origin: Machine,
    m: Machine,
    pre: Seq<PNode>,
    mid: Seq<PNode>,
    suf: Seq<PNode>,
    olds: Seq<VNode<'a>>,
    news: Seq<VNode<'a>>,
) -> (r: (Machine, Seq<PNode>))
    requires
        origin.run(s.stream) == Some(m),
        m.loose.len() == 0,
        m.top.label is Element,
        m.top.children == pre + mid + suf,
        m.top.children.len() <= usize::MAX,
        reflects_all(mid, olds),
        identified_all(m.top.children, m.fresh),
        can_diff_keyed(olds, news),
        olds.len() <= u32::MAX,
        news.len() < u32::MAX,
        suf.len() == 0 && pre.len() > 0 ==> olds.len() > 0,
        s.next_temporary + slots_middle(olds, news) <= u32::MAX,
    ensures
        origin.run(
            s.perform(
                middle_steps(
                    olds,
                    news,
                    pre.len() as int,
                    suf.len() as int,
                    (pre.len() + olds.len()) as int,
                    s.next_temporary,
                ),
            ).stream,
        ) == Some(r.0),
        outside(r.0, m.frames, m.top, pre + r.1 + suf),
        m.fresh <= r.0.fresh,
        same_below(m.temps, r.0.temps, s.next_temporary),
        r.1.len() == news.len(),
        shows_by_key(olds, news) ==> reflects_all(r.1, news),
        unambiguous_trees(olds) && unambiguous_trees(news) && (forall|i: int|
            0 <= i < news.len() ==> clean(#[trigger] news[i])) ==> reflects_all(r.1, news),
        reuses(olds, news, mid, r.1, m.fresh),
{
    if unambiguous_trees(olds) && unambiguous_trees(news) && (forall|i: int|
        0 <= i < news.len() ==> clean(#[trigger] news[i])) {
        lemma_shows_by_key(olds, news);
    }
    let t = s.next_temporary;
    let sc = Scene { base: m.frames, parent: m.top, pre, suf, t };
    let plan = middle_plan(olds, news, mid, m.fresh);
    lemma_can_turn(olds, news);
    lemma_nearly_children(mid, olds, news);
    lemma_plan_feasible(olds, news, mid, m.fresh, t);
    let (after, mid2) = lemma_middle(m, sc, mid, olds, news);
    lemma_emitted(
        s,
        origin,
        m,
        middle_steps(
            olds,
            news,
            pre.len() as int,
            suf.len() as int,
            (pre.len() + olds.len()) as int,
            t,
        ),
        after,
    );
    lemma_feasible(plan, t);
    plan.lemma_pairs();
    if shows_by_key(olds, news) {
        lemma_shown_at(olds, news);
        assert forall|j: int| 0 <= j < news.len() implies reflects(mid2[j], #[trigger] news[j]) by {
            assert(shown_at(olds, news, j));
            assert(plan.good(j, mid2[j]));
        }
    }
    assert forall|i: int, j: int|
        #![trigger olds[i], news[j]]
        0 <= i < olds.len() && 0 <= j < news.len() && olds[i].key() == news[j].key() implies right_node(
        mid[i],
        mid2[j],
        olds[i],
        news[j],
        m.fresh,
    ) && right_tree(mid[i], mid2[j], olds[i], news[j], m.fresh) by {
        assert(plan.good(j, mid2[j]));
        assert(plan.pair(i, j));
    }
    assert forall|j: int|
        0 <= j < news.len() && !has_key(
            olds,
            (#[trigger] news[j]).key(),
        ) implies m.fresh <= mid2[j].id by {
        assert(plan.good(j, mid2[j]));
        assert forall|i: int| !#[trigger] plan.pair(i, j) by {
            if plan.pair(i, j) {
                assert(has_key(olds, news[j].key()));
            }
        }
    }
    (after, mid2)
}

/// `diff_keyed_suffix` turns the physical nodes from `from` on, which reflect
/// `olds`, into nodes that reflect `news`, wherever that can be had. It leaves
/// those before them as they are, and the stack is in the same state before and
/// after.
pub proof fn law_diff_keyed_suffix<'a>(
    s: ListState<'a>,
    origin: Machine,
    m: Machine,
    olds: Seq<VNode<'a>>,
    news: Seq<VNode<'a>>,
    from: int,
) -> (after: Machine)
    requires
        origin.run(s.stream) == Some(m),
        m.loose.len() == 0,
        identified_all(m.top.children, m.fresh),
        0 <= from,
        olds.len() == news.len(),
        olds.len() > 0,
        from + olds.len() == m.top.children.len(),
        from + olds.len() <= usize::MAX,
        reflects_all(m.top.children.skip(from), olds),
        forall|i: int| 0 <= i < olds.len() ==> can_diff(#[trigger] olds[i], news[i]),
        s.next_temporary + slots_walk(olds, news, olds.len() as int) <= u32::MAX,
    ensures
        origin.run(s.perform(suffix_steps(olds, news, from, s.next_temporary)).stream) == Some(
            after,
        ),
        outside(after, m.frames, m.top, after.top.children),
        m.fresh <= after.fresh,
        same_below(m.temps, after.temps, s.next_temporary),
        after.top.children.take(from) == m.top.children.take(from),
        after.top.children.len() == m.top.children.len(),
        forall|i: int|
            0 <= i < olds.len() ==> renewed(
                m.top.children[from + i],
                after.top.children[from + i],
                olds[i],
                #[trigger] news[i],
                m.fresh,
            ),
        forall|i: int|
            0 <= i < olds.len() ==> right_tree(
                m.top.children[from + i],
                after.top.children[from + i],
                olds[i],
                #[trigger] news[i],
                m.fresh,
            ) && (unambiguous_tree(olds[i]) && unambiguous_tree(news[i]) && clean(news[i])
                ==> reflects(after.top.children[from + i], news[i])),
{
    let kids = m.top.children;
    assert forall|i: int| 0 <= i < olds.len() implies reflects(kids[from + i], #[trigger] olds[i])
        && can_diff(olds[i], news[i]) by {
        assert(kids.skip(from)[i] == kids[from + i]);
    }
    assert forall|i: int| 0 <= i < olds.len() implies nearly_reflects(
        kids[from + i],
        #[trigger] olds[i],
        news[i],
    ) by {
        lemma_nearly_reflects(kids[from + i], olds[i], news[i]);
    }
    let (after, kids2) = lemma_suffix(
        m,
        m.frames,
        m.top,
        kids,
        olds,
        news,
        from,
        s.next_temporary,
    );
    lemma_emitted(s, origin, m, suffix_steps(olds, news, from, s.next_temporary), after);
    assert(kids2.take(from) =~= kids.take(from));
    reveal(renewed);
    assert forall|i: int| 0 <= i < olds.len() implies right_tree(
        kids[from + i],
        kids2[from + i],
        olds[i],
        #[trigger] news[i],
        m.fresh,
    ) && (unambiguous_tree(olds[i]) && unambiguous_tree(news[i]) && clean(news[i]) ==> reflects(
        kids2[from + i],
        news[i],
    )) by {
        assert(renewed(kids[from + i], kids2[from + i], olds[i], news[i], m.fresh));
        if unambiguous_tree(olds[i]) && unambiguous_tree(news[i]) && clean(news[i]) {
            lemma_shows(olds[i], news[i]);
        }
    }
    after
}

/// `create` leaves a new node on top of the stack, whatever was on the stack.
/// It reflects `node` if that is clean.
pub proof fn law_create<'a>(
    s: ListState<'a>,
    origin: Machine,
    m: Machine,
    node: VNode<'a>,
) -> (after: Machine)
    requires
        origin.run(s.stream) == Some(m),
        renderable(node),
    ensures
        origin.run(s.perform(create_steps(node)).stream) == Some(after),
        created(m, after, node),
{
    lemma_create(m, node);
    let after = m.follow(create_steps(node))->0;
    lemma_emitted(s, origin, m, create_steps(node), after);
    after
}

/// `create_and_append_children` appends a new node for each of `news`, which
/// reflects that if it is clean, to the children of the node on top of the
/// stack, and changes nothing else.
pub proof fn law_create_and_append_children<'a>(
    s: ListState<'a>,
    origin: Machine,
    m: Machine,
    news: Seq<VNode<'a>>,
) -> (after: Machine)
    requires
        origin.run(s.stream) == Some(m),
        m.has_focus(),
        renderable_all(news),
    ensures
        origin.run(s.perform(append_steps(news)).stream) == Some(after),
        appended(m, after, news),
{
    lemma_append(m, news);
    let after = m.follow(append_steps(news))->0;
    lemma_emitted(s, origin, m, append_steps(news), after);
    after
}

/// `remove_all_children` leaves the node on top of the stack without children,
/// and changes nothing else.
pub proof fn law_remove_all_children<'a>(s: ListState<'a>, origin: Machine, m: Machine)
    requires
        origin.run(s.stream) == Some(m),
        on_element(m),
    ensures
        origin.run(s.perform(clear_steps()).stream) == Some(
            m.with_focus(PNode { children: Seq::empty(), ..m.focus() }),
        ),
{
    reveal_strlit("");
    assert(""@ =~= Seq::<char>::empty());
    lemma_emitted(
        s,
        origin,
        m,
        clear_steps(),
        m.with_focus(PNode { children: Seq::empty(), ..m.focus() }),
    );
}

/// `remove_self_and_next_siblings` takes the child on top of the stack and its
/// next siblings away from the parent, which is then on top of the stack.
pub proof fn law_remove_self_and_next_siblings<'a>(
    s: ListState<'a>,
    origin: Machine,
    m: Machine,
    base: Seq<Frame>,
    parent: PNode,
    i: int,
) -> (after: Machine)
    requires
        origin.run(s.stream) == Some(m),
        inside(m, base, parent, parent.children, i),
    ensures
        origin.run(s.perform(cut_steps()).stream) == Some(after),
        outside(after, base, parent, parent.children.take(i)),
        after.temps == m.temps,
        after.fresh == m.fresh,
{
    lemma_cut(m, base, parent, parent.children, i);
    let after = m.remove_self_and_next_siblings()->0;
    lemma_emitted(s, origin, m, cut_steps(), after);
    after
}

/// A move is kept back, and every other instruction is emitted at once, with
/// those that were kept back before it. To commit emits what is kept back and
/// changes nothing else. Temporaries are in use from when they are saved until
/// the next temporary is set anew.
pub proof fn law_change_list<'a>(s: ListState<'a>, m: Move, e: Edit<'a>, t: nat)
    ensures
        s.apply(Step::Commit) == (ListState { committed: s.stream.len(), ..s }),
        s.apply(Step::Commit).is_committed(),
        s.apply(Step::Temp(t)) == (ListState { next_temporary: t, ..s }),
        s.apply(Step::Do(Edit::Go(m))) == (ListState { stream: s.stream.push(Edit::Go(m)), ..s }),
        !(e is Go) ==> s.apply(Step::Do(e)).stream == s.stream.push(e) && s.apply(
            Step::Do(e),
        ).is_committed(),
        e matches Edit::SaveChildrenToTemporaries { temp, start, end } ==> (start <= end
            ==> s.apply(Step::Do(e)).next_temporary == s.next_temporary + (end - start)),
        !(e is SaveChildrenToTemporaries) ==> s.apply(Step::Do(e)).next_temporary
            == s.next_temporary,
{
}

/// Two diffs on one change list, one after the other, turn the physical node
/// on top of the stack from what reflects `old` into what reflects `new`.
pub proof fn law_diff_node_twice<'a>(
    s: ListState<'a>,
    origin: Machine,
    m: Machine,
    old: VNode<'a>,
    between: VNode<'a>,
    new: VNode<'a>,
) -> (after: Machine)
    requires
        origin.run(s.stream) == Some(m),
        m.loose.len() == 0,
        reflects(m.top, old),
        identified(m.top, m.fresh),
        can_diff(old, between),
        shows(old, between),
        can_diff(between, new),
        s.next_temporary + slots(old, between) <= u32::MAX,
        s.next_temporary + slots(between, new) <= u32::MAX,
    ensures
        origin.run(
            s.perform(
                node_steps(old, between, s.next_temporary) + node_steps(
                    between,
                    new,
                    s.next_temporary,
                ),
            ).stream,
        ) == Some(after),
        after.frames == m.frames,
        after.loose.len() == 0,
        shows(between, new) ==> reflects(after.top, new),
{
    reveal(renewed);
    let t = s.next_temporary;
    lemma_nearly_reflects(m.top, old, between);
    let m1 = lemma_node(m, old, between, t);
    lemma_nearly_reflects(m1.top, between, new);
    let after = lemma_node(m1, between, new, t);
    let steps = node_steps(old, between, t) + node_steps(between, new, t);
    lemma_follow_add(m, node_steps(old, between, t), node_steps(between, new, t));
    lemma_emitted(s, origin, m, steps, after);
    after
}

} // verus!
