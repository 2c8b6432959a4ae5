//! Which instructions are emitted, and how the diffs relate to each other.
use crate::changelist::Edit;
use crate::changelist::Move;
use crate::changelist::Step;
use crate::dom::instructions;
use crate::dom::lemma_instructions_add;
use crate::dom::lemma_instructions_empty;
use crate::dom::lemma_instructions_push;
use crate::keys::lemma_prefix_from;
use crate::keys::lemma_suffix_from;
use crate::keys::shared_prefix;
use crate::keys::shared_suffix;
use crate::laws::right::rewritten;
use crate::laws::right::same_kind;
use crate::laws::right::told_by_key;
use crate::steps::add_attr_steps;
use crate::steps::add_listener_steps;
use crate::steps::append_steps;
use crate::steps::attr_steps;
use crate::steps::children_steps;
use crate::steps::clear_steps;
use crate::steps::create_element_step;
use crate::steps::create_steps;
use crate::steps::cut_steps;
use crate::steps::drop_attr_steps;
use crate::steps::drop_listener_steps;
use crate::steps::first_named;
use crate::steps::go;
use crate::steps::has_name;
use crate::steps::in_order_steps;
use crate::steps::is_sole_text;
use crate::steps::keyed_steps;
use crate::steps::lemma_beyond_prefix_steps;
use crate::steps::lemma_keyed_steps;
use crate::steps::listener_steps;
use crate::steps::listens_to;
use crate::steps::middle_steps;
use crate::steps::node_steps;
use crate::steps::prefix_steps;
use crate::steps::put_listener_steps;
use crate::steps::replace_steps;
use crate::steps::set_attr_steps;
use crate::steps::suffix_steps;
use crate::steps::takes_text;
use crate::steps::temps_end;
use crate::steps::walk_steps;
use crate::vnode::Attribute;
use crate::vnode::Listener;
use crate::vnode::VNode;
use vstd::prelude::*;

verus! {

broadcast use {
    lemma_instructions_empty,
    lemma_instructions_push,
    lemma_instructions_add,
};

// ---------------------------------------------------------------------------
// Listeners
// ---------------------------------------------------------------------------

/// Whether a node with the listeners is told of the event.
pub open spec fn hears(ls: Seq<Listener>, event: Seq<char>) -> bool {
    exists|i: int| 0 <= i < ls.len() && (#[trigger] ls[i]).event@ == event
}

/// `diff_listeners` emits one instruction for each new listener, in order, which
/// updates it where an old listener is for the same event and adds it otherwise.
/// Then it removes, in order, the old listeners whose event no new one is for.
/// Without listeners it leaves moves kept back.
pub proof fn law_diff_listeners_emits<'a>(olds: Seq<Listener<'a>>, news: Seq<Listener<'a>>)
    ensures
        instructions(listener_steps(olds, news)) == Seq::new(
            news.len(),
            |i: int|
                if hears(olds, news[i].event@) {
                    Edit::UpdateEventListener(news[i])
                } else {
                    Edit::NewEventListener(news[i])
                },
        ) + olds.filter(|l: Listener<'a>| !hears(news, l.event@)).map_values(
            |l: Listener<'a>| Edit::RemoveEventListener(l.event),
        ),
        olds.len() == 0 && news.len() == 0 ==> listener_steps(olds, news) == Seq::<
            Step<'a>,
        >::empty(),
{
    let put = put_listener_steps(olds, news);
    let drop = drop_listener_steps(olds, news);
    lemma_instructions_all(put);
    lemma_instructions_all(drop);
    assert forall|e: Seq<char>| hears(olds, e) == listens_to(olds, e) by {
        assert(hears(olds, e) == listens_to(olds, e));
    }
    assert((|l: Listener<'a>| !hears(news, l.event@)) =~= (|l: Listener<'a>|
        !listens_to(news, l.event@)));
    assert(instructions(put) =~= Seq::new(
        news.len(),
        |i: int|
            if hears(olds, news[i].event@) {
                Edit::UpdateEventListener(news[i])
            } else {
                Edit::NewEventListener(news[i])
            },
    ));
    assert(instructions(drop) =~= olds.filter(
        |l: Listener<'a>| !hears(news, l.event@),
    ).map_values(|l: Listener<'a>| Edit::RemoveEventListener(l.event)));
    if olds.len() == 0 && news.len() == 0 {
        reveal(Seq::filter);
        assert(listener_steps(olds, news) =~= Seq::<Step<'a>>::empty());
    }
}

proof fn lemma_instructions_all<'a>(steps: Seq<Step<'a>>)
    requires
        forall|i: int| 0 <= i < steps.len() ==> (#[trigger] steps[i]) is Do,
    ensures
        instructions(steps) == steps.map_values(|s: Step<'a>| s->Do_0),
    decreases steps.len(),
{
    if steps.len() == 0 {
        assert(instructions(steps) =~= steps.map_values(|s: Step<'a>| s->Do_0));
    } else {
        lemma_instructions_all(steps.drop_last());
        assert(instructions(steps) =~= steps.map_values(|s: Step<'a>| s->Do_0));
    }
}

// ---------------------------------------------------------------------------
// Attributes
// ---------------------------------------------------------------------------

/// Whether one of the attributes has the name.
pub open spec fn bears(attrs: Seq<Attribute>, name: Seq<char>) -> bool {
    exists|i: int| 0 <= i < attrs.len() && (#[trigger] attrs[i]).name@ == name
}

/// Whether the first of the attributes with that name, if there is one, has the
/// value.
pub open spec fn has_first(attrs: Seq<Attribute>, name: Seq<char>, value: Seq<char>) -> bool {
    exists|i: int|
        0 <= i < attrs.len() && (#[trigger] attrs[i]).name@ == name && attrs[i].value@ == value
            && !bears(attrs.take(i), name)
}

/// `diff_attr` sets, in order, the new attributes that are volatile and those
/// whose value is not that of the first old attribute of their name. Then it
/// removes, in order, the old attributes whose name no new one has. Where it
/// emits nothing it leaves moves kept back.
pub proof fn law_diff_attr_emits<'a>(
    olds: Seq<Attribute<'a>>,
    news: Seq<Attribute<'a>>,
    is_namespaced: bool,
)
    ensures
        instructions(attr_steps(olds, news, is_namespaced)) == news.filter(
            |a: Attribute<'a>| a.volatile || !has_first(olds, a.name@, a.value@),
        ).map_values(
            |a: Attribute<'a>|
                Edit::SetAttribute { name: a.name, value: a.value, is_namespaced },
        ) + olds.filter(|a: Attribute<'a>| !bears(news, a.name@)).map_values(
            |a: Attribute<'a>| Edit::RemoveAttribute(a.name),
        ),
        instructions(attr_steps(olds, news, is_namespaced)).len() == 0 ==> attr_steps(
            olds,
            news,
            is_namespaced,
        ) == Seq::<Step<'a>>::empty(),
{
    lemma_set_emits(olds, news, is_namespaced);
    lemma_drop_emits(olds, news);
    lemma_set_commits(olds, news, is_namespaced);
    lemma_drop_commits(olds, news);
    if instructions(attr_steps(olds, news, is_namespaced)).len() == 0 {
        assert(attr_steps(olds, news, is_namespaced) =~= Seq::<Step<'a>>::empty());
    }
}

proof fn lemma_set_commits<'a>(
    olds: Seq<Attribute<'a>>,
    news: Seq<Attribute<'a>>,
    is_namespaced: bool,
)
    ensures
        instructions(set_attr_steps(olds, news, is_namespaced)).len() == 0 ==> set_attr_steps(
            olds,
            news,
            is_namespaced,
        ) == Seq::<Step<'a>>::empty(),
    decreases news.len(),
{
    if news.len() > 0 {
        lemma_set_commits(olds, news.drop_last(), is_namespaced);
        if instructions(set_attr_steps(olds, news, is_namespaced)).len() == 0 {
            assert(set_attr_steps(olds, news, is_namespaced) =~= Seq::<Step<'a>>::empty());
        }
    }
}

proof fn lemma_drop_commits<'a>(olds: Seq<Attribute<'a>>, news: Seq<Attribute<'a>>)
    ensures
        instructions(drop_attr_steps(olds, news)).len() == 0 ==> drop_attr_steps(olds, news)
            == Seq::<Step<'a>>::empty(),
    decreases olds.len(),
{
    if olds.len() > 0 {
        lemma_drop_commits(olds.drop_last(), news);
        if instructions(drop_attr_steps(olds, news)).len() == 0 {
            assert(drop_attr_steps(olds, news) =~= Seq::<Step<'a>>::empty());
        }
    }
}

pub proof fn lemma_has_first(attrs: Seq<Attribute>, name: Seq<char>, value: Seq<char>)
    ensures
        has_first(attrs, name, value) == exists|i: int| #[trigger]
            first_named(attrs, name, i) && attrs[i].value@ == value,
{
    assert forall|i: int| 0 <= i < attrs.len() implies !bears(attrs.take(i), name) == (forall|
        k: int,
    |
        0 <= k < i ==> (#[trigger] attrs[k]).name@ != name) by {
        let init = attrs.take(i);
        if bears(init, name) {
            let k = choose|k: int| 0 <= k < init.len() && (#[trigger] init[k]).name@ == name;
            assert(attrs[k].name@ == name);
        } else {
            assert forall|k: int| 0 <= k < i implies (#[trigger] attrs[k]).name@ != name by {
                assert(init[k] == attrs[k]);
            }
        }
    }
    if has_first(attrs, name, value) {
        let i = choose|i: int|
            0 <= i < attrs.len() && (#[trigger] attrs[i]).name@ == name && attrs[i].value@ == value
                && !bears(attrs.take(i), name);
        assert(first_named(attrs, name, i));
    }
    if exists|i: int| #[trigger] first_named(attrs, name, i) && attrs[i].value@ == value {
        let i = choose|i: int| #[trigger]
            first_named(attrs, name, i) && attrs[i].value@ == value;
        assert(attrs[i].name@ == name);
        assert(!bears(attrs.take(i), name));
    }
}

proof fn lemma_set_emits<'a>(
    olds: Seq<Attribute<'a>>,
    news: Seq<Attribute<'a>>,
    is_namespaced: bool,
)
    ensures
        instructions(set_attr_steps(olds, news, is_namespaced)) == news.filter(
            |a: Attribute<'a>| a.volatile || !has_first(olds, a.name@, a.value@),
        ).map_values(
            |a: Attribute<'a>|
                Edit::SetAttribute { name: a.name, value: a.value, is_namespaced },
        ),
    decreases news.len(),
{
    reveal(Seq::filter);
    let f = |a: Attribute<'a>| a.volatile || !has_first(olds, a.name@, a.value@);
    let g = |a: Attribute<'a>|
        Edit::SetAttribute { name: a.name, value: a.value, is_namespaced };
    let all = instructions(set_attr_steps(olds, news, is_namespaced));
    if news.len() == 0 {
        assert(all =~= news.filter(f).map_values(g));
    } else {
        let init = news.drop_last();
        let a = news.last();
        lemma_set_emits(olds, init, is_namespaced);
        lemma_has_first(olds, a.name@, a.value@);
        if f(a) {
            assert(news.filter(f) =~= init.filter(f).push(a));
            assert(all =~= news.filter(f).map_values(g));
        } else {
            assert(all =~= init.filter(f).map_values(g));
        }
    }
}

proof fn lemma_drop_emits<'a>(olds: Seq<Attribute<'a>>, news: Seq<Attribute<'a>>)
    ensures
        instructions(drop_attr_steps(olds, news)) == olds.filter(
            |a: Attribute<'a>| !bears(news, a.name@),
        ).map_values(|a: Attribute<'a>| Edit::RemoveAttribute(a.name)),
    decreases olds.len(),
{
    reveal(Seq::filter);
    let f = |a: Attribute<'a>| !bears(news, a.name@);
    let g = |a: Attribute<'a>| Edit::RemoveAttribute(a.name);
    let all = instructions(drop_attr_steps(olds, news));
    if olds.len() == 0 {
        assert(all =~= olds.filter(f).map_values(g));
    } else {
        let init = olds.drop_last();
        let a = olds.last();
        lemma_drop_emits(init, news);
        assert(has_name(news, a.name@) == bears(news, a.name@));
        if f(a) {
            assert(olds.filter(f) =~= init.filter(f).push(a));
            assert(all =~= olds.filter(f).map_values(g));
        } else {
            assert(all =~= init.filter(f).map_values(g));
        }
    }
}

/// `diff_attr` sets every volatile attribute, whatever the old attributes are.
pub proof fn law_volatile_is_set<'a>(
    olds: Seq<Attribute<'a>>,
    news: Seq<Attribute<'a>>,
    is_namespaced: bool,
    i: int,
)
    requires
        0 <= i < news.len(),
        news[i].volatile,
    ensures
        instructions(attr_steps(olds, news, is_namespaced)).contains(
            Edit::SetAttribute { name: news[i].name, value: news[i].value, is_namespaced },
        ),
{
    lemma_volatile_is_set(olds, news, is_namespaced, i);
    let set = instructions(set_attr_steps(olds, news, is_namespaced));
    let all = instructions(attr_steps(olds, news, is_namespaced));
    let e = Edit::SetAttribute { name: news[i].name, value: news[i].value, is_namespaced };
    let x = choose|x: int| 0 <= x < set.len() && set[x] == e;
    assert(all[x] == e);
}

proof fn lemma_volatile_is_set<'a>(
    olds: Seq<Attribute<'a>>,
    news: Seq<Attribute<'a>>,
    is_namespaced: bool,
    i: int,
)
    requires
        0 <= i < news.len(),
        news[i].volatile,
    ensures
        instructions(set_attr_steps(olds, news, is_namespaced)).contains(
            Edit::SetAttribute { name: news[i].name, value: news[i].value, is_namespaced },
        ),
    decreases news.len(),
{
    let init = news.drop_last();
    let all = instructions(set_attr_steps(olds, news, is_namespaced));
    let e = Edit::SetAttribute { name: news[i].name, value: news[i].value, is_namespaced };
    if i < init.len() {
        lemma_volatile_is_set(olds, init, is_namespaced, i);
        let part = instructions(set_attr_steps(olds, init, is_namespaced));
        let x = choose|x: int| 0 <= x < part.len() && part[x] == e;
        assert(all[x] == e);
    } else {
        assert(all.last() == e);
        assert(all[all.len() - 1] == e);
    }
}

// ---------------------------------------------------------------------------
// Nodes and children
// ---------------------------------------------------------------------------

/// `diff_node` sets the text of a text that has changed, and does nothing to one
/// that has not. It replaces a node of another kind by one that is created. Of
/// an element that is kept it diffs the listeners, the attributes and the
/// children, as `diff_listeners`, `diff_attr` and `diff_children` do.
pub proof fn law_diff_node_emits<'a>(old: VNode<'a>, new: VNode<'a>, t: nat)
    ensures
        old is Text && new is Text && old->Text_0.text@ == new->Text_0.text@ ==> node_steps(
            old,
            new,
            t,
        ) == Seq::<Step<'a>>::empty(),
        old is Text && new is Text && old->Text_0.text@ != new->Text_0.text@ ==> node_steps(
            old,
            new,
            t,
        ) == seq![Step::Commit, Step::Do(Edit::SetText(new->Text_0.text))],
        !same_kind(old, new) ==> instructions(node_steps(old, new, t)) == instructions(
            create_steps(new),
        ).push(Edit::ReplaceWith),
        old is Element && new is Element && same_kind(old, new) ==> node_steps(old, new, t)
            == listener_steps(old->Element_0.listeners@, new->Element_0.listeners@) + attr_steps(
            old->Element_0.attributes@,
            new->Element_0.attributes@,
            new->Element_0.namespace is Some,
        ) + children_steps(old->Element_0.children@, new->Element_0.children@, t),
{
    if old is Text && new is Text && old->Text_0.text@ != new->Text_0.text@ {
        assert(node_steps(old, new, t) =~= seq![
            Step::Commit,
            Step::Do(Edit::SetText(new->Text_0.text)),
        ]);
    }
    if !same_kind(old, new) {
        assert(node_steps(old, new, t) == replace_steps(new));
        assert(instructions(node_steps(old, new, t)) =~= instructions(create_steps(new)).push(
            Edit::ReplaceWith,
        ));
    }
}

/// `diff_children` clears the children where there are no new ones, writes them
/// as one text where that is all that is new, and creates all of them where
/// there are no old ones. Otherwise it does what `diff_keyed_children` does, if
/// both the old and the new ones have keys, and what `diff_non_keyed_children`
/// does if not.
pub proof fn law_diff_children_emits<'a>(olds: Seq<VNode<'a>>, news: Seq<VNode<'a>>, t: nat)
    ensures
        news.len() == 0 && olds.len() == 0 ==> children_steps(olds, news, t) == Seq::<
            Step<'a>,
        >::empty(),
        news.len() == 0 && olds.len() > 0 ==> children_steps(olds, news, t) == seq![Step::Commit]
            + clear_steps(),
        rewritten(olds, news) ==> children_steps(olds, news, t) == seq![
            Step::Commit,
            Step::Do(Edit::SetText(news[0]->Text_0.text)),
        ],
        news.len() > 0 && olds.len() == 0 && !rewritten(olds, news) ==> children_steps(
            olds,
            news,
            t,
        ) == seq![Step::Commit] + append_steps(news),
        told_by_key(olds, news) ==> children_steps(olds, news, t) == keyed_steps(olds, news, t)
            + seq![Step::Temp(t)],
        olds.len() > 0 && news.len() > 0 && !rewritten(olds, news) && !told_by_key(olds, news)
            ==> children_steps(olds, news, t) == in_order_steps(olds, news, t),
{
    assert(takes_text(olds, news) == rewritten(olds, news));
    if rewritten(olds, news) {
        assert(children_steps(olds, news, t) =~= seq![
            Step::Commit,
            Step::Do(Edit::SetText(news[0]->Text_0.text)),
        ]);
    }
}

// ---------------------------------------------------------------------------
// Children in order
// ---------------------------------------------------------------------------

/// `diff_non_keyed_children` goes down, to the one child, diffs it as
/// `diff_node` does, and goes up again.
pub proof fn law_diff_one_in_order<'a>(a: VNode<'a>, b: VNode<'a>, t: nat)
    ensures
        in_order_steps(seq![a], seq![b], t) == seq![go(Move::Down), go(Move::ToSibling(0))]
            + node_steps(a, b, t) + seq![go(Move::Up)],
{
    let olds = seq![a];
    let news = seq![b];
    reveal_with_fuel(walk_steps, 2);
    assert(walk_steps(olds, news, 0, 1, t) =~= seq![go(Move::ToSibling(0))] + node_steps(
        olds[0],
        news[0],
        t,
    ));
    assert(in_order_steps(olds, news, t) =~= seq![go(Move::Down), go(Move::ToSibling(0))]
        + node_steps(a, b, t) + seq![go(Move::Up)]);
}

/// One more old and one more new node at the end are diffed after the others, as
/// `diff_node` does, before `diff_non_keyed_children` goes up.
pub proof fn law_diff_one_more_in_order<'a>(
    olds: Seq<VNode<'a>>,
    news: Seq<VNode<'a>>,
    a: VNode<'a>,
    b: VNode<'a>,
    t: nat,
)
    requires
        olds.len() == news.len(),
        olds.len() > 0,
    ensures
        in_order_steps(olds, news, t).last() == go::<'a>(Move::Up),
        in_order_steps(olds.push(a), news.push(b), t) == in_order_steps(
            olds,
            news,
            t,
        ).drop_last().push(go(Move::ToSibling(olds.len() as usize))) + node_steps(a, b, t)
            + seq![go(Move::Up)],
{
    let n = olds.len() as int;
    let olds2 = olds.push(a);
    let news2 = news.push(b);
    lemma_walk_of_longer(olds, news, olds2, news2, 0, n, t);
    assert(olds2[n] == a);
    assert(news2[n] == b);
    let walked = walk_steps(olds, news, 0, n, t);
    assert(in_order_steps(olds, news, t).drop_last() =~= seq![go(Move::Down)] + walked);
    assert(in_order_steps(olds2, news2, t) =~= seq![go(Move::Down)] + (walked.push(
        go(Move::ToSibling(n as usize)),
    ) + node_steps(a, b, t)) + seq![go(Move::Up)]);
    assert(in_order_steps(olds2, news2, t) =~= in_order_steps(olds, news, t).drop_last().push(
        go(Move::ToSibling(olds.len() as usize)),
    ) + node_steps(a, b, t) + seq![go(Move::Up)]);
}

proof fn lemma_walk_of_longer<'a>(
    olds: Seq<VNode<'a>>,
    news: Seq<VNode<'a>>,
    olds2: Seq<VNode<'a>>,
    news2: Seq<VNode<'a>>,
    base: int,
    n: int,
    t: nat,
)
    requires
        0 <= n <= olds.len(),
        n <= news.len(),
        n <= olds2.len(),
        n <= news2.len(),
        forall|i: int| 0 <= i < n ==> #[trigger] olds2[i] == olds[i] && news2[i] == news[i],
    ensures
        walk_steps(olds2, news2, base, n, t) == walk_steps(olds, news, base, n, t),
    decreases n,
{
    if n > 0 {
        lemma_walk_of_longer(olds, news, olds2, news2, base, n - 1, t);
        assert(olds2[n - 1] == olds[n - 1]);
    }
}

/// New nodes beyond the old ones are created and appended after the others are
/// diffed, as `create_and_append_children` does.
pub proof fn law_diff_more_new_in_order<'a>(
    olds: Seq<VNode<'a>>,
    news: Seq<VNode<'a>>,
    rest: Seq<VNode<'a>>,
    t: nat,
)
    requires
        olds.len() == news.len(),
        olds.len() > 0,
    ensures
        instructions(in_order_steps(olds, news + rest, t)) == instructions(
            in_order_steps(olds, news, t),
        ) + instructions(append_steps(rest)),
        rest.len() > 0 ==> in_order_steps(olds, news + rest, t) == in_order_steps(
            olds,
            news,
            t,
        ).push(Step::Commit) + append_steps(rest),
{
    let n = olds.len() as int;
    let news2 = news + rest;
    lemma_walk_of_longer(olds, news, olds, news2, 0, n, t);
    assert(news2.skip(n) =~= rest);
    if rest.len() == 0 {
        assert(news2 =~= news);
    } else {
        assert(in_order_steps(olds, news2, t) =~= in_order_steps(olds, news, t).push(Step::Commit)
            + append_steps(rest));
    }
    assert(instructions(in_order_steps(olds, news2, t)) =~= instructions(
        in_order_steps(olds, news, t),
    ) + instructions(append_steps(rest)));
}

/// Old nodes beyond the new ones are removed at once after the others are
/// diffed, as `remove_self_and_next_siblings` does, which goes up.
pub proof fn law_diff_more_old_in_order<'a>(
    olds: Seq<VNode<'a>>,
    rest: Seq<VNode<'a>>,
    news: Seq<VNode<'a>>,
    t: nat,
)
    requires
        olds.len() == news.len(),
        olds.len() > 0,
        rest.len() > 0,
    ensures
        in_order_steps(olds + rest, news, t) == in_order_steps(olds, news, t).drop_last().push(
            go(Move::ToSibling(news.len() as usize)),
        ).push(Step::Commit) + cut_steps(),
{
    let n = olds.len() as int;
    let olds2 = olds + rest;
    lemma_walk_of_longer(olds, news, olds2, news, 0, n, t);
    let walked = walk_steps(olds, news, 0, n, t);
    assert(in_order_steps(olds, news, t).drop_last() =~= seq![go(Move::Down)] + walked);
    assert(in_order_steps(olds2, news, t) =~= in_order_steps(olds, news, t).drop_last().push(
        go(Move::ToSibling(news.len() as usize)),
    ).push(Step::Commit) + cut_steps());
}

// ---------------------------------------------------------------------------
// Children with keys
// ---------------------------------------------------------------------------

/// The two lists begin with so many nodes of the same keys, and not more.
pub open spec fn begin_alike(olds: Seq<VNode>, news: Seq<VNode>, p: int) -> bool {
    &&& 0 <= p <= olds.len()
    &&& p <= news.len()
    &&& forall|i: int|
        #![trigger olds[i]]
        #![trigger news[i]]
        0 <= i < p ==> olds[i].key() == news[i].key()
    &&& p < olds.len() && p < news.len() ==> olds[p].key() != news[p].key()
}

/// The two lists end with so many nodes of the same keys, and not more.
pub open spec fn end_alike(olds: Seq<VNode>, news: Seq<VNode>, s: int) -> bool {
    &&& 0 <= s <= olds.len()
    &&& s <= news.len()
    &&& forall|i: int| 0 <= i < s ==> olds[olds.len() - 1 - i].key() == #[trigger] news[news.len()
        - 1 - i].key()
    &&& s < olds.len() && s < news.len() ==> olds[olds.len() - 1 - s].key() != news[news.len() - 1
        - s].key()
}

proof fn lemma_begin_alike(olds: Seq<VNode>, news: Seq<VNode>, p: int)
    requires
        begin_alike(olds, news, p),
    ensures
        shared_prefix(olds, news) == p,
{
    lemma_prefix_from(olds, news, 0);
    let x = shared_prefix(olds, news);
    if x < p {
        assert(olds[x].key() == news[x].key());
    } else if x > p {
        assert(olds[p].key() == news[p].key());
    }
}

proof fn lemma_end_alike(olds: Seq<VNode>, news: Seq<VNode>, s: int)
    requires
        end_alike(olds, news, s),
    ensures
        shared_suffix(olds, news) == s,
{
    lemma_suffix_from(olds, news, 0);
    let x = shared_suffix(olds, news);
    if x < s {
        assert(olds[olds.len() - 1 - x].key() == news[news.len() - 1 - x].key());
    } else if x > s {
        assert(olds[olds.len() - 1 - s].key() == news[news.len() - 1 - s].key());
    }
}

/// `diff_keyed_children` diffs the children that begin the two lists with the
/// same keys. Where more is to be done, it diffs those between them and the
/// children that end the two lists with the same keys, and then these.
pub proof fn law_diff_keyed_children_emits<'a>(
    olds: Seq<VNode<'a>>,
    news: Seq<VNode<'a>>,
    p: int,
    s: int,
    t: nat,
)
    requires
        begin_alike(olds, news, p),
        end_alike(olds.skip(p), news.skip(p), s),
    ensures
        p == olds.len() || p == news.len() ==> keyed_steps(olds, news, t) == prefix_steps(
            olds,
            news,
            t,
        ),
        p < olds.len() && p < news.len() ==> keyed_steps(olds, news, t) == prefix_steps(
            olds,
            news,
            t,
        ) + (middle_steps(
            olds.subrange(p, olds.len() - s),
            news.subrange(p, news.len() - s),
            p,
            s,
            olds.len() - s,
            t,
        ) + if s > 0 {
            suffix_steps(
                olds.subrange(olds.len() - s, olds.len() as int),
                news.subrange(news.len() - s, news.len() as int),
                news.len() - s,
                temps_end(
                    olds.subrange(p, olds.len() - s),
                    news.subrange(p, news.len() - s),
                    t,
                ),
            )
        } else {
            Seq::empty()
        }),
{
    lemma_begin_alike(olds, news, p);
    lemma_end_alike(olds.skip(p), news.skip(p), s);
    lemma_keyed_steps(olds, news, t);
    if p < olds.len() && p < news.len() {
        lemma_beyond_prefix_steps(olds, news, p, s, t);
    }
}

/// To the children that begin the two lists with the same keys,
/// `diff_keyed_prefix` does what `diff_non_keyed_children` does, or goes down and
/// up if there are none. Where they are all of the old ones, it then creates and
/// appends the other new ones, and where they are all of the new ones, it removes
/// the other old ones.
pub proof fn law_diff_keyed_prefix_emits<'a>(
    olds: Seq<VNode<'a>>,
    news: Seq<VNode<'a>>,
    p: int,
    t: nat,
)
    requires
        begin_alike(olds, news, p),
    ensures
        ({
            let steps = prefix_steps(olds, news, t);
            let begun = if p == 0 {
                seq![go(Move::Down), go(Move::Up)]
            } else {
                in_order_steps(olds.take(p), news.take(p), t)
            };
            &&& p < olds.len() && p < news.len() ==> steps == begun
            &&& p == olds.len() ==> steps == begun.push(Step::Commit) + append_steps(news.skip(p))
            &&& p == news.len() && p < olds.len() ==> steps == begun.drop_last().push(
                go(Move::ToSibling(p as usize)),
            ).push(Step::Commit) + cut_steps()
        }),
        p == olds.len() || p == news.len() ==> instructions(prefix_steps(olds, news, t))
            == instructions(in_order_steps(olds, news, t)),
{
    lemma_begin_alike(olds, news, p);
    let walked = walk_steps(olds, news, 0, p, t);
    let begun = if p == 0 {
        seq![go(Move::Down), go(Move::Up)]
    } else {
        in_order_steps(olds.take(p), news.take(p), t)
    };
    lemma_walk_of_longer(olds.take(p), news.take(p), olds, news, 0, p, t);
    assert(begun =~= seq![go(Move::Down)] + walked + seq![go(Move::Up)]);
    if p == olds.len() {
        assert(prefix_steps(olds, news, t) =~= begun.push(Step::Commit) + append_steps(
            news.skip(p),
        ));
    } else if p == news.len() {
        assert(begun.drop_last() =~= seq![go(Move::Down)] + walked);
        assert(prefix_steps(olds, news, t) =~= begun.drop_last().push(
            go(Move::ToSibling(p as usize)),
        ).push(Step::Commit) + cut_steps());
    }
    if p < olds.len() && p < news.len() {
        assert(prefix_steps(olds, news, t) =~= begun);
    } else if p == olds.len() && p == news.len() {
        assert(news.skip(p) =~= Seq::empty());
        assert(instructions(prefix_steps(olds, news, t)) =~= instructions(
            in_order_steps(olds, news, t),
        ));
    } else {
        assert(instructions(prefix_steps(olds, news, t)) =~= instructions(
            in_order_steps(olds, news, t),
        ));
    }
}

/// `diff_keyed_suffix` goes to each child from `from` on, in order, and diffs it
/// as `diff_node` does.
pub proof fn law_diff_keyed_suffix_emits<'a>(
    olds: Seq<VNode<'a>>,
    news: Seq<VNode<'a>>,
    a: VNode<'a>,
    b: VNode<'a>,
    from: int,
    t: nat,
)
    requires
        olds.len() == news.len(),
    ensures
        suffix_steps(Seq::<VNode<'a>>::empty(), Seq::empty(), from, t) == seq![
            go(Move::Down),
            go(Move::Up),
        ],
        suffix_steps(olds, news, from, t).last() == go::<'a>(Move::Up),
        suffix_steps(olds.push(a), news.push(b), from, t) == suffix_steps(
            olds,
            news,
            from,
            t,
        ).drop_last().push(go(Move::ToSibling((from + olds.len()) as usize))) + node_steps(a, b, t)
            + seq![go(Move::Up)],
{
    let n = olds.len() as int;
    let olds2 = olds.push(a);
    let news2 = news.push(b);
    lemma_walk_of_longer(olds, news, olds2, news2, from, n, t);
    assert(olds2[n] == a);
    assert(news2[n] == b);
    let walked = walk_steps(olds, news, from, n, t);
    assert(suffix_steps(Seq::<VNode<'a>>::empty(), Seq::empty(), from, t) =~= seq![
        go(Move::Down),
        go(Move::Up),
    ]);
    assert(suffix_steps(olds, news, from, t).drop_last() =~= seq![go(Move::Down)] + walked);
    assert(suffix_steps(olds2, news2, from, t) =~= suffix_steps(
        olds,
        news,
        from,
        t,
    ).drop_last().push(go(Move::ToSibling((from + olds.len()) as usize))) + node_steps(a, b, t)
        + seq![go(Move::Up)]);
}

// ---------------------------------------------------------------------------
// Creating and removing
// ---------------------------------------------------------------------------

/// `create` makes a text at once. It makes an element, adds its listeners and
/// sets its attributes, all in order. Then it sets the text of an only child
/// that is a text, or creates and appends the children as
/// `create_and_append_children` does.
pub proof fn law_create_emits<'a>(node: VNode<'a>)
    ensures
        node is Text ==> create_steps(node) == seq![
            Step::Do(Edit::CreateTextNode(node->Text_0.text)),
        ],
        node matches VNode::Element(e) ==> instructions(create_steps(node)) == seq![
            match e.namespace {
                Some(namespace) => Edit::CreateElementNs { tag_name: e.tag_name, namespace },
                None => Edit::CreateElement(e.tag_name),
            },
        ] + e.listeners@.map_values(|l: Listener<'a>| Edit::NewEventListener(l))
            + e.attributes@.map_values(
            |a: Attribute<'a>|
                Edit::SetAttribute {
                    name: a.name,
                    value: a.value,
                    is_namespaced: e.namespace is Some,
                },
        ) + if e.children@.len() == 1 && e.children@[0] is Text {
            seq![Edit::SetText(e.children@[0]->Text_0.text)]
        } else {
            instructions(append_steps(e.children@))
        },
{
    if let VNode::Element(e) = node {
        let ls = add_listener_steps(e.listeners@);
        let ats = add_attr_steps(e.attributes@, e.namespace is Some);
        lemma_instructions_all(ls);
        lemma_instructions_all(ats);
        assert(instructions(ls) =~= e.listeners@.map_values(
            |l: Listener<'a>| Edit::NewEventListener(l),
        ));
        assert(instructions(ats) =~= e.attributes@.map_values(
            |a: Attribute<'a>|
                Edit::SetAttribute {
                    name: a.name,
                    value: a.value,
                    is_namespaced: e.namespace is Some,
                },
        ));
        let first = match e.namespace {
            Some(namespace) => Edit::CreateElementNs { tag_name: e.tag_name, namespace },
            None => Edit::CreateElement(e.tag_name),
        };
        assert(instructions(seq![create_element_step(e)]) =~= seq![first]);
        if is_sole_text(e.children@) {
            assert(instructions(
                seq![Step::Do(Edit::<'a>::SetText(e.children@[0]->Text_0.text))],
            ) =~= seq![Edit::SetText(e.children@[0]->Text_0.text)]);
        }
    }
}

/// `create_and_append_children` creates each child as `create` does and appends
/// it, in order.
pub proof fn law_create_and_append_children_emits<'a>(news: Seq<VNode<'a>>, n: VNode<'a>)
    ensures
        append_steps(Seq::<VNode<'a>>::empty()) == Seq::<Step<'a>>::empty(),
        append_steps(news.push(n)) == append_steps(news) + create_steps(n).push(
            Step::Do(Edit::AppendChild),
        ),
{
    assert(news.push(n).drop_last() =~= news);
}

/// `remove_all_children` sets the text content to nothing, and
/// `remove_self_and_next_siblings` is one instruction.
pub proof fn law_remove_emits<'a>()
    ensures
        clear_steps::<'a>() == seq![Step::<'a>::Do(Edit::SetText(""))],
        cut_steps::<'a>() == seq![Step::<'a>::Do(Edit::RemoveSelfAndNextSiblings)],
{
}

} // verus!
