//! The laws of instructions that fit the node that they are for.
use crate::changelist::Edit;
use crate::changelist::Step;
use crate::dom::Machine;
use crate::dom::element_label;
use crate::dom::empty_element;
use crate::dom::lemma_follow_add;
use crate::dom::lemma_follow_empty;
use crate::dom::lemma_follow_push;
use crate::dom::listener_map;
use crate::dom::optional_view;
use crate::keys::lemma_run_end;
use crate::keys::run_end;
use crate::laws::basic::lemma_add_listeners;
use crate::laws::basic::lemma_append;
use crate::laws::basic::lemma_create;
use crate::laws::basic::lemma_drop_attrs;
use crate::laws::basic::lemma_drop_listeners;
use crate::laws::basic::lemma_open_element;
use crate::laws::basic::lemma_put_listeners;
use crate::laws::basic::lemma_relabeled;
use crate::laws::basic::lemma_with_listeners_at;
use crate::laws::basic::lemma_without_attributes_at;
use crate::laws::basic::lemma_without_listeners_at;
use crate::laws::basic::on_element;
use crate::laws::basic::relabeled;
use crate::laws::basic::with_listeners;
use crate::laws::basic::without_attributes;
use crate::laws::basic::without_listeners;
use crate::laws::near::volatile_name;
use crate::laws::proper::all_proper;
use crate::laws::proper::is_plain;
use crate::laws::proper::lemma_proper_add;
use crate::laws::proper::lemma_proper_empty;
use crate::laws::proper::lemma_proper_push;
use crate::laws::proper::one_per_event;
use crate::laws::proper::one_per_name;
use crate::laws::proper::tidy;
use crate::laws::proper::tidy_all;
use crate::steps::add_attr_steps;
use crate::steps::add_listener_steps;
use crate::steps::append_steps;
use crate::steps::attr_steps;
use crate::steps::create_element_step;
use crate::steps::create_steps;
use crate::steps::drop_attr_steps;
use crate::steps::drop_listener_steps;
use crate::steps::drop_steps;
use crate::steps::has_name;
use crate::steps::is_sole_text;
use crate::steps::listener_steps;
use crate::steps::listens_to;
use crate::steps::open_element_steps;
use crate::steps::put_listener_step;
use crate::steps::put_listener_steps;
use crate::steps::save_steps;
use crate::steps::set_attr_steps;
use crate::vnode::Attribute;
use crate::vnode::Listener;
use crate::vnode::VElement;
use crate::vnode::VNode;
use crate::vnode::renderable;
use crate::vnode::renderable_all;
use vstd::prelude::*;

verus! {

broadcast use {
    lemma_follow_empty,
    lemma_follow_push,
    lemma_follow_add,
    lemma_proper_empty,
    lemma_proper_push,
    lemma_proper_add,
};

pub proof fn lemma_plain_save<'a>(flags: Seq<bool>, start: int, base: int, t: nat)
    requires
        0 <= start,
    ensures
        forall|i: int|
            0 <= i < save_steps::<'a>(flags, start, base, t).len() ==> is_plain(
                #[trigger] save_steps::<'a>(flags, start, base, t)[i],
            ),
    decreases flags.len() - start,
{
    if start <= flags.len() {
        lemma_run_end(flags, start);
        let end = run_end(flags, start);
        if end < flags.len() {
            lemma_plain_save(flags, end + 1, base, (t + (end - start)) as nat);
            let all = save_steps::<'a>(flags, start, base, t);
            let rest = save_steps::<'a>(flags, end + 1, base, (t + (end - start)) as nat);
            assert forall|i: int| 0 <= i < all.len() implies is_plain(#[trigger] all[i]) by {
                if i >= all.len() - rest.len() {
                    assert(all[i] == rest[i - (all.len() - rest.len())]);
                }
            }
        }
    }
}

pub proof fn lemma_plain_drop<'a>(flags: Seq<bool>, n: int, base: int)
    ensures
        forall|i: int|
            0 <= i < drop_steps::<'a>(flags, n, base).len() ==> is_plain(
                #[trigger] drop_steps::<'a>(flags, n, base)[i],
            ),
    decreases n,
{
    if 0 < n <= flags.len() {
        lemma_plain_drop(flags, n - 1, base);
        let all = drop_steps::<'a>(flags, n, base);
        let rest = drop_steps::<'a>(flags, n - 1, base);
        assert forall|i: int| 0 <= i < all.len() implies is_plain(#[trigger] all[i]) by {
            if i >= all.len() - rest.len() {
                assert(all[i] == rest[i - (all.len() - rest.len())]);
            }
        }
    }
}

proof fn lemma_one_per_event_init(ls: Seq<Listener>)
    requires
        one_per_event(ls),
        ls.len() > 0,
    ensures
        one_per_event(ls.drop_last()),
        !listens_to(ls.drop_last(), ls.last().event@),
{
    let init = ls.drop_last();
    assert forall|i: int, j: int| 0 <= i < j < init.len() implies (#[trigger] init[i]).event@ != (
    #[trigger] init[j]).event@ by {
        assert(ls[i].event@ != ls[j].event@);
    }
    assert forall|i: int| 0 <= i < init.len() implies (#[trigger] init[i]).event@
        != ls.last().event@ by {
        assert(ls[i].event@ != ls[ls.len() - 1].event@);
    }
}

proof fn lemma_proper_put<'a>(m: Machine, old: Seq<Listener<'a>>, new: Seq<Listener<'a>>)
    requires
        on_element(m),
        m.focus().label->listeners == listener_map(old),
        one_per_event(new),
    ensures
        all_proper(m, put_listener_steps(old, new)),
    decreases new.len(),
{
    if new.len() == 0 {
        assert(put_listener_steps(old, new) =~= Seq::<Step<'a>>::empty());
    } else {
        let init = new.drop_last();
        let a = m.focus().label->attributes;
        let l = m.focus().label->listeners;
        let e = new.last().event@;
        lemma_one_per_event_init(new);
        lemma_proper_put(m, old, init);
        lemma_put_listeners(m, old, init);
        lemma_relabeled(m, a, with_listeners(l, init), a, with_listeners(l, new));
        lemma_with_listeners_at(l, init, e);
        lemma_with_listeners_at(l, old, e);
        assert(put_listener_steps(old, new) =~= put_listener_steps(old, init).push(
            put_listener_step(old, new.last()),
        ));
    }
}

proof fn lemma_proper_drop<'a>(m: Machine, old: Seq<Listener<'a>>, new: Seq<Listener<'a>>)
    requires
        on_element(m),
        forall|i: int|
            0 <= i < old.len() ==> m.focus().label->listeners.contains_key(
                (#[trigger] old[i]).event@,
            ),
        one_per_event(old),
    ensures
        all_proper(m, drop_listener_steps(old, new)),
    decreases old.len(),
{
    reveal(Seq::filter);
    if old.len() == 0 {
        assert(drop_listener_steps(old, new) =~= Seq::<Step<'a>>::empty());
    } else {
        let init = old.drop_last();
        let a = m.focus().label->attributes;
        let l = m.focus().label->listeners;
        let e = old.last().event@;
        let f = |x: Listener<'a>| !listens_to(new, x.event@);
        assert forall|i: int| 0 <= i < init.len() implies l.contains_key(
            (#[trigger] init[i]).event@,
        ) by {
            assert(init[i] == old[i]);
        }
        assert(l.contains_key(old[old.len() - 1].event@));
        lemma_one_per_event_init(old);
        lemma_proper_drop(m, init, new);
        lemma_drop_listeners(m, init, new);
        lemma_relabeled(
            m,
            a,
            without_listeners(l, init, new),
            a,
            without_listeners(l, old, new),
        );
        lemma_without_listeners_at(l, init, new, e);
        if !listens_to(new, e) {
            assert(old.filter(f) =~= init.filter(f).push(old.last()));
            assert(drop_listener_steps(old, new) =~= drop_listener_steps(init, new).push(
                Step::Do(Edit::RemoveEventListener(old.last().event)),
            ));
        }
    }
}

/// `diff_listeners` adds a listener only to an event that the node does not
/// listen to, and updates or removes one only for an event that it does.
pub proof fn law_diff_listeners_fits<'a>(
    m: Machine,
    olds: Seq<Listener<'a>>,
    news: Seq<Listener<'a>>,
)
    requires
        on_element(m),
        m.focus().label->listeners == listener_map(olds),
        one_per_event(olds),
        one_per_event(news),
    ensures
        all_proper(m, listener_steps(olds, news)),
{
    let a = m.focus().label->attributes;
    let l = m.focus().label->listeners;
    let l1 = with_listeners(l, news);
    lemma_proper_put(m, olds, news);
    lemma_put_listeners(m, olds, news);
    lemma_relabeled(m, a, l1, a, l1);
    assert forall|i: int| 0 <= i < olds.len() implies l1.contains_key(
        (#[trigger] olds[i]).event@,
    ) by {
        lemma_with_listeners_at(l, news, olds[i].event@);
        lemma_with_listeners_at(l, olds, olds[i].event@);
    }
    lemma_proper_drop(relabeled(m, a, l1), olds, news);
}

proof fn lemma_proper_set<'a>(
    m: Machine,
    old: Seq<Attribute<'a>>,
    new: Seq<Attribute<'a>>,
    ns: bool,
)
    requires
        on_element(m),
    ensures
        all_proper(m, set_attr_steps(old, new, ns)),
        m.follow(set_attr_steps(old, new, ns)) matches Some(x) && on_element(x)
            && x.focus().label->listeners == m.focus().label->listeners && forall|k: Seq<char>|
            m.focus().label->attributes.contains_key(k) || volatile_name(new, k) ==> (
            #[trigger] x.focus().label->attributes.contains_key(k)),
    decreases new.len(),
{
    if new.len() > 0 {
        lemma_proper_set(m, old, new.drop_last(), ns);
        assert forall|k: Seq<char>| #[trigger] volatile_name(new, k) implies volatile_name(
            new.drop_last(),
            k,
        ) || (new.last().volatile && new.last().name@ == k) by {
            let i = choose|i: int|
                0 <= i < new.len() && (#[trigger] new[i]).name@ == k && new[i].volatile;
            if i < new.len() - 1 {
                assert(new.drop_last()[i] == new[i]);
            }
        }
        let x = m.follow(set_attr_steps(old, new.drop_last(), ns))->0;
        let a = x.focus().label->attributes.insert(new.last().name@, new.last().value@);
        lemma_relabeled(x, a, x.focus().label->listeners, a, x.focus().label->listeners);
    }
}

proof fn lemma_proper_drop_attrs<'a>(
    m: Machine,
    old: Seq<Attribute<'a>>,
    new: Seq<Attribute<'a>>,
)
    requires
        on_element(m),
        forall|i: int|
            0 <= i < old.len() ==> m.focus().label->attributes.contains_key(
                (#[trigger] old[i]).name@,
            ),
        one_per_name(old),
    ensures
        all_proper(m, drop_attr_steps(old, new)),
    decreases old.len(),
{
    if old.len() > 0 {
        let init = old.drop_last();
        let a = m.focus().label->attributes;
        let l = m.focus().label->listeners;
        let k = old.last().name@;
        assert forall|i: int| 0 <= i < init.len() implies a.contains_key(
            (#[trigger] init[i]).name@,
        ) && init[i].name@ != k by {
            assert(init[i] == old[i]);
            assert(old[i].name@ != old[old.len() - 1].name@);
        }
        assert forall|i: int, j: int| 0 <= i < j < init.len() implies (#[trigger] init[i]).name@
            != (#[trigger] init[j]).name@ by {
            assert(old[i].name@ != old[j].name@);
        }
        assert(a.contains_key(old[old.len() - 1].name@));
        lemma_proper_drop_attrs(m, init, new);
        lemma_drop_attrs(m, init, new);
        lemma_relabeled(
            m,
            without_attributes(a, init, new),
            l,
            without_attributes(a, old, new),
            l,
        );
        lemma_without_attributes_at(a, init, new, k);
        assert(!has_name(init, k));
    }
}

/// `diff_attr` removes only attributes that the node has, if it has the old ones
/// in all but those that are volatile among the new ones.
pub proof fn law_diff_attr_fits<'a>(
    m: Machine,
    olds: Seq<Attribute<'a>>,
    news: Seq<Attribute<'a>>,
    is_namespaced: bool,
)
    requires
        on_element(m),
        forall|i: int|
            0 <= i < olds.len() ==> m.focus().label->attributes.contains_key(
                (#[trigger] olds[i]).name@,
            ) || volatile_name(news, olds[i].name@),
        one_per_name(olds),
    ensures
        all_proper(m, attr_steps(olds, news, is_namespaced)),
{
    lemma_proper_set(m, olds, news, is_namespaced);
    let x = m.follow(set_attr_steps(olds, news, is_namespaced))->0;
    assert forall|i: int| 0 <= i < olds.len() implies x.focus().label->attributes.contains_key(
        (#[trigger] olds[i]).name@,
    ) by {}
    lemma_proper_drop_attrs(x, olds, news);
}

proof fn lemma_proper_add_listeners<'a>(m: Machine, ls: Seq<Listener<'a>>)
    requires
        on_element(m),
        m.focus().label->listeners == Map::<Seq<char>, u64>::empty(),
        one_per_event(ls),
    ensures
        all_proper(m, add_listener_steps(ls)),
    decreases ls.len(),
{
    if ls.len() == 0 {
        assert(add_listener_steps(ls) =~= Seq::<Step<'a>>::empty());
    } else {
        let init = ls.drop_last();
        let a = m.focus().label->attributes;
        let l = m.focus().label->listeners;
        lemma_one_per_event_init(ls);
        lemma_proper_add_listeners(m, init);
        lemma_add_listeners(m, init);
        lemma_relabeled(m, a, with_listeners(l, init), a, with_listeners(l, ls));
        lemma_with_listeners_at(l, init, ls.last().event@);
        assert(add_listener_steps(ls) =~= add_listener_steps(init).push(
            Step::Do(Edit::NewEventListener(ls.last())),
        ));
    }
}

proof fn lemma_proper_add_attrs<'a>(m: Machine, attrs: Seq<Attribute<'a>>, ns: bool)
    requires
        on_element(m),
    ensures
        all_proper(m, add_attr_steps(attrs, ns)),
        m.follow(add_attr_steps(attrs, ns)) matches Some(x) && on_element(x),
    decreases attrs.len(),
{
    if attrs.len() == 0 {
        assert(add_attr_steps(attrs, ns) =~= Seq::<Step<'a>>::empty());
    } else {
        let init = attrs.drop_last();
        let y = attrs.last();
        lemma_proper_add_attrs(m, init, ns);
        let x = m.follow(add_attr_steps(init, ns))->0;
        let a = x.focus().label->attributes.insert(y.name@, y.value@);
        lemma_relabeled(x, a, x.focus().label->listeners, a, x.focus().label->listeners);
        assert(add_attr_steps(attrs, ns) =~= add_attr_steps(init, ns).push(
            Step::Do(Edit::SetAttribute { name: y.name, value: y.value, is_namespaced: ns }),
        ));
    }
}

proof fn lemma_proper_open<'a>(m: Machine, e: VElement<'a>)
    requires
        one_per_event(e.listeners@),
    ensures
        all_proper(m, open_element_steps(e)),
{
    let m1 = m.create(empty_element(e.tag_name@, optional_view(e.namespace)));
    assert(m.follow(seq![create_element_step(e)]) == Some(m1));
    lemma_proper_add_listeners(m1, e.listeners@);
    lemma_add_listeners(m1, e.listeners@);
    let l1 = with_listeners(m1.focus().label->listeners, e.listeners@);
    lemma_relabeled(m1, m1.focus().label->attributes, l1, m1.focus().label->attributes, l1);
    lemma_proper_add_attrs(
        relabeled(m1, m1.focus().label->attributes, l1),
        e.attributes@,
        e.namespace is Some,
    );
}

/// `create` adds a listener only to an event that the new node does not listen
/// to yet, at every depth.
pub proof fn law_create_fits<'a>(m: Machine, node: VNode<'a>)
    requires
        renderable(node),
        tidy(node),
    ensures
        all_proper(m, create_steps(node)),
    decreases node,
{
    match node {
        VNode::Element(e) => {
            lemma_proper_open(m, e);
            lemma_open_element(m, e);
            let m1 = m.create(element_label(e));
            if !is_sole_text(e.children@) {
                law_create_and_append_children_fits(m1, e.children@);
            }
        },
        _ => {},
    }
}

/// `create_and_append_children` adds a listener only to an event that the new
/// node does not listen to yet, at every depth.
pub proof fn law_create_and_append_children_fits<'a>(m: Machine, news: Seq<VNode<'a>>)
    requires
        m.has_focus(),
        renderable_all(news),
        tidy_all(news),
    ensures
        all_proper(m, append_steps(news)),
    decreases news,
{
    if news.len() > 0 {
        let init = news.drop_last();
        assert forall|i: int| 0 <= i < init.len() implies renderable(#[trigger] init[i]) && tidy(
            init[i],
        ) by {
            assert(init[i] == news[i]);
        }
        assert(renderable(news[news.len() - 1]) && tidy(news[news.len() - 1]));
        law_create_and_append_children_fits(m, init);
        lemma_append(m, init);
        let x = m.follow(append_steps(init))->0;
        lemma_create(x, news.last());
        law_create_fits(x, news.last());
        let y = x.follow(create_steps(news.last()))->0;
        lemma_append(m, news);
    }
}

} // verus!
