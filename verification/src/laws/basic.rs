//! What creating nodes and diffing listeners and attributes does to the
//! physical DOM.
use crate::changelist::Edit;
use crate::changelist::Step;
use crate::dom::Label;
use crate::dom::Machine;
use crate::dom::PNode;
use crate::dom::attribute_map;
use crate::dom::distinct;
use crate::dom::element_label;
use crate::dom::empty_element;
use crate::dom::identified;
use crate::dom::identified_all;
use crate::dom::lemma_follow_add;
use crate::dom::lemma_follow_empty;
use crate::dom::lemma_follow_push;
use crate::dom::listener_map;
use crate::dom::optional_view;
use crate::dom::reflects;
use crate::dom::reflects_all;
use crate::keys::has_key;
use crate::laws::near::nearly_has;
use crate::laws::near::volatile_name;
use crate::steps::add_attr_steps;
use crate::steps::add_listener_steps;
use crate::steps::append_steps;
use crate::steps::attr_steps;
use crate::steps::create_element_step;
use crate::steps::create_steps;
use crate::steps::drop_attr_steps;
use crate::steps::drop_listener_steps;
use crate::steps::first_named;
use crate::steps::has_name;
use crate::steps::is_sole_text;
use crate::steps::listener_steps;
use crate::steps::listens_to;
use crate::steps::needs_set;
use crate::steps::open_element_steps;
use crate::steps::put_listener_step;
use crate::steps::put_listener_steps;
use crate::steps::set_attr_steps;
use crate::steps::takes_text;
use crate::vnode::Attribute;
use crate::vnode::Listener;
use crate::vnode::VElement;
use crate::vnode::VNode;
use crate::vnode::lemma_size_index;
use crate::vnode::renderable;
use crate::vnode::renderable_all;
use crate::vnode::same_type;
use crate::vnode::size;
use crate::vnode::size_all;
use vstd::prelude::*;

verus! {

broadcast use {lemma_follow_empty, lemma_follow_push, lemma_follow_add};

/// Attributes that share a name share their value.
pub open spec fn unambiguous(attrs: Seq<Attribute>) -> bool {
    forall|i: int, j: int|
        0 <= i < attrs.len() && 0 <= j < attrs.len() && (#[trigger] attrs[i]).name@ == (
        #[trigger] attrs[j]).name@ ==> attrs[i].value@ == attrs[j].value@
}

/// The attributes that a node with the attributes `old` has after those of
/// `new` are set that need to be.
pub open spec fn updated(old: Seq<Attribute>, new: Seq<Attribute>) -> Map<Seq<char>, Seq<char>>
    decreases new.len(),
{
    if new.len() == 0 {
        attribute_map(old)
    } else if needs_set(old, new.last()) {
        updated(old, new.drop_last()).insert(new.last().name@, new.last().value@)
    } else {
        updated(old, new.drop_last())
    }
}

/// After the attributes of `new` are set that need to be, each has the value
/// that `new` has for it. It may have another one where a list has two values
/// for one name, since a new attribute is held against the first old one of its
/// name.
pub open spec fn settles(old: Seq<Attribute>, new: Seq<Attribute>) -> bool {
    forall|i: int|
        0 <= i < new.len() ==> updated(old, new)[(#[trigger] new[i]).name@] == attribute_map(
            new,
        )[new[i].name@]
}

/// No element of a tree has two values for one attribute.
pub open spec fn unambiguous_tree(n: VNode) -> bool
    decreases n,
{
    match n {
        VNode::Element(e) => unambiguous(e.attributes@) && unambiguous_trees(e.children@),
        _ => true,
    }
}

/// No element of some trees has two values for one attribute.
pub open spec fn unambiguous_trees(ns: Seq<VNode>) -> bool
    decreases ns,
{
    forall|i: int| 0 <= i < ns.len() ==> unambiguous_tree(#[trigger] ns[i])
}

/// No element of a tree has an empty text for its only child. Such a child
/// would be created by setting the text content of its parent to nothing,
/// which leaves the parent without a child.
pub open spec fn clean(n: VNode) -> bool
    decreases n,
{
    match n {
        VNode::Element(e) => clean_all(e.children@),
        _ => true,
    }
}

/// Some siblings are not one empty text, nor are there any in the trees
/// beneath them.
pub open spec fn clean_all(ns: Seq<VNode>) -> bool
    decreases ns,
{
    &&& !(ns.len() == 1 && ns[0] is Text && ns[0]->Text_0.text@.len() == 0)
    &&& forall|i: int| 0 <= i < ns.len() ==> clean(#[trigger] ns[i])
}

/// Whether a physical tree that reflects `old` can be turned into one that
/// reflects `new`: wherever an element is diffed its attributes settle, and
/// nowhere is a text that is empty put into an element as its only child.
pub open spec fn shows(old: VNode, new: VNode) -> bool
    decreases size(old), 0nat,
{
    match (old, new) {
        (VNode::Text(_), VNode::Text(_)) => true,
        (VNode::Element(a), VNode::Element(b)) => if same_type(a, b) {
            settles(a.attributes@, b.attributes@) && shows_children(a.children@, b.children@)
        } else {
            clean(new)
        },
        _ => clean(new),
    }
}

/// Like `shows`, for the children of an element.
pub open spec fn shows_children(olds: Seq<VNode>, news: Seq<VNode>) -> bool
    decreases size_all(olds), 2nat,
{
    if news.len() == 0 {
        true
    } else if takes_text(olds, news) {
        news[0]->Text_0.text@.len() > 0
    } else if olds.len() == 0 {
        forall|i: int| 0 <= i < news.len() ==> clean(#[trigger] news[i])
    } else if olds[0].key() is Some && news[0].key() is Some {
        shows_by_key(olds, news)
    } else {
        shows_in_order(olds, news)
    }
}

/// Like `shows`, for children that are diffed by key.
#[verifier::opaque]
pub open spec fn shows_by_key(olds: Seq<VNode>, news: Seq<VNode>) -> bool
    decreases size_all(olds), 1nat,
{
    proof {
        lemma_sizes(olds);
    }
    &&& forall|i: int, j: int|
        #![trigger olds[i], news[j]]
        0 <= i < olds.len() && 0 <= j < news.len() && olds[i].key() == news[j].key() ==> shows(
            olds[i],
            news[j],
        )
    &&& forall|j: int|
        0 <= j < news.len() && !has_key(olds, (#[trigger] news[j]).key()) ==> clean(news[j])
}

/// Whether the physical node for the new node at `j`, among children that are
/// diffed by key, can be turned into one that reflects it.
pub open spec fn shown_at(olds: Seq<VNode>, news: Seq<VNode>, j: int) -> bool {
    &&& forall|i: int|
        0 <= i < olds.len() && (#[trigger] olds[i]).key() == news[j].key() ==> shows(
            olds[i],
            news[j],
        )
    &&& !has_key(olds, news[j].key()) ==> clean(news[j])
}

pub proof fn lemma_shown_at(olds: Seq<VNode>, news: Seq<VNode>)
    requires
        shows_by_key(olds, news),
    ensures
        forall|j: int| 0 <= j < news.len() ==> #[trigger] shown_at(olds, news, j),
{
    reveal(shows_by_key);
    assert forall|j: int| 0 <= j < news.len() implies #[trigger] shown_at(olds, news, j) by {
        assert(news[j] == news[j]);
    }
}

/// Like `shows`, for children that are diffed in order.
#[verifier::opaque]
pub open spec fn shows_in_order(olds: Seq<VNode>, news: Seq<VNode>) -> bool
    decreases size_all(olds), 1nat,
{
    proof {
        lemma_sizes(olds);
    }
    &&& forall|i: int|
        #![trigger olds[i], news[i]]
        0 <= i < olds.len() && i < news.len() ==> shows(olds[i], news[i])
    &&& forall|i: int| olds.len() <= i < news.len() ==> clean(#[trigger] news[i])
}

pub proof fn lemma_sizes(ns: Seq<VNode>)
    ensures
        forall|i: int| 0 <= i < ns.len() ==> #[trigger] size(ns[i]) <= size_all(ns),
{
    assert forall|i: int| 0 <= i < ns.len() implies #[trigger] size(ns[i]) <= size_all(ns) by {
        lemma_size_index(ns, i);
    }
}

/// A physical tree can be turned wherever no element has two values for one
/// attribute, and none gets an empty text for its only child.
pub proof fn lemma_shows(old: VNode, new: VNode)
    requires
        unambiguous_tree(old),
        unambiguous_tree(new),
        clean(new),
    ensures
        shows(old, new),
    decreases size(old), 0nat,
{
    match (old, new) {
        (VNode::Element(a), VNode::Element(b)) => if same_type(a, b) {
            lemma_settles(a.attributes@, b.attributes@);
            lemma_shows_children(a.children@, b.children@);
        },
        _ => {},
    }
}

pub proof fn lemma_shows_children(olds: Seq<VNode>, news: Seq<VNode>)
    requires
        unambiguous_trees(olds),
        unambiguous_trees(news),
        clean_all(news),
    ensures
        shows_children(olds, news),
    decreases size_all(olds), 2nat,
{
    reveal(shows_by_key);
    reveal(shows_in_order);
    lemma_sizes(olds);
    if news.len() == 0 || takes_text(olds, news) || olds.len() == 0 {
    } else if olds[0].key() is Some && news[0].key() is Some {
        assert forall|i: int, j: int|
            #![trigger olds[i], news[j]]
            0 <= i < olds.len() && 0 <= j < news.len() && olds[i].key()
                == news[j].key() implies shows(olds[i], news[j]) by {
            assert(size(olds[i]) <= size_all(olds));
            lemma_shows(olds[i], news[j]);
        }
        assert(shows_by_key(olds, news));
    } else {
        assert forall|i: int|
            #![trigger olds[i], news[i]]
            0 <= i < olds.len() && i < news.len() implies shows(olds[i], news[i]) by {
            assert(size(olds[i]) <= size_all(olds));
            lemma_shows(olds[i], news[i]);
        }
        assert(shows_in_order(olds, news));
    }
}

/// Like `lemma_shows`, for children that are diffed by key.
pub proof fn lemma_shows_by_key(olds: Seq<VNode>, news: Seq<VNode>)
    requires
        unambiguous_trees(olds),
        unambiguous_trees(news),
        forall|i: int| 0 <= i < news.len() ==> clean(#[trigger] news[i]),
    ensures
        shows_by_key(olds, news),
{
    reveal(shows_by_key);
    assert forall|i: int, j: int|
        #![trigger olds[i], news[j]]
        0 <= i < olds.len() && 0 <= j < news.len() && olds[i].key() == news[j].key() implies shows(
        olds[i],
        news[j],
    ) by {
        lemma_shows(olds[i], news[j]);
    }
}

/// Like `lemma_shows`, for children that are diffed in order.
pub proof fn lemma_shows_in_order(olds: Seq<VNode>, news: Seq<VNode>)
    requires
        unambiguous_trees(olds),
        unambiguous_trees(news),
        forall|i: int| 0 <= i < news.len() ==> clean(#[trigger] news[i]),
    ensures
        shows_in_order(olds, news),
{
    reveal(shows_in_order);
    assert forall|i: int|
        #![trigger olds[i], news[i]]
        0 <= i < olds.len() && i < news.len() implies shows(olds[i], news[i]) by {
        lemma_shows(olds[i], news[i]);
    }
}

// ---------------------------------------------------------------------------
// The node on top of the stack
// ---------------------------------------------------------------------------

pub proof fn lemma_focus(m: Machine, x: PNode, y: PNode)
    requires
        m.has_focus(),
    ensures
        m.with_focus(x).has_focus(),
        m.with_focus(x).focus() == x,
        m.with_focus(x).with_focus(y) == m.with_focus(y),
        m.with_focus(m.focus()) == m,
{
    if m.loose.len() > 0 {
        assert(m.with_focus(x).with_focus(y).loose =~= m.with_focus(y).loose);
        assert(m.with_focus(m.focus()).loose =~= m.loose);
    }
}

/// The machine whose node on top of the stack is an element with the given
/// attributes and listeners.
pub open spec fn relabeled(
    m: Machine,
    attributes: Map<Seq<char>, Seq<char>>,
    listeners: Map<Seq<char>, u64>,
) -> Machine {
    let l = m.focus().label;
    m.with_focus(
        PNode {
            label: Label::Element {
                tag: l->tag,
                namespace: l->namespace,
                attributes,
                listeners,
            },
            ..m.focus()
        },
    )
}

/// Whether the node on top of the stack is an element.
pub open spec fn on_element(m: Machine) -> bool {
    m.has_focus() && m.focus().label is Element
}

pub proof fn lemma_relabeled(
    m: Machine,
    a: Map<Seq<char>, Seq<char>>,
    l: Map<Seq<char>, u64>,
    a2: Map<Seq<char>, Seq<char>>,
    l2: Map<Seq<char>, u64>,
)
    requires
        on_element(m),
    ensures
        on_element(relabeled(m, a, l)),
        relabeled(m, a, l).focus().label->attributes == a,
        relabeled(m, a, l).focus().label->listeners == l,
        relabeled(relabeled(m, a, l), a2, l2) == relabeled(m, a2, l2),
        relabeled(m, m.focus().label->attributes, m.focus().label->listeners) == m,
{
    let x = relabeled(m, a, l).focus();
    let y = relabeled(m, a2, l2).focus();
    lemma_focus(m, x, y);
    lemma_focus(m, y, x);
    lemma_focus(m, m.focus(), x);
}

/// The listeners that a node has after it gets some more.
pub open spec fn with_listeners(l: Map<Seq<char>, u64>, ls: Seq<Listener>) -> Map<Seq<char>, u64>
    decreases ls.len(),
{
    if ls.len() == 0 {
        l
    } else {
        with_listeners(l, ls.drop_last()).insert(ls.last().event@, ls.last().id)
    }
}

/// The attributes that a node has after it gets some more.
pub open spec fn with_attributes(
    a: Map<Seq<char>, Seq<char>>,
    attrs: Seq<Attribute>,
) -> Map<Seq<char>, Seq<char>>
    decreases attrs.len(),
{
    if attrs.len() == 0 {
        a
    } else {
        with_attributes(a, attrs.drop_last()).insert(attrs.last().name@, attrs.last().value@)
    }
}

pub proof fn lemma_with_listeners_empty(ls: Seq<Listener>)
    ensures
        with_listeners(Map::empty(), ls) == listener_map(ls),
    decreases ls.len(),
{
    if ls.len() > 0 {
        lemma_with_listeners_empty(ls.drop_last());
    }
}

proof fn lemma_with_attributes_empty(attrs: Seq<Attribute>)
    ensures
        with_attributes(Map::empty(), attrs) == attribute_map(attrs),
    decreases attrs.len(),
{
    if attrs.len() > 0 {
        lemma_with_attributes_empty(attrs.drop_last());
    }
}

pub proof fn lemma_add_listeners<'a>(m: Machine, ls: Seq<Listener<'a>>)
    requires
        on_element(m),
    ensures
        m.follow(add_listener_steps(ls)) == Some(
            relabeled(
                m,
                m.focus().label->attributes,
                with_listeners(m.focus().label->listeners, ls),
            ),
        ),
    decreases ls.len(),
{
    let a = m.focus().label->attributes;
    let l = m.focus().label->listeners;
    if ls.len() == 0 {
        assert(add_listener_steps(ls) =~= Seq::<Step<'a>>::empty());
        lemma_relabeled(m, a, l, a, l);
    } else {
        let init = ls.drop_last();
        lemma_add_listeners(m, init);
        assert(add_listener_steps(ls) =~= add_listener_steps(init).push(
            Step::Do(Edit::NewEventListener(ls.last())),
        ));
        lemma_relabeled(m, a, with_listeners(l, init), a, with_listeners(l, ls));
    }
}

proof fn lemma_add_attrs<'a>(m: Machine, attrs: Seq<Attribute<'a>>, ns: bool)
    requires
        on_element(m),
    ensures
        m.follow(add_attr_steps(attrs, ns)) == Some(
            relabeled(
                m,
                with_attributes(m.focus().label->attributes, attrs),
                m.focus().label->listeners,
            ),
        ),
    decreases attrs.len(),
{
    let a = m.focus().label->attributes;
    let l = m.focus().label->listeners;
    if attrs.len() == 0 {
        assert(add_attr_steps(attrs, ns) =~= Seq::<Step<'a>>::empty());
        lemma_relabeled(m, a, l, a, l);
    } else {
        let init = attrs.drop_last();
        let x = attrs.last();
        lemma_add_attrs(m, init, ns);
        assert(add_attr_steps(attrs, ns) =~= add_attr_steps(init, ns).push(
            Step::Do(Edit::SetAttribute { name: x.name, value: x.value, is_namespaced: ns }),
        ));
        lemma_relabeled(m, with_attributes(a, init), l, with_attributes(a, attrs), l);
    }
}

pub proof fn lemma_open_element<'a>(m: Machine, e: VElement<'a>)
    ensures
        m.follow(open_element_steps(e)) == Some(m.create(element_label(e))),
{
    let m1 = m.create(empty_element(e.tag_name@, optional_view(e.namespace)));
    assert(m.follow(seq![create_element_step(e)]) == Some(m1));
    lemma_add_listeners(m1, e.listeners@);
    let a0 = Map::<Seq<char>, Seq<char>>::empty();
    let l0 = Map::<Seq<char>, u64>::empty();
    let l1 = with_listeners(l0, e.listeners@);
    let m2 = relabeled(m1, a0, l1);
    lemma_relabeled(m1, a0, l1, attribute_map(e.attributes@), l1);
    lemma_add_attrs(m2, e.attributes@, e.namespace is Some);
    lemma_with_listeners_empty(e.listeners@);
    lemma_with_attributes_empty(e.attributes@);
    let m3 = relabeled(m1, attribute_map(e.attributes@), l1);
    assert(m3.loose =~= m.create(element_label(e)).loose);
}

// ---------------------------------------------------------------------------
// Creating
// ---------------------------------------------------------------------------

/// Beyond what it was, the machine has a new node on top of its stack, which
/// reflects the virtual node if that is clean.
pub open spec fn created(before: Machine, after: Machine, n: VNode) -> bool {
    &&& after.frames == before.frames
    &&& after.top == before.top
    &&& after.temps == before.temps
    &&& after.loose.len() == before.loose.len() + 1
    &&& after.loose.drop_last() == before.loose
    &&& after.loose.last() is New
    &&& before.fresh <= after.focus().id
    &&& clean(n) ==> reflects(after.focus(), n)
    &&& identified(after.focus(), after.fresh)
}

/// Beyond what it was, the machine has new nodes at the end of the children of
/// the node on top of its stack, one for each virtual node, which reflects that
/// if it is clean.
pub open spec fn appended(before: Machine, after: Machine, ns: Seq<VNode>) -> bool {
    let kids = before.focus().children;
    let added = after.focus().children.skip(kids.len() as int);
    &&& after.has_focus()
    &&& before.fresh <= after.fresh
    &&& after == (Machine { fresh: after.fresh, ..before }).with_focus(
        PNode { children: kids + added, ..before.focus() },
    )
    &&& added.len() == ns.len()
    &&& forall|i: int| 0 <= i < ns.len() && clean(#[trigger] ns[i]) ==> reflects(added[i], ns[i])
    &&& identified_all(added, after.fresh)
    &&& forall|i: int| 0 <= i < added.len() ==> before.fresh <= (#[trigger] added[i]).id
}

pub proof fn lemma_identified_mono(p: PNode, f: nat, g: nat)
    requires
        identified(p, f),
        f <= g,
    ensures
        identified(p, g),
    decreases p,
{
    assert forall|i: int| 0 <= i < p.children.len() implies identified(
        #[trigger] p.children[i],
        g,
    ) by {
        lemma_identified_mono(p.children[i], f, g);
    }
}

pub proof fn lemma_identified_all_mono(ps: Seq<PNode>, f: nat, g: nat)
    requires
        identified_all(ps, f),
        f <= g,
    ensures
        identified_all(ps, g),
{
    assert forall|i: int| 0 <= i < ps.len() implies identified(#[trigger] ps[i], g) by {
        lemma_identified_mono(ps[i], f, g);
    }
}

/// Creating a node puts it on top of the stack, whatever was on the stack.
pub proof fn lemma_create<'a>(m: Machine, n: VNode<'a>)
    requires
        renderable(n),
    ensures
        m.follow(create_steps(n)) matches Some(after) && created(m, after, n),
    decreases n,
{
    reveal(distinct);
    match n {
        VNode::Text(t) => {
            let after = m.create(Label::Text(t.text@));
            assert(m.follow(create_steps(n)) == Some(after));
            assert(after.loose.drop_last() =~= m.loose);
        },
        VNode::Element(e) => {
            lemma_open_element(m, e);
            let m1 = m.create(element_label(e));
            assert(m1.loose.drop_last() =~= m.loose);
            assert(clean(n) ==> clean_all(e.children@));
            if is_sole_text(e.children@) {
                let text = e.children@[0]->Text_0.text;
                let child = PNode {
                    id: m1.fresh,
                    label: Label::Text(text@),
                    children: Seq::empty(),
                };
                let after = m1.set_text(text@)->0;
                let x = after.focus();
                if text@.len() > 0 {
                    lemma_focus(
                        Machine { fresh: m1.fresh + 1, ..m1 },
                        PNode { children: seq![child], ..m1.focus() },
                        x,
                    );
                    assert(identified(child, after.fresh));
                    assert(reflects(child, e.children@[0]));
                    assert(reflects_all(x.children, e.children@));
                } else {
                    lemma_focus(m1, PNode { children: Seq::empty(), ..m1.focus() }, x);
                }
                assert(m.follow(create_steps(n)) == Some(after));
                assert(after.loose.drop_last() =~= m.loose);
                assert(identified_all(x.children, after.fresh));
            } else {
                lemma_append(m1, e.children@);
                let after = m1.follow(append_steps(e.children@))->0;
                let kids = m1.focus().children;
                let added = after.focus().children.skip(kids.len() as int);
                assert(kids + added =~= added);
                if clean(n) {
                    assert(reflects_all(added, e.children@));
                }
                lemma_focus(
                    Machine { fresh: after.fresh, ..m1 },
                    PNode { children: added, ..m1.focus() },
                    m1.focus(),
                );
                assert(after.loose.drop_last() =~= m.loose);
            }
        },
        _ => {},
    }
}

/// Creating nodes and appending them leaves the stack as it was and adds them
/// to the children of the node on top of it.
pub proof fn lemma_append<'a>(m: Machine, ns: Seq<VNode<'a>>)
    requires
        m.has_focus(),
        renderable_all(ns),
    ensures
        m.follow(append_steps(ns)) matches Some(after) && appended(m, after, ns),
    decreases ns,
{
    reveal(distinct);
    let kids = m.focus().children;
    if ns.len() == 0 {
        let none = kids.skip(kids.len() as int);
        assert(kids + none =~= kids);
        lemma_focus(m, m.focus(), m.focus());
    } else {
        let init = ns.drop_last();
        assert forall|i: int| 0 <= i < init.len() implies renderable(#[trigger] init[i]) by {
            assert(init[i] == ns[i]);
        }
        lemma_append(m, init);
        let m1 = m.follow(append_steps(init))->0;
        let added1 = m1.focus().children.skip(kids.len() as int);
        lemma_focus(
            Machine { fresh: m1.fresh, ..m },
            PNode { children: kids + added1, ..m.focus() },
            m.focus(),
        );
        assert(m1.focus().children == kids + added1);
        assert(renderable(ns[ns.len() - 1]));
        lemma_create(m1, ns.last());
        let m2 = m1.follow(create_steps(ns.last()))->0;
        let n = m2.focus();
        let below = Machine { loose: m2.loose.drop_last(), ..m2 };
        assert(below == Machine { fresh: m2.fresh, ..m1 });
        let x = PNode { children: below.focus().children.push(n), ..below.focus() };
        let after = below.with_focus(x);
        assert(m2.append_child() == Some(after));
        assert(m.follow(append_steps(ns)) == Some(after));
        lemma_focus(below, x, x);
        let added = after.focus().children.skip(kids.len() as int);
        assert(added =~= added1.push(n));
        assert(kids + added =~= (kids + added1).push(n));
        let base = Machine { fresh: after.fresh, ..m };
        assert(below == base.with_focus(PNode { children: kids + added1, ..m.focus() }));
        lemma_focus(base, PNode { children: kids + added1, ..m.focus() }, x);
        assert forall|i: int| 0 <= i < ns.len() && clean(#[trigger] ns[i]) implies reflects(
            added[i],
            ns[i],
        ) by {
            if i < ns.len() - 1 {
                assert(init[i] == ns[i]);
                assert(added[i] == added1[i]);
            }
        }
        lemma_identified_all_mono(added1, m1.fresh, m2.fresh);
        assert forall|i: int| 0 <= i < added.len() implies identified(
            #[trigger] added[i],
            after.fresh,
        ) && m.fresh <= added[i].id by {
            if i < added1.len() {
                assert(added[i] == added1[i]);
            }
        }
        assert(distinct(added)) by {
            assert forall|i: int, j: int|
                0 <= i < added.len() && 0 <= j < added.len() && i != j implies (
            #[trigger] added[i]).id != (#[trigger] added[j]).id by {
                if i < added1.len() {
                    assert(identified(added1[i], m1.fresh));
                }
                if j < added1.len() {
                    assert(identified(added1[j], m1.fresh));
                }
            }
        }
    }
}

// ---------------------------------------------------------------------------
// Listeners
// ---------------------------------------------------------------------------

pub proof fn lemma_listens_to_last(ls: Seq<Listener>, k: Seq<char>)
    requires
        ls.len() > 0,
    ensures
        listens_to(ls, k) <==> listens_to(ls.drop_last(), k) || ls.last().event@ == k,
{
    let init = ls.drop_last();
    if listens_to(ls, k) {
        let i = choose|i: int| 0 <= i < ls.len() && (#[trigger] ls[i]).event@ == k;
        if i < init.len() {
            assert(init[i].event@ == k);
        }
    }
    if listens_to(init, k) {
        let i = choose|i: int| 0 <= i < init.len() && (#[trigger] init[i]).event@ == k;
        assert(ls[i].event@ == k);
    }
    if ls.last().event@ == k {
        assert(ls[ls.len() - 1].event@ == k);
    }
}

pub proof fn lemma_with_listeners_at(l: Map<Seq<char>, u64>, ls: Seq<Listener>, k: Seq<char>)
    ensures
        with_listeners(l, ls).contains_key(k) <==> l.contains_key(k) || listens_to(ls, k),
        listener_map(ls).contains_key(k) <==> listens_to(ls, k),
        with_listeners(l, ls)[k] == if listens_to(ls, k) {
            listener_map(ls)[k]
        } else {
            l[k]
        },
    decreases ls.len(),
{
    if ls.len() > 0 {
        lemma_with_listeners_at(l, ls.drop_last(), k);
        lemma_listens_to_last(ls, k);
    }
}

/// The listeners that a node has after those to old events that are not new
/// ones are removed.
pub open spec fn without_listeners(
    l: Map<Seq<char>, u64>,
    old: Seq<Listener>,
    new: Seq<Listener>,
) -> Map<Seq<char>, u64>
    decreases old.len(),
{
    if old.len() == 0 {
        l
    } else if listens_to(new, old.last().event@) {
        without_listeners(l, old.drop_last(), new)
    } else {
        without_listeners(l, old.drop_last(), new).remove(old.last().event@)
    }
}

pub proof fn lemma_without_listeners_at(
    l: Map<Seq<char>, u64>,
    old: Seq<Listener>,
    new: Seq<Listener>,
    k: Seq<char>,
)
    ensures
        without_listeners(l, old, new).contains_key(k) <==> l.contains_key(k) && !(listens_to(
            old,
            k,
        ) && !listens_to(new, k)),
        without_listeners(l, old, new).contains_key(k) ==> without_listeners(l, old, new)[k]
            == l[k],
    decreases old.len(),
{
    if old.len() > 0 {
        lemma_without_listeners_at(l, old.drop_last(), new, k);
        lemma_listens_to_last(old, k);
    }
}

pub proof fn lemma_put_listeners<'a>(m: Machine, old: Seq<Listener<'a>>, new: Seq<Listener<'a>>)
    requires
        on_element(m),
    ensures
        m.follow(put_listener_steps(old, new)) == Some(
            relabeled(
                m,
                m.focus().label->attributes,
                with_listeners(m.focus().label->listeners, new),
            ),
        ),
    decreases new.len(),
{
    let a = m.focus().label->attributes;
    let l = m.focus().label->listeners;
    if new.len() == 0 {
        assert(put_listener_steps(old, new) =~= Seq::<Step<'a>>::empty());
        lemma_relabeled(m, a, l, a, l);
    } else {
        let init = new.drop_last();
        lemma_put_listeners(m, old, init);
        assert(put_listener_steps(old, new) =~= put_listener_steps(old, init).push(
            put_listener_step(old, new.last()),
        ));
        lemma_relabeled(m, a, with_listeners(l, init), a, with_listeners(l, new));
    }
}

pub proof fn lemma_drop_listeners<'a>(m: Machine, old: Seq<Listener<'a>>, new: Seq<Listener<'a>>)
    requires
        on_element(m),
    ensures
        m.follow(drop_listener_steps(old, new)) == Some(
            relabeled(
                m,
                m.focus().label->attributes,
                without_listeners(m.focus().label->listeners, old, new),
            ),
        ),
    decreases old.len(),
{
    reveal(Seq::filter);
    let a = m.focus().label->attributes;
    let l = m.focus().label->listeners;
    let f = |x: Listener<'a>| !listens_to(new, x.event@);
    if old.len() == 0 {
        assert(drop_listener_steps(old, new) =~= Seq::<Step<'a>>::empty());
        lemma_relabeled(m, a, l, a, l);
    } else {
        let init = old.drop_last();
        lemma_drop_listeners(m, init, new);
        lemma_relabeled(
            m,
            a,
            without_listeners(l, init, new),
            a,
            without_listeners(l, old, new),
        );
        if !listens_to(new, old.last().event@) {
            assert(old.filter(f) =~= init.filter(f).push(old.last()));
            assert(drop_listener_steps(old, new) =~= drop_listener_steps(init, new).push(
                Step::Do(Edit::RemoveEventListener(old.last().event)),
            ));
        }
    }
}

/// Diffing listeners turns the old listeners of the node on top of the stack
/// into the new ones, and changes nothing else.
pub proof fn lemma_listeners<'a>(m: Machine, old: Seq<Listener<'a>>, new: Seq<Listener<'a>>)
    requires
        on_element(m),
        m.focus().label->listeners == listener_map(old),
    ensures
        m.follow(listener_steps(old, new)) == Some(
            relabeled(m, m.focus().label->attributes, listener_map(new)),
        ),
{
    let a = m.focus().label->attributes;
    let l = listener_map(old);
    let l1 = with_listeners(l, new);
    let l2 = without_listeners(l1, old, new);
    lemma_put_listeners(m, old, new);
    lemma_relabeled(m, a, l1, a, l2);
    lemma_drop_listeners(relabeled(m, a, l1), old, new);
    assert forall|k: Seq<char>|
        #![trigger l2.dom().contains(k)]
        #![trigger listener_map(new).dom().contains(k)]
        l2.contains_key(k) == listener_map(new).contains_key(k) && (l2.contains_key(k) ==> l2[k]
            == listener_map(new)[k]) by {
        lemma_with_listeners_at(l, new, k);
        lemma_with_listeners_at(l, old, k);
        lemma_without_listeners_at(l1, old, new, k);
    }
    assert(l2 =~= listener_map(new));
}

// ---------------------------------------------------------------------------
// Attributes
// ---------------------------------------------------------------------------

pub proof fn lemma_has_name_last(attrs: Seq<Attribute>, k: Seq<char>)
    requires
        attrs.len() > 0,
    ensures
        has_name(attrs, k) <==> has_name(attrs.drop_last(), k) || attrs.last().name@ == k,
{
    let init = attrs.drop_last();
    if has_name(attrs, k) {
        let i = choose|i: int| 0 <= i < attrs.len() && (#[trigger] attrs[i]).name@ == k;
        if i < init.len() {
            assert(init[i].name@ == k);
        }
    }
    if has_name(init, k) {
        let i = choose|i: int| 0 <= i < init.len() && (#[trigger] init[i]).name@ == k;
        assert(attrs[i].name@ == k);
    }
    if attrs.last().name@ == k {
        assert(attrs[attrs.len() - 1].name@ == k);
    }
}

pub proof fn lemma_with_attributes_at(
    a: Map<Seq<char>, Seq<char>>,
    attrs: Seq<Attribute>,
    k: Seq<char>,
)
    ensures
        with_attributes(a, attrs).contains_key(k) <==> a.contains_key(k) || has_name(attrs, k),
        attribute_map(attrs).contains_key(k) <==> has_name(attrs, k),
        with_attributes(a, attrs)[k] == if has_name(attrs, k) {
            attribute_map(attrs)[k]
        } else {
            a[k]
        },
    decreases attrs.len(),
{
    if attrs.len() > 0 {
        lemma_with_attributes_at(a, attrs.drop_last(), k);
        lemma_has_name_last(attrs, k);
    }
}

pub proof fn lemma_unambiguous_value(attrs: Seq<Attribute>, i: int)
    requires
        unambiguous(attrs),
        0 <= i < attrs.len(),
    ensures
        attribute_map(attrs).contains_key(attrs[i].name@),
        attribute_map(attrs)[attrs[i].name@] == attrs[i].value@,
    decreases attrs.len(),
{
    let last = attrs[attrs.len() - 1];
    if last.name@ != attrs[i].name@ {
        let init = attrs.drop_last();
        assert(unambiguous(init)) by {
            assert forall|x: int, y: int|
                0 <= x < init.len() && 0 <= y < init.len() && (#[trigger] init[x]).name@ == (
                #[trigger] init[y]).name@ implies init[x].value@ == init[y].value@ by {
                assert(attrs[x].name@ == attrs[y].name@);
            }
        }
        lemma_unambiguous_value(init, i);
    } else {
        assert(last.value@ == attrs[i].value@);
    }
}

proof fn lemma_updated_at(old: Seq<Attribute>, new: Seq<Attribute>, k: Seq<char>)
    ensures
        updated(old, new).contains_key(k) <==> has_name(old, k) || has_name(new, k),
    decreases new.len(),
{
    lemma_with_attributes_at(Map::empty(), old, k);
    if new.len() > 0 {
        lemma_updated_at(old, new.drop_last(), k);
        lemma_has_name_last(new, k);
        let x = new.last();
        if !needs_set(old, x) {
            let i = choose|i: int| #[trigger]
                first_named(old, x.name@, i) && old[i].value@ == x.value@;
            assert(old[i].name@ == x.name@);
            assert(has_name(old, x.name@));
        }
    }
}

/// Attributes settle where no list has two values for one name.
pub proof fn lemma_settles(old: Seq<Attribute>, new: Seq<Attribute>)
    requires
        unambiguous(old),
        unambiguous(new),
    ensures
        settles(old, new),
{
    assert forall|i: int| 0 <= i < new.len() implies updated(old, new)[(#[trigger] new[i]).name@]
        == attribute_map(new)[new[i].name@] by {
        lemma_updated_value(old, new, i);
        lemma_unambiguous_value(new, i);
    }
}

proof fn lemma_updated_value(old: Seq<Attribute>, new: Seq<Attribute>, i: int)
    requires
        unambiguous(old),
        unambiguous(new),
        0 <= i < new.len(),
    ensures
        updated(old, new)[new[i].name@] == new[i].value@,
    decreases new.len(),
{
    let init = new.drop_last();
    let x = new[new.len() - 1];
    let k = new[i].name@;
    assert(unambiguous(init)) by {
        assert forall|i: int, j: int|
            0 <= i < init.len() && 0 <= j < init.len() && (#[trigger] init[i]).name@ == (
            #[trigger] init[j]).name@ implies init[i].value@ == init[j].value@ by {
            assert(new[i].name@ == new[j].name@);
        }
    }
    if needs_set(old, x) {
        if x.name@ != k {
            lemma_updated_value(old, init, i);
        } else {
            assert(x.value@ == new[i].value@);
        }
    } else if has_name(init, k) {
        let j = choose|j: int| 0 <= j < init.len() && (#[trigger] init[j]).name@ == k;
        lemma_updated_value(old, init, j);
        assert(new[j].name@ == new[i].name@);
    } else {
        assert(x.name@ == k) by {
            if i < init.len() {
                assert(init[i].name@ == k);
            }
        }
        let o = choose|o: int| #[trigger]
            first_named(old, x.name@, o) && old[o].value@ == x.value@;
        lemma_unambiguous_value(old, o);
        lemma_not_updated(old, init, k);
    }
}

proof fn lemma_not_updated(old: Seq<Attribute>, new: Seq<Attribute>, k: Seq<char>)
    requires
        !has_name(new, k),
    ensures
        updated(old, new)[k] == attribute_map(old)[k],
    decreases new.len(),
{
    if new.len() > 0 {
        lemma_has_name_last(new, k);
        lemma_not_updated(old, new.drop_last(), k);
    }
}

/// The attributes that a node has after the new ones are set that need to be,
/// whatever it had before.
pub open spec fn written(
    a: Map<Seq<char>, Seq<char>>,
    old: Seq<Attribute>,
    new: Seq<Attribute>,
) -> Map<Seq<char>, Seq<char>>
    decreases new.len(),
{
    if new.len() == 0 {
        a
    } else if needs_set(old, new.last()) {
        written(a, old, new.drop_last()).insert(new.last().name@, new.last().value@)
    } else {
        written(a, old, new.drop_last())
    }
}

pub proof fn lemma_written<'a>(
    m: Machine,
    old: Seq<Attribute<'a>>,
    new: Seq<Attribute<'a>>,
    ns: bool,
)
    requires
        on_element(m),
    ensures
        m.follow(set_attr_steps(old, new, ns)) == Some(
            relabeled(
                m,
                written(m.focus().label->attributes, old, new),
                m.focus().label->listeners,
            ),
        ),
    decreases new.len(),
{
    let a = m.focus().label->attributes;
    let l = m.focus().label->listeners;
    if new.len() == 0 {
        lemma_relabeled(m, a, l, a, l);
    } else {
        lemma_written(m, old, new.drop_last(), ns);
        lemma_relabeled(m, written(a, old, new.drop_last()), l, written(a, old, new), l);
    }
}

proof fn lemma_updated(old: Seq<Attribute>, new: Seq<Attribute>)
    ensures
        updated(old, new) == written(attribute_map(old), old, new),
    decreases new.len(),
{
    if new.len() > 0 {
        lemma_updated(old, new.drop_last());
    }
}

/// What is set is what it is, whatever was there before, and what is not set is
/// what it was.
proof fn lemma_written_same(
    a: Map<Seq<char>, Seq<char>>,
    b: Map<Seq<char>, Seq<char>>,
    old: Seq<Attribute>,
    new: Seq<Attribute>,
    k: Seq<char>,
)
    requires
        volatile_name(new, k) || (a.contains_key(k) == b.contains_key(k) && (a.contains_key(k)
            ==> a[k] == b[k])),
    ensures
        written(a, old, new).contains_key(k) == written(b, old, new).contains_key(k),
        written(a, old, new).contains_key(k) ==> written(a, old, new)[k] == written(
            b,
            old,
            new,
        )[k],
    decreases new.len(),
{
    if new.len() > 0 {
        let init = new.drop_last();
        if volatile_name(new, k) && !volatile_name(init, k) {
            let i = choose|i: int|
                0 <= i < new.len() && (#[trigger] new[i]).name@ == k && new[i].volatile;
            if i < init.len() {
                assert(init[i].name@ == k && init[i].volatile);
            }
        } else {
            lemma_written_same(a, b, old, init, k);
        }
    }
}

proof fn lemma_written_nearly(
    a: Map<Seq<char>, Seq<char>>,
    old: Seq<Attribute>,
    new: Seq<Attribute>,
)
    requires
        nearly_has(a, old, new),
    ensures
        written(a, old, new) == updated(old, new),
{
    lemma_updated(old, new);
    let w = written(a, old, new);
    let u = written(attribute_map(old), old, new);
    assert forall|k: Seq<char>|
        #![trigger w.dom().contains(k)]
        #![trigger u.dom().contains(k)]
        w.contains_key(k) == u.contains_key(k) && (w.contains_key(k) ==> w[k] == u[k]) by {
        assert(volatile_name(new, k) || a.contains_key(k) == attribute_map(old).contains_key(k));
        lemma_written_same(a, attribute_map(old), old, new, k);
    }
    assert(w =~= u);
}

/// The attributes that a node has after the old ones whose name is not a new
/// one are removed.
pub open spec fn without_attributes(
    a: Map<Seq<char>, Seq<char>>,
    old: Seq<Attribute>,
    new: Seq<Attribute>,
) -> Map<Seq<char>, Seq<char>>
    decreases old.len(),
{
    if old.len() == 0 {
        a
    } else if has_name(new, old.last().name@) {
        without_attributes(a, old.drop_last(), new)
    } else {
        without_attributes(a, old.drop_last(), new).remove(old.last().name@)
    }
}

pub proof fn lemma_without_attributes_at(
    a: Map<Seq<char>, Seq<char>>,
    old: Seq<Attribute>,
    new: Seq<Attribute>,
    k: Seq<char>,
)
    ensures
        without_attributes(a, old, new).contains_key(k) <==> a.contains_key(k) && !(has_name(old, k)
            && !has_name(new, k)),
        without_attributes(a, old, new).contains_key(k) ==> without_attributes(a, old, new)[k]
            == a[k],
    decreases old.len(),
{
    if old.len() > 0 {
        lemma_without_attributes_at(a, old.drop_last(), new, k);
        lemma_has_name_last(old, k);
    }
}

pub proof fn lemma_drop_attrs<'a>(m: Machine, old: Seq<Attribute<'a>>, new: Seq<Attribute<'a>>)
    requires
        on_element(m),
    ensures
        m.follow(drop_attr_steps(old, new)) == Some(
            relabeled(
                m,
                without_attributes(m.focus().label->attributes, old, new),
                m.focus().label->listeners,
            ),
        ),
    decreases old.len(),
{
    let a = m.focus().label->attributes;
    let l = m.focus().label->listeners;
    if old.len() == 0 {
        lemma_relabeled(m, a, l, a, l);
    } else {
        lemma_drop_attrs(m, old.drop_last(), new);
        lemma_relabeled(
            m,
            without_attributes(a, old.drop_last(), new),
            l,
            without_attributes(a, old, new),
            l,
        );
    }
}

/// The attributes that a node with the attributes `old` has after they are
/// diffed with `new`.
pub open spec fn diffed_attributes(old: Seq<Attribute>, new: Seq<Attribute>) -> Map<
    Seq<char>,
    Seq<char>,
> {
    without_attributes(updated(old, new), old, new)
}

/// Attributes that settle become the new ones.
pub proof fn lemma_diffed_attributes(old: Seq<Attribute>, new: Seq<Attribute>)
    requires
        settles(old, new),
    ensures
        diffed_attributes(old, new) == attribute_map(new),
{
    let a1 = updated(old, new);
    let a2 = diffed_attributes(old, new);
    assert forall|k: Seq<char>|
        #![trigger a2.dom().contains(k)]
        #![trigger attribute_map(new).dom().contains(k)]
        a2.contains_key(k) == attribute_map(new).contains_key(k) && (a2.contains_key(k) ==> a2[k]
            == attribute_map(new)[k]) by {
        lemma_updated_at(old, new, k);
        lemma_with_attributes_at(Map::empty(), new, k);
        lemma_without_attributes_at(a1, old, new, k);
        if has_name(new, k) {
            let i = choose|i: int| 0 <= i < new.len() && (#[trigger] new[i]).name@ == k;
            assert(a1[new[i].name@] == attribute_map(new)[new[i].name@]);
        }
    }
    assert(a2 =~= attribute_map(new));
}

/// Diffing attributes changes the attributes of the node on top of the stack,
/// and nothing else.
pub proof fn lemma_attrs<'a>(
    m: Machine,
    old: Seq<Attribute<'a>>,
    new: Seq<Attribute<'a>>,
    ns: bool,
)
    requires
        on_element(m),
        nearly_has(m.focus().label->attributes, old, new),
    ensures
        m.follow(attr_steps(old, new, ns)) == Some(
            relabeled(m, diffed_attributes(old, new), m.focus().label->listeners),
        ),
{
    let l = m.focus().label->listeners;
    let a1 = updated(old, new);
    lemma_written(m, old, new, ns);
    lemma_written_nearly(m.focus().label->attributes, old, new);
    lemma_relabeled(m, a1, l, diffed_attributes(old, new), l);
    lemma_drop_attrs(relabeled(m, a1, l), old, new);
}

} // verus!
