//! Whether instructions fit the node that they are for.
//!
//! A listener is added where the node does not listen to the event yet, and
//! updated or removed where it does. An attribute is removed where the node has
//! it.
use crate::changelist::Edit;
use crate::changelist::Step;
use crate::dom::Machine;
use crate::dom::lemma_follow_add;
use crate::dom::lemma_follow_push;
use crate::laws::basic::on_element;
use crate::vnode::Attribute;
use crate::vnode::Listener;
use crate::vnode::VNode;
use vstd::prelude::*;

verus! {

/// Whether an instruction fits the node on top of the stack.
pub open spec fn proper(m: Machine, e: Edit) -> bool {
    match e {
        Edit::NewEventListener(l) => on_element(m) && !m.focus().label->listeners.contains_key(
            l.event@,
        ),
        Edit::UpdateEventListener(l) => on_element(m) && m.focus().label->listeners.contains_key(
            l.event@,
        ),
        Edit::RemoveEventListener(event) => on_element(m)
            && m.focus().label->listeners.contains_key(event@),
        Edit::RemoveAttribute(name) => on_element(m) && m.focus().label->attributes.contains_key(
            name@,
        ),
        _ => true,
    }
}

/// Whether a machine that follows the steps can carry out each instruction, and
/// each fits the node that is then on top of the stack.
#[verifier::opaque]
pub open spec fn all_proper(m: Machine, steps: Seq<Step>) -> bool
    decreases steps.len(),
{
    steps.len() > 0 ==> all_proper(m, steps.drop_last()) && match (
        m.follow(steps.drop_last()),
        steps.last(),
    ) {
        (Some(x), Step::Do(e)) => x.execute(e) is Some && proper(x, e),
        (Some(_), _) => true,
        (None, _) => false,
    }
}

/// Whether no two of the listeners are for one event.
pub open spec fn one_per_event(ls: Seq<Listener>) -> bool {
    forall|i: int, j: int|
        0 <= i < j < ls.len() ==> (#[trigger] ls[i]).event@ != (#[trigger] ls[j]).event@
}

/// Whether no two of the attributes have one name.
pub open spec fn one_per_name(attrs: Seq<Attribute>) -> bool {
    forall|i: int, j: int|
        0 <= i < j < attrs.len() ==> (#[trigger] attrs[i]).name@ != (#[trigger] attrs[j]).name@
}

/// Whether no element of a tree has two listeners for one event, or two
/// attributes of one name.
pub open spec fn tidy(n: VNode) -> bool
    decreases n,
{
    match n {
        VNode::Element(e) => one_per_event(e.listeners@) && one_per_name(e.attributes@)
            && tidy_all(e.children@),
        _ => true,
    }
}

/// Whether no element of some trees has two listeners for one event, or two
/// attributes of one name.
pub open spec fn tidy_all(ns: Seq<VNode>) -> bool
    decreases ns,
{
    forall|i: int| 0 <= i < ns.len() ==> tidy(#[trigger] ns[i])
}

pub broadcast proof fn lemma_proper_empty<'a>(m: Machine)
    ensures
        #[trigger] all_proper(m, Seq::<Step<'a>>::empty()),
{
    reveal(all_proper);
}

pub broadcast proof fn lemma_proper_push<'a>(m: Machine, a: Seq<Step<'a>>, x: Step<'a>)
    ensures
        #[trigger] all_proper(m, a.push(x)) == (all_proper(m, a) && match (m.follow(a), x) {
            (Some(y), Step::Do(e)) => y.execute(e) is Some && proper(y, e),
            (Some(_), _) => true,
            (None, _) => false,
        }),
{
    reveal(all_proper);
    assert(a.push(x).drop_last() =~= a);
}

pub broadcast proof fn lemma_proper_add<'a>(m: Machine, a: Seq<Step<'a>>, b: Seq<Step<'a>>)
    requires
        m.follow(a) is Some,
    ensures
        #[trigger] all_proper(m, a + b) == (all_proper(m, a) && all_proper(m.follow(a)->0, b)),
    decreases b.len(),
{
    reveal(all_proper);
    if b.len() == 0 {
        assert(a + b =~= a);
    } else {
        assert((a + b).drop_last() =~= a + b.drop_last());
        lemma_proper_add(m, a, b.drop_last());
        lemma_follow_add(m, a, b.drop_last());
    }
}

/// Whether a step is neither for a listener nor removes an attribute.
pub open spec fn is_plain(step: Step) -> bool {
    match step {
        Step::Do(Edit::NewEventListener(_)) => false,
        Step::Do(Edit::UpdateEventListener(_)) => false,
        Step::Do(Edit::RemoveEventListener(_)) => false,
        Step::Do(Edit::RemoveAttribute(_)) => false,
        _ => true,
    }
}

pub proof fn lemma_proper_plain<'a>(m: Machine, steps: Seq<Step<'a>>)
    requires
        m.follow(steps) is Some,
        forall|i: int| 0 <= i < steps.len() ==> is_plain(#[trigger] steps[i]),
    ensures
        all_proper(m, steps),
    decreases steps.len(),
{
    reveal(all_proper);
    if steps.len() > 0 {
        let init = steps.drop_last();
        assert(steps =~= init.push(steps.last()));
        lemma_follow_push(m, init, steps.last());
        assert(is_plain(steps[steps.len() - 1]));
        lemma_proper_plain(m, init);
    }
}

pub proof fn lemma_proper_joined<'a>(m: Machine, a: Seq<Step<'a>>, b: Seq<Step<'a>>)
    requires
        m.follow(a) is Some,
        all_proper(m, a),
        all_proper(m.follow(a)->0, b),
    ensures
        all_proper(m, a + b),
{
    lemma_proper_add(m, a, b);
}

/// Whether no element of the old and of the new trees has two listeners for one
/// event, or two attributes of one name.
pub open spec fn neat(olds: Seq<VNode>, news: Seq<VNode>) -> bool {
    tidy_all(olds) && tidy_all(news)
}

} // verus!
