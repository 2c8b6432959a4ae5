//! What a diff asks of the change list.
//!
//! Each function here says, for one function of the diffing machine, which
//! steps it takes on the change list. None of them changes anything.
use crate::changelist::Edit;
use crate::changelist::Move;
use crate::changelist::Step;
use crate::keys::alike_keyed;
use crate::keys::count;
use crate::keys::has_key;
use crate::keys::lemma_run_end;
use crate::keys::none_reused;
use crate::keys::reused;
use crate::keys::run_end;
use crate::keys::shared_prefix;
use crate::keys::shared_suffix;
use crate::keys::sources;
use crate::keys::temp_of;
use crate::keys::uniquely_keyed;
use crate::lis::longest_increasing;
use crate::lis::picked;
use crate::vnode::Attribute;
use crate::vnode::Listener;
use crate::vnode::VElement;
use crate::vnode::VNode;
use crate::vnode::keeps_node;
use crate::vnode::lemma_size_index;
use crate::vnode::lemma_size_subrange;
use crate::vnode::renderable;
use crate::vnode::renderable_all;
use crate::vnode::same_type;
use crate::vnode::size;
use crate::vnode::size_all;
use vstd::prelude::*;

verus! {

/// Keep back a move.
pub open spec fn go<'a>(m: Move) -> Step<'a> {
    Step::Do(Edit::Go(m))
}

// ---------------------------------------------------------------------------
// Creating
// ---------------------------------------------------------------------------

/// Whether the children are one text and nothing else.
pub open spec fn is_sole_text(children: Seq<VNode>) -> bool {
    children.len() == 1 && children[0] is Text
}

/// Add listeners to the node on the stack.
pub open spec fn add_listener_steps<'a>(ls: Seq<Listener<'a>>) -> Seq<Step<'a>> {
    ls.map_values(|l: Listener<'a>| Step::Do(Edit::NewEventListener(l)))
}

/// Set attributes of the node on the stack.
pub open spec fn add_attr_steps<'a>(attrs: Seq<Attribute<'a>>, is_namespaced: bool) -> Seq<
    Step<'a>,
> {
    attrs.map_values(
        |a: Attribute<'a>|
            Step::Do(Edit::SetAttribute { name: a.name, value: a.value, is_namespaced }),
    )
}

/// Create an element without anything on it.
pub open spec fn create_element_step<'a>(e: VElement<'a>) -> Step<'a> {
    match e.namespace {
        Some(namespace) => Step::Do(Edit::CreateElementNs { tag_name: e.tag_name, namespace }),
        None => Step::Do(Edit::CreateElement(e.tag_name)),
    }
}

/// Create an element with its listeners and attributes, without children.
pub open spec fn open_element_steps<'a>(e: VElement<'a>) -> Seq<Step<'a>> {
    seq![create_element_step(e)] + add_listener_steps(e.listeners@) + add_attr_steps(
        e.attributes@,
        e.namespace is Some,
    )
}

/// Create a tree: `[...]` to `[... node]`.
pub open spec fn create_steps<'a>(n: VNode<'a>) -> Seq<Step<'a>>
    decreases n,
{
    match n {
        VNode::Text(t) => seq![Step::Do(Edit::CreateTextNode(t.text))],
        VNode::Element(e) => open_element_steps(e) + if is_sole_text(e.children@) {
            seq![Step::Do(Edit::SetText(e.children@[0]->Text_0.text))]
        } else {
            append_steps(e.children@)
        },
        _ => Seq::empty(),
    }
}

/// Create trees and append each to the node on the stack.
pub open spec fn append_steps<'a>(ns: Seq<VNode<'a>>) -> Seq<Step<'a>>
    decreases ns,
{
    if ns.len() == 0 {
        Seq::empty()
    } else {
        append_steps(ns.drop_last()) + create_steps(ns.last()).push(Step::Do(Edit::AppendChild))
    }
}

/// Remove the children of the node on the stack.
pub open spec fn clear_steps<'a>() -> Seq<Step<'a>> {
    seq![Step::Do(Edit::SetText(""))]
}

/// Remove the node on the stack and its next siblings.
pub open spec fn cut_steps<'a>() -> Seq<Step<'a>> {
    seq![Step::Do(Edit::RemoveSelfAndNextSiblings)]
}

// ---------------------------------------------------------------------------
// Listeners and attributes
// ---------------------------------------------------------------------------

/// Whether one of the listeners is for the event.
pub open spec fn listens_to(ls: Seq<Listener>, event: Seq<char>) -> bool {
    exists|i: int| 0 <= i < ls.len() && (#[trigger] ls[i]).event@ == event
}

/// Update a listener where the old node listens to its event, add it otherwise.
pub open spec fn put_listener_step<'a>(old: Seq<Listener<'a>>, l: Listener<'a>) -> Step<'a> {
    if listens_to(old, l.event@) {
        Step::Do(Edit::UpdateEventListener(l))
    } else {
        Step::Do(Edit::NewEventListener(l))
    }
}

/// Update or add the new listeners.
pub open spec fn put_listener_steps<'a>(
    old: Seq<Listener<'a>>,
    new: Seq<Listener<'a>>,
) -> Seq<Step<'a>> {
    new.map_values(|l: Listener<'a>| put_listener_step(old, l))
}

/// Remove the old listeners to events that the new node does not listen to.
pub open spec fn drop_listener_steps<'a>(
    old: Seq<Listener<'a>>,
    new: Seq<Listener<'a>>,
) -> Seq<Step<'a>> {
    old.filter(|l: Listener<'a>| !listens_to(new, l.event@)).map_values(
        |l: Listener<'a>| Step::Do(Edit::RemoveEventListener(l.event)),
    )
}

/// Turn the old listeners into the new ones.
pub open spec fn listener_steps<'a>(old: Seq<Listener<'a>>, new: Seq<Listener<'a>>) -> Seq<
    Step<'a>,
> {
    (if old.len() > 0 || new.len() > 0 {
        seq![Step::Commit]
    } else {
        Seq::empty()
    }) + put_listener_steps(old, new) + drop_listener_steps(old, new)
}

/// The attribute at `i` is the first one of the given name.
pub open spec fn first_named(attrs: Seq<Attribute>, name: Seq<char>, i: int) -> bool {
    &&& 0 <= i < attrs.len()
    &&& attrs[i].name@ == name
    &&& forall|k: int| 0 <= k < i ==> (#[trigger] attrs[k]).name@ != name
}

/// Whether one of the attributes has the name.
pub open spec fn has_name(attrs: Seq<Attribute>, name: Seq<char>) -> bool {
    exists|i: int| 0 <= i < attrs.len() && (#[trigger] attrs[i]).name@ == name
}

/// Whether an attribute has to be set: it is volatile, or the first old
/// attribute of its name does not have its value.
pub open spec fn needs_set(old: Seq<Attribute>, a: Attribute) -> bool {
    a.volatile || !exists|i: int| #[trigger]
        first_named(old, a.name@, i) && old[i].value@ == a.value@
}

/// Set the new attributes that have to be set.
pub open spec fn set_attr_steps<'a>(
    old: Seq<Attribute<'a>>,
    new: Seq<Attribute<'a>>,
    is_namespaced: bool,
) -> Seq<Step<'a>>
    decreases new.len(),
{
    if new.len() == 0 {
        Seq::empty()
    } else {
        let a = new.last();
        set_attr_steps(old, new.drop_last(), is_namespaced) + if needs_set(old, a) {
            seq![Step::Commit].push(
                Step::Do(Edit::SetAttribute { name: a.name, value: a.value, is_namespaced }),
            )
        } else {
            Seq::empty()
        }
    }
}

/// Remove the old attributes whose name no new one has.
pub open spec fn drop_attr_steps<'a>(old: Seq<Attribute<'a>>, new: Seq<Attribute<'a>>) -> Seq<
    Step<'a>,
>
    decreases old.len(),
{
    if old.len() == 0 {
        Seq::empty()
    } else {
        let a = old.last();
        drop_attr_steps(old.drop_last(), new) + if has_name(new, a.name@) {
            Seq::empty()
        } else {
            seq![Step::Commit].push(Step::Do(Edit::RemoveAttribute(a.name)))
        }
    }
}

/// Turn the old attributes into the new ones.
pub open spec fn attr_steps<'a>(
    old: Seq<Attribute<'a>>,
    new: Seq<Attribute<'a>>,
    is_namespaced: bool,
) -> Seq<Step<'a>> {
    set_attr_steps(old, new, is_namespaced) + drop_attr_steps(old, new)
}

// ---------------------------------------------------------------------------
// What can be diffed
// ---------------------------------------------------------------------------

/// Whether the children of a node can be turned into one text by setting the
/// text content of that node: the new child is one text, and the first old one
/// is not the same text.
pub open spec fn takes_text(olds: Seq<VNode>, news: Seq<VNode>) -> bool {
    is_sole_text(news) && !(olds.len() > 0 && olds[0] is Text && olds[0]->Text_0.text@
        == news[0]->Text_0.text@)
}

/// Whether `old` can be diffed with `new`: wherever the two trees are compared
/// or something is created there are only texts and elements, and siblings are
/// keyed as they have to be.
pub open spec fn can_diff(old: VNode, new: VNode) -> bool
    decreases size(old), 0nat,
{
    match (old, new) {
        (VNode::Text(_), VNode::Text(_)) => true,
        (VNode::Text(_), VNode::Element(_)) => renderable(new),
        (VNode::Element(_), VNode::Text(_)) => true,
        (VNode::Element(a), VNode::Element(b)) => if same_type(a, b) {
            can_diff_children(a.children@, b.children@)
        } else {
            renderable(new)
        },
        _ => false,
    }
}

/// Whether a list of children can be diffed with another one.
pub open spec fn can_diff_children(olds: Seq<VNode>, news: Seq<VNode>) -> bool
    decreases size_all(olds), 3nat,
{
    if news.len() == 0 || takes_text(olds, news) {
        true
    } else if olds.len() == 0 {
        renderable_all(news)
    } else {
        &&& alike_keyed(olds)
        &&& alike_keyed(news)
        &&& if olds[0].key() is Some && news[0].key() is Some {
            can_diff_keyed(olds, news)
        } else {
            can_diff_in_order(olds, news)
        }
    }
}

/// Whether the indices of the nodes between the shared prefix and the shared
/// suffix can be told from what stands for no index.
pub open spec fn middle_fits(olds: Seq<VNode>, news: Seq<VNode>) -> bool {
    let p = shared_prefix(olds, news);
    let s = shared_suffix(olds.skip(p), news.skip(p));
    p < olds.len() && p < news.len() ==> {
        &&& olds.len() - p - s <= u32::MAX
        &&& news.len() - p - s < u32::MAX
    }
}

/// Whether children with keys can be diffed.
#[verifier::opaque]
pub open spec fn can_diff_keyed(olds: Seq<VNode>, news: Seq<VNode>) -> bool
    decreases size_all(olds), 2nat,
{
    &&& uniquely_keyed(olds)
    &&& uniquely_keyed(news)
    &&& middle_fits(olds, news)
    &&& can_diff_by_key(olds, news)
}

/// Whether old and new nodes with the same key can be diffed, and new nodes
/// with a fresh key created.
pub open spec fn can_diff_by_key(olds: Seq<VNode>, news: Seq<VNode>) -> bool
    decreases size_all(olds), 1nat,
{
    proof {
        assert forall|i: int| 0 <= i < olds.len() implies #[trigger] size(olds[i]) <= size_all(
            olds,
        ) by {
            lemma_size_index(olds, i);
        }
    }
    &&& forall|i: int, j: int|
        #![trigger olds[i], news[j]]
        0 <= i < olds.len() && 0 <= j < news.len() && olds[i].key() == news[j].key() ==> can_diff(
            olds[i],
            news[j],
        )
    &&& forall|j: int|
        0 <= j < news.len() && !has_key(olds, (#[trigger] news[j]).key()) ==> renderable(news[j])
}

/// Whether the nodes at the same index can be diffed, and the new nodes beyond
/// the old ones created.
pub open spec fn can_diff_in_order(olds: Seq<VNode>, news: Seq<VNode>) -> bool
    decreases size_all(olds), 1nat,
{
    proof {
        assert forall|i: int| 0 <= i < olds.len() implies #[trigger] size(olds[i]) <= size_all(
            olds,
        ) by {
            lemma_size_index(olds, i);
        }
    }
    &&& forall|i: int|
        #![trigger olds[i], news[i]]
        0 <= i < olds.len() && i < news.len() ==> can_diff(olds[i], news[i])
    &&& forall|j: int| olds.len() <= j < news.len() ==> renderable(#[trigger] news[j])
}

// ---------------------------------------------------------------------------
// Diffing
// ---------------------------------------------------------------------------

/// Create a tree and put it in the place of the node on the stack.
pub open spec fn replace_steps<'a>(new: VNode<'a>) -> Seq<Step<'a>> {
    seq![Step::Commit] + create_steps(new) + seq![Step::Do(Edit::ReplaceWith)]
}

/// Diff two nodes, `t` being the first temporary that is not in use.
pub open spec fn node_steps<'a>(old: VNode<'a>, new: VNode<'a>, t: nat) -> Seq<Step<'a>>
    decreases size(old), 0nat, 0int,
{
    match (old, new) {
        (VNode::Text(a), VNode::Text(b)) => if a.text@ == b.text@ {
            Seq::empty()
        } else {
            seq![Step::Commit].push(Step::Do(Edit::SetText(b.text)))
        },
        (VNode::Element(a), VNode::Element(b)) => if same_type(a, b) {
            listener_steps(a.listeners@, b.listeners@) + attr_steps(
                a.attributes@,
                b.attributes@,
                b.namespace is Some,
            ) + children_steps(a.children@, b.children@, t)
        } else {
            replace_steps(new)
        },
        _ => replace_steps(new),
    }
}

/// Diff two lists of children.
pub open spec fn children_steps<'a>(olds: Seq<VNode<'a>>, news: Seq<VNode<'a>>, t: nat) -> Seq<
    Step<'a>,
>
    decreases size_all(olds), 8nat, 0int,
{
    if news.len() == 0 {
        if olds.len() == 0 {
            Seq::empty()
        } else {
            seq![Step::Commit] + clear_steps()
        }
    } else if takes_text(olds, news) {
        seq![Step::Commit].push(Step::Do(Edit::SetText(news[0]->Text_0.text)))
    } else if olds.len() == 0 {
        seq![Step::Commit] + append_steps(news)
    } else if olds[0].key() is Some && news[0].key() is Some {
        keyed_steps(olds, news, t) + seq![Step::Temp(t)]
    } else {
        in_order_steps(olds, news, t)
    }
}

/// Diff the first `n` nodes of the two lists, the physical nodes being the
/// children from `base` on.
pub open spec fn walk_steps<'a>(
    olds: Seq<VNode<'a>>,
    news: Seq<VNode<'a>>,
    base: int,
    n: int,
    t: nat,
) -> Seq<Step<'a>>
    decreases size_all(olds), 1nat, n,
{
    if n <= 0 || n > olds.len() {
        Seq::empty()
    } else {
        proof {
            lemma_size_index(olds, n - 1);
        }
        walk_steps(olds, news, base, n - 1, t).push(
            go(Move::ToSibling((base + n - 1) as usize)),
        ) + node_steps(olds[n - 1], news[n - 1], t)
    }
}

/// Diff children without keys.
pub open spec fn in_order_steps<'a>(olds: Seq<VNode<'a>>, news: Seq<VNode<'a>>, t: nat) -> Seq<
    Step<'a>,
>
    decreases size_all(olds), 2nat, 0int,
{
    let n = if olds.len() < news.len() {
        olds.len() as int
    } else {
        news.len() as int
    };
    seq![go(Move::Down)] + walk_steps(olds, news, 0, n, t) + if olds.len() > news.len() {
        seq![go(Move::ToSibling(news.len() as usize))].push(Step::Commit) + cut_steps()
    } else if olds.len() < news.len() {
        seq![go(Move::Up)].push(Step::Commit) + append_steps(news.skip(olds.len() as int))
    } else {
        seq![go(Move::Up)]
    }
}

/// Diff the nodes at the start of the two lists that have the same keys, and
/// finish where that is all of the old or all of the new nodes.
pub open spec fn prefix_steps<'a>(olds: Seq<VNode<'a>>, news: Seq<VNode<'a>>, t: nat) -> Seq<
    Step<'a>,
>
    decreases size_all(olds), 2nat, 0int,
{
    let p = shared_prefix(olds, news);
    seq![go(Move::Down)] + walk_steps(olds, news, 0, p, t) + if p == olds.len() {
        seq![go(Move::Up)].push(Step::Commit) + append_steps(news.skip(p))
    } else if p == news.len() {
        seq![go(Move::ToSibling(p as usize))].push(Step::Commit) + cut_steps()
    } else {
        seq![go(Move::Up)]
    }
}

/// Diff the nodes at the end of the two lists that have the same keys, the
/// physical nodes being the children from `base` on.
pub open spec fn suffix_steps<'a>(
    olds: Seq<VNode<'a>>,
    news: Seq<VNode<'a>>,
    base: int,
    t: nat,
) -> Seq<Step<'a>>
    decreases size_all(olds), 2nat, 0int,
{
    seq![go(Move::Down)] + walk_steps(olds, news, base, olds.len() as int, t) + seq![go(Move::Up)]
}

/// Save each run of reused nodes from the index `start` on, the physical nodes
/// being the children from `base` on.
pub open spec fn save_steps<'a>(flags: Seq<bool>, start: int, base: int, t: nat) -> Seq<Step<'a>>
    decreases flags.len() - start,
{
    if start < 0 || start > flags.len() {
        Seq::empty()
    } else {
        proof {
            lemma_run_end(flags, start);
        }
        let end = run_end(flags, start);
        let here: Seq<Step<'a>> = if end > start {
            seq![Step::Commit].push(
                Step::Do(
                    Edit::SaveChildrenToTemporaries {
                        temp: t as u32,
                        start: (base + start) as usize,
                        end: (base + end) as usize,
                    },
                ),
            )
        } else {
            Seq::empty()
        };
        if end >= flags.len() {
            here
        } else {
            here + save_steps(flags, end + 1, base, (t + (end - start)) as nat)
        }
    }
}

/// Remove the nodes before the index `n` that are not reused, the last one
/// first, the physical nodes being the children from `base` on.
pub open spec fn drop_steps<'a>(flags: Seq<bool>, n: int, base: int) -> Seq<Step<'a>>
    decreases n,
{
    if n <= 0 || n > flags.len() {
        Seq::empty()
    } else {
        (if flags[n - 1] {
            Seq::empty()
        } else {
            seq![Step::Commit].push(Step::Do(Edit::RemoveChild((base + n - 1) as usize)))
        }) + drop_steps(flags, n - 1, base)
    }
}

/// The old node that has the key of the new node at `j`, if there is one.
pub open spec fn has_source(olds: Seq<VNode>, news: Seq<VNode>, j: int) -> bool {
    sources(olds, news)[j] < olds.len()
}

/// Diff the old node with the key of the new node at `j` with that node.
pub open spec fn source_steps<'a>(
    olds: Seq<VNode<'a>>,
    news: Seq<VNode<'a>>,
    j: int,
    t: nat,
) -> Seq<Step<'a>>
    decreases size_all(olds), 1nat, 0int,
{
    let i = sources(olds, news)[j] as int;
    if 0 <= i < olds.len() {
        proof {
            lemma_size_index(olds, i);
        }
        node_steps(olds[i], news[j], t)
    } else {
        Seq::empty()
    }
}

/// The temporary of the old node that has the key of the new node at `j`.
pub open spec fn source_temp(olds: Seq<VNode>, news: Seq<VNode>, j: int, t: nat) -> u32 {
    temp_of(reused(olds, news), t, sources(olds, news)[j] as int) as u32
}

/// The first temporary that is not in use after the reused nodes are saved.
pub open spec fn temps_end(olds: Seq<VNode>, news: Seq<VNode>, t: nat) -> nat {
    t + count(reused(olds, news))
}

/// Get a node on the stack that the others can be inserted before: `[... parent]`
/// to `[... parent node]`. With a shared suffix that is its first node, now the
/// child at `anchor`. Without one it is the last new node.
pub open spec fn anchor_steps<'a>(
    olds: Seq<VNode<'a>>,
    news: Seq<VNode<'a>>,
    lis: Set<usize>,
    with_suffix: bool,
    anchor: int,
    t: nat,
) -> Seq<Step<'a>>
    decreases size_all(olds), 2nat, 0int,
{
    let last = news.len() - 1;
    if with_suffix {
        seq![go(Move::DownToChild(anchor as usize))]
    } else if has_source(olds, news, last) {
        let temp = source_temp(olds, news, last, t);
        seq![go(Move::DownToTempChild(temp))] + source_steps(
            olds,
            news,
            last,
            temps_end(olds, news, t),
        ) + if lis.contains(last as usize) {
            Seq::empty()
        } else {
            // a node that was replaced is not the one that was saved
            seq![Step::Commit].push(Step::Do(Edit::AppendChild)).push(
                if keeps_node(olds[sources(olds, news)[last] as int], news[last]) {
                    go(Move::DownToTempChild(temp))
                } else {
                    go(Move::DownToReverseChild(0))
                },
            )
        }
    } else {
        seq![Step::Commit] + create_steps(news[last]) + seq![Step::Do(Edit::AppendChild)].push(
            go(Move::DownToReverseChild(0)),
        )
    }
}

/// Put the new node at `j` before the node on the stack: create it, or diff
/// the old node with its key, which is moved unless it is of the increasing
/// subsequence.
pub open spec fn place_one_steps<'a>(
    olds: Seq<VNode<'a>>,
    news: Seq<VNode<'a>>,
    lis: Set<usize>,
    j: int,
    t: nat,
) -> Seq<Step<'a>>
    decreases size_all(olds), 2nat, 0int,
{
    if has_source(olds, news, j) {
        let temp = source_temp(olds, news, j, t);
        (if lis.contains(j as usize) {
            seq![go(Move::ToTempSibling(temp))]
        } else {
            seq![Step::Commit].push(Step::Do(Edit::PushTemporary(temp))).push(
                Step::Do(Edit::InsertBefore),
            )
        }) + source_steps(olds, news, j, temps_end(olds, news, t))
    } else {
        seq![Step::Commit] + create_steps(news[j]) + seq![Step::Do(Edit::InsertBefore)]
    }
}

/// Put the new nodes before the index `k` before the node on the stack, the
/// last one first.
pub open spec fn place_steps<'a>(
    olds: Seq<VNode<'a>>,
    news: Seq<VNode<'a>>,
    lis: Set<usize>,
    k: int,
    t: nat,
) -> Seq<Step<'a>>
    decreases size_all(olds), 3nat, k,
{
    if k <= 0 {
        Seq::empty()
    } else {
        place_one_steps(olds, news, lis, k - 1, t) + place_steps(olds, news, lis, k - 1, t)
    }
}

/// Bring the reused and the fresh nodes into the new order.
pub open spec fn settle_steps<'a>(
    olds: Seq<VNode<'a>>,
    news: Seq<VNode<'a>>,
    lis: Set<usize>,
    with_suffix: bool,
    anchor: int,
    t: nat,
) -> Seq<Step<'a>>
    decreases size_all(olds), 4nat, 0int,
{
    anchor_steps(olds, news, lis, with_suffix, anchor, t) + place_steps(
        olds,
        news,
        lis,
        if with_suffix {
            news.len() as int
        } else {
            news.len() - 1
        },
        t,
    ) + seq![go(Move::Up)]
}

/// Where the first node of the shared suffix is once the nodes that are not
/// reused are removed, given where it was.
pub open spec fn anchor_of(olds: Seq<VNode>, news: Seq<VNode>, suffix_start: int) -> int {
    suffix_start - (olds.len() - count(reused(olds, news)))
}

/// Diff the nodes between the shared prefix and the shared suffix, where the
/// indices in `lis` pick the nodes that stay in place.
pub open spec fn middle_steps_with<'a>(
    olds: Seq<VNode<'a>>,
    news: Seq<VNode<'a>>,
    prefix: int,
    suffix: int,
    suffix_start: int,
    lis: Set<usize>,
    t: nat,
) -> Seq<Step<'a>>
    decreases size_all(olds), 5nat, 0int,
{
    if suffix == 0 && none_reused(olds, news) {
        (if prefix == 0 {
            seq![Step::Commit] + clear_steps()
        } else {
            seq![go(Move::DownToChild(prefix as usize))].push(Step::Commit) + cut_steps()
        }) + append_steps(news)
    } else {
        let flags = reused(olds, news);
        let settle = if news.len() == 0 {
            Seq::empty()
        } else {
            settle_steps(olds, news, lis, suffix > 0, anchor_of(olds, news, suffix_start), t)
        };
        save_steps(flags, 0, prefix, t) + drop_steps(flags, flags.len() as int, prefix) + settle
    }
}

/// Diff the nodes between the shared prefix and the shared suffix.
#[verifier::opaque]
pub open spec fn middle_steps<'a>(
    olds: Seq<VNode<'a>>,
    news: Seq<VNode<'a>>,
    prefix: int,
    suffix: int,
    suffix_start: int,
    t: nat,
) -> Seq<Step<'a>>
    decreases size_all(olds), 6nat, 0int,
{
    middle_steps_with(
        olds,
        news,
        prefix,
        suffix,
        suffix_start,
        picked(sources(olds, news)),
        t,
    )
}

/// Where nodes between the shared prefix and the shared suffix are brought into
/// a new order, those that are left in place are as many as can be.
#[verifier::opaque]
pub open spec fn keyed_picks_longest(olds: Seq<VNode>, news: Seq<VNode>) -> bool {
    let p = shared_prefix(olds, news);
    let s = shared_suffix(olds.skip(p), news.skip(p));
    p < olds.len() && p < news.len() ==> middle_picks_longest(
        olds.subrange(p, olds.len() - s),
        news.subrange(p, news.len() - s),
        s,
    )
}

/// Where nodes are brought into a new order, with so many nodes behind them,
/// those that are left in place are as many as can be.
pub open spec fn middle_picks_longest(olds: Seq<VNode>, news: Seq<VNode>, suffix: int) -> bool {
    !(suffix == 0 && none_reused(olds, news)) && news.len() > 0 ==> longest_increasing(
        sources(olds, news),
        picked(sources(olds, news)),
    )
}

/// Diff children with keys.
pub open spec fn keyed_steps<'a>(olds: Seq<VNode<'a>>, news: Seq<VNode<'a>>, t: nat) -> Seq<
    Step<'a>,
>
    decreases size_all(olds), 7nat, 0int,
{
    let p = shared_prefix(olds, news);
    if p == olds.len() || p == news.len() {
        prefix_steps(olds, news, t)
    } else {
        prefix_steps(olds, news, t) + beyond_prefix_steps(olds, news, p, t)
    }
}

/// Diff what follows the shared prefix of children with keys.
#[verifier::opaque]
pub open spec fn beyond_prefix_steps<'a>(
    olds: Seq<VNode<'a>>,
    news: Seq<VNode<'a>>,
    p: int,
    t: nat,
) -> Seq<Step<'a>>
    decreases size_all(olds), 6nat, 1int,
{
    if 0 <= p <= olds.len() && p <= news.len() {
        let s = shared_suffix(olds.skip(p), news.skip(p));
        let old_start = olds.len() - s;
        let new_start = news.len() - s;
        if 0 <= s && p <= old_start && p <= new_start {
            proof {
                lemma_size_subrange(olds, p, old_start);
                lemma_size_subrange(olds, old_start, olds.len() as int);
            }
            let mid = olds.subrange(p, old_start);
            let new_mid = news.subrange(p, new_start);
            middle_steps(mid, new_mid, p, s, old_start, t) + if s > 0 {
                suffix_steps(
                    olds.subrange(old_start, olds.len() as int),
                    news.subrange(new_start, news.len() as int),
                    new_start,
                    temps_end(mid, new_mid, t),
                )
            } else {
                Seq::empty()
            }
        } else {
            Seq::empty()
        }
    } else {
        Seq::empty()
    }
}

pub proof fn lemma_keyed_steps<'a>(olds: Seq<VNode<'a>>, news: Seq<VNode<'a>>, t: nat)
    ensures
        keyed_steps(olds, news, t) == {
            let p = shared_prefix(olds, news);
            if p == olds.len() || p == news.len() {
                prefix_steps(olds, news, t)
            } else {
                prefix_steps(olds, news, t) + beyond_prefix_steps(olds, news, p, t)
            }
        },
{
    reveal(beyond_prefix_steps);
}

pub proof fn lemma_beyond_prefix_steps<'a>(
    olds: Seq<VNode<'a>>,
    news: Seq<VNode<'a>>,
    p: int,
    s: int,
    t: nat,
)
    requires
        s == shared_suffix(olds.skip(p), news.skip(p)),
        0 <= s,
        0 <= p <= olds.len() - s,
        p <= news.len() - s,
    ensures
        beyond_prefix_steps(olds, news, p, t) == {
            let mid = olds.subrange(p, olds.len() - s);
            let new_mid = news.subrange(p, news.len() - s);
            middle_steps(mid, new_mid, p, s, olds.len() - s, t) + if s > 0 {
                suffix_steps(
                    olds.subrange(olds.len() - s, olds.len() as int),
                    news.subrange(news.len() - s, news.len() as int),
                    news.len() - s,
                    temps_end(mid, new_mid, t),
                )
            } else {
                Seq::empty()
            }
        },
{
    reveal(beyond_prefix_steps);
    reveal(middle_steps);
}

} // verus!
