//! The diffing machine.
use crate::changelist::Edit;
use crate::changelist::EditList;
use crate::changelist::Step;
use crate::changelist::lemma_perform_add;
use crate::changelist::lemma_perform_empty;
use crate::changelist::lemma_perform_push;
use crate::fx::map_get;
use crate::fx::map_insert;
use crate::fx::set_contains;
use crate::fx::set_insert;
use crate::keys::count;
use crate::keys::has_key;
use crate::keys::index_of_key;
use crate::keys::lemma_count_below;
use crate::keys::lemma_count_le;
use crate::keys::lemma_count_none;
use crate::keys::lemma_count_run;
use crate::keys::lemma_count_take;
use crate::keys::lemma_index_of_key;
use crate::keys::lemma_prefix_from;
use crate::keys::lemma_run_end;
use crate::keys::lemma_sources;
use crate::keys::lemma_suffix_from;
use crate::keys::no_index;
use crate::keys::none_reused;
use crate::keys::prefix_from;
use crate::keys::reused;
use crate::keys::run_end;
use crate::keys::shared_prefix;
use crate::keys::shared_suffix;
use crate::keys::sources;
use crate::keys::suffix_from;
use crate::keys::temp_of;
use crate::keys::uniquely_keyed;
use crate::lis::longest_increasing_subsequence_of;
use crate::slots::lemma_slots_beyond_prefix;
use crate::slots::lemma_slots_children;
use crate::slots::lemma_slots_keyed;
use crate::slots::lemma_slots_sources;
use crate::slots::lemma_slots_walk;
use crate::slots::shorter;
use crate::slots::slots;
use crate::slots::slots_beyond_prefix;
use crate::slots::slots_children;
use crate::slots::slots_keyed;
use crate::slots::slots_middle;
use crate::slots::slots_sources;
use crate::slots::slots_walk;
use crate::steps::add_attr_steps;
use crate::steps::add_listener_steps;
use crate::steps::anchor_of;
use crate::steps::anchor_steps;
use crate::steps::append_steps;
use crate::steps::attr_steps;
use crate::steps::beyond_prefix_steps;
use crate::steps::can_diff;
use crate::steps::can_diff_children;
use crate::steps::can_diff_in_order;
use crate::steps::can_diff_keyed;
use crate::steps::children_steps;
use crate::steps::clear_steps;
use crate::steps::create_element_step;
use crate::steps::create_steps;
use crate::steps::cut_steps;
use crate::steps::drop_attr_steps;
use crate::steps::drop_listener_steps;
use crate::steps::drop_steps;
use crate::steps::first_named;
use crate::steps::has_name;
use crate::steps::in_order_steps;
use crate::steps::is_sole_text;
use crate::steps::keyed_picks_longest;
use crate::steps::keyed_steps;
use crate::steps::lemma_beyond_prefix_steps;
use crate::steps::lemma_keyed_steps;
use crate::steps::listener_steps;
use crate::steps::listens_to;
use crate::steps::middle_fits;
use crate::steps::middle_picks_longest;
use crate::steps::middle_steps;
use crate::steps::needs_set;
use crate::steps::node_steps;
use crate::steps::open_element_steps;
use crate::steps::place_one_steps;
use crate::steps::place_steps;
use crate::steps::prefix_steps;
use crate::steps::put_listener_step;
use crate::steps::put_listener_steps;
use crate::steps::replace_steps;
use crate::steps::save_steps;
use crate::steps::set_attr_steps;
use crate::steps::settle_steps;
use crate::steps::source_temp;
use crate::steps::suffix_steps;
use crate::steps::temps_end;
use crate::steps::walk_steps;
use crate::vnode::Attribute;
use crate::vnode::Listener;
use crate::vnode::VNode;
use crate::vnode::equal_optional_str;
use crate::vnode::keeps_node;
use crate::vnode::lemma_size_index;
use crate::vnode::lemma_size_subrange;
use crate::vnode::renderable;
use crate::vnode::renderable_all;
use crate::vnode::same_str;
use crate::vnode::size;
use crate::vnode::size_all;
use fxhash::FxHashMap;
use fxhash::FxHashSet;
use generational_arena::Index;
use vstd::prelude::*;
use vstd::slice::slice_subrange;

verus! {

broadcast use {lemma_perform_empty, lemma_perform_push, lemma_perform_add};

/// `generational_arena::Index`, as an opaque type.
#[verifier::external_type_specification]
#[verifier::external_body]
pub struct ExIndex(generational_arena::Index);

/// A cursor that keeps its state while trees of components are diffed.
///
/// The edits of several diffs go into one change list. Which components are
/// queued, diffed, or still to be diffed is kept beside it.
pub struct DiffingMachine<'a> {
    pub change_list: EditList<'a>,
    pub immediate_queue: Vec<Index>,
    pub diffed: FxHashSet<Index>,
    pub need_to_diff: FxHashSet<Index>,
}

/// Why a component has to be diffed.
#[derive(Clone, Copy, Debug, PartialEq, Eq)]
pub enum NeedToDiff {
    PropsChanged,
    Subscription,
}

proof fn lemma_add_listener_push<'a>(ls: Seq<Listener<'a>>, i: int)
    requires
        0 <= i < ls.len(),
    ensures
        add_listener_steps(ls.take(i + 1)) == add_listener_steps(ls.take(i)).push(
            Step::Do(Edit::NewEventListener(ls[i])),
        ),
{
    assert(add_listener_steps(ls.take(i + 1)) =~= add_listener_steps(ls.take(i)).push(
        Step::Do(Edit::NewEventListener(ls[i])),
    ));
}

proof fn lemma_add_attr_push<'a>(attrs: Seq<Attribute<'a>>, ns: bool, i: int)
    requires
        0 <= i < attrs.len(),
    ensures
        add_attr_steps(attrs.take(i + 1), ns) == add_attr_steps(attrs.take(i), ns).push(
            Step::Do(
                Edit::SetAttribute {
                    name: attrs[i].name,
                    value: attrs[i].value,
                    is_namespaced: ns,
                },
            ),
        ),
{
    assert(add_attr_steps(attrs.take(i + 1), ns) =~= add_attr_steps(attrs.take(i), ns).push(
        Step::Do(
            Edit::SetAttribute { name: attrs[i].name, value: attrs[i].value, is_namespaced: ns },
        ),
    ));
}

proof fn lemma_put_listener_push<'a>(old: Seq<Listener<'a>>, new: Seq<Listener<'a>>, i: int)
    requires
        0 <= i < new.len(),
    ensures
        put_listener_steps(old, new.take(i + 1)) == put_listener_steps(old, new.take(i)).push(
            put_listener_step(old, new[i]),
        ),
{
    assert(put_listener_steps(old, new.take(i + 1)) =~= put_listener_steps(old, new.take(i)).push(
        put_listener_step(old, new[i]),
    ));
}

proof fn lemma_drop_listener_push<'a>(old: Seq<Listener<'a>>, new: Seq<Listener<'a>>, i: int)
    requires
        0 <= i < old.len(),
    ensures
        drop_listener_steps(old.take(i + 1), new) == if listens_to(new, old[i].event@) {
            drop_listener_steps(old.take(i), new)
        } else {
            drop_listener_steps(old.take(i), new).push(
                Step::Do(Edit::RemoveEventListener(old[i].event)),
            )
        },
{
    reveal(Seq::filter);
    let f = |l: Listener<'a>| !listens_to(new, l.event@);
    assert(old.take(i + 1).drop_last() =~= old.take(i));
    assert(old.take(i + 1).last() == old[i]);
    if !listens_to(new, old[i].event@) {
        assert(old.take(i + 1).filter(f) =~= old.take(i).filter(f).push(old[i]));
        assert(drop_listener_steps(old.take(i + 1), new) =~= drop_listener_steps(
            old.take(i),
            new,
        ).push(Step::Do(Edit::RemoveEventListener(old[i].event))));
    }
}

/// Whether one of the listeners is for the event.
fn has_listener(ls: &[Listener], event: &str) -> (r: bool)
    ensures
        r == listens_to(ls@, event@),
{
    let mut i: usize = 0;
    while i < ls.len()
        invariant
            i <= ls.len(),
            forall|k: int| 0 <= k < i ==> (#[trigger] ls@[k]).event@ != event@,
        decreases ls.len() - i,
    {
        if same_str(ls[i].event, event) {
            proof {
                assert(ls@[i as int].event@ == event@);
            }
            return true;
        }
        i += 1;
    }
    false
}

/// Whether one of the attributes has the name.
fn has_attr(attrs: &[Attribute], name: &str) -> (r: bool)
    ensures
        r == has_name(attrs@, name@),
{
    let mut i: usize = 0;
    while i < attrs.len()
        invariant
            i <= attrs.len(),
            forall|k: int| 0 <= k < i ==> (#[trigger] attrs@[k]).name@ != name@,
        decreases attrs.len() - i,
    {
        if same_str(attrs[i].name, name) {
            proof {
                assert(attrs@[i as int].name@ == name@);
            }
            return true;
        }
        i += 1;
    }
    false
}

/// Whether a new attribute has to be set.
fn has_to_be_set(old: &[Attribute], a: &Attribute) -> (r: bool)
    ensures
        r == needs_set(old@, *a),
{
    if a.is_volatile() {
        return true;
    }
    let mut i: usize = 0;
    while i < old.len()
        invariant
            i <= old.len(),
            !a.volatile,
            forall|k: int| 0 <= k < i ==> (#[trigger] old@[k]).name@ != a.name@,
        decreases old.len() - i,
    {
        if same_str(old[i].name, a.name) {
            proof {
                assert(first_named(old@, a.name@, i as int));
                assert forall|k: int| first_named(old@, a.name@, k) implies k == i by {
                    if k > i {
                        assert(old@[i as int].name@ != a.name@);
                    }
                }
            }
            return !same_str(old[i].value, a.value);
        }
        i += 1;
    }
    proof {
        assert forall|k: int| !first_named(old@, a.name@, k) by {}
    }
    true
}

/// What is left to do after the shared prefix of keyed children is diffed.
#[derive(Clone, Copy, Debug, PartialEq, Eq)]
pub enum KeyedPrefixResult {
    /// All the children are diffed, just by looking at the prefix of shared keys.
    Finished,
    /// There is more to do. So many children at the beginning are diffed.
    MoreWorkToDo(usize),
}

/// Neither the first nor the last keys of the two lists are the same.
pub open spec fn ends_differ(olds: Seq<VNode>, news: Seq<VNode>) -> bool {
    &&& olds.len() > 0 || news.len() > 0
    &&& olds.len() > 0 && news.len() > 0 ==> olds[0].key() != news[0].key() && olds.last().key()
        != news.last().key()
}

/// The keys are those that occur in both lists.
pub open spec fn are_shared_keys(olds: Seq<VNode>, news: Seq<VNode>, keys: Set<u64>) -> bool {
    forall|k: u64| #[trigger]
        keys.contains(k) <==> has_key(olds, Some(k)) && has_key(news, Some(k))
}

/// For each reused old node, `temps` has the temporary in which it is saved.
pub open spec fn are_temps(olds: Seq<VNode>, news: Seq<VNode>, t: nat, temps: Seq<u32>) -> bool {
    &&& temps.len() == olds.len()
    &&& forall|i: int|
        0 <= i < olds.len() && reused(olds, news)[i] ==> #[trigger] temps[i] == temp_of(
            reused(olds, news),
            t,
            i,
        )
}

/// New nodes beyond a prefix that is all of the old nodes can be created.
pub proof fn lemma_prefix_renderable(olds: Seq<VNode>, news: Seq<VNode>)
    requires
        can_diff_keyed(olds, news),
    ensures
        0 <= shared_prefix(olds, news) <= olds.len(),
        shared_prefix(olds, news) <= news.len(),
        forall|i: int|
            #![trigger olds[i], news[i]]
            0 <= i < shared_prefix(olds, news) ==> can_diff(olds[i], news[i]),
        shared_prefix(olds, news) == olds.len() ==> renderable_all(news.skip(olds.len() as int)),
{
    reveal(can_diff_keyed);
    lemma_prefix_from(olds, news, 0);
    let p = shared_prefix(olds, news);
    assert forall|i: int|
        #![trigger olds[i], news[i]]
        0 <= i < p implies can_diff(olds[i], news[i]) by {
        assert(olds[i].key() == news[i].key());
    }
    if p == olds.len() {
        let rest = news.skip(p);
        assert forall|j: int| 0 <= j < rest.len() implies renderable(#[trigger] rest[j]) by {
            let n = news[j + p];
            assert(rest[j] == n);
            if has_key(olds, n.key()) {
                let i = choose|i: int| 0 <= i < olds.len() && (#[trigger] olds[i]).key() == n.key();
                assert(olds[i].key() == news[i].key());
                assert(news[i].key() != news[j + p].key());
            }
        }
    }
}

/// The parts between and behind the shared ends can be diffed.
pub proof fn lemma_middle_can_diff(olds: Seq<VNode>, news: Seq<VNode>, p: int, s: int)
    requires
        can_diff_keyed(olds, news),
        p == shared_prefix(olds, news),
        p < olds.len(),
        p < news.len(),
        s == shared_suffix(olds.skip(p), news.skip(p)),
    ensures
        0 <= s <= olds.len() - p,
        s <= news.len() - p,
        can_diff_keyed(olds.subrange(p, olds.len() - s), news.subrange(p, news.len() - s)),
        olds.len() - s - p <= u32::MAX,
        news.len() - s - p < u32::MAX,
        ends_differ(olds.subrange(p, olds.len() - s), news.subrange(p, news.len() - s)),
        ({
            let tail = olds.subrange(olds.len() - s, olds.len() as int);
            let new_tail = news.subrange(news.len() - s, news.len() as int);
            forall|i: int|
                #![trigger tail[i], new_tail[i]]
                0 <= i < s ==> can_diff(tail[i], new_tail[i])
        }),
{
    reveal(can_diff_keyed);
    lemma_prefix_from(olds, news, 0);
    let a = olds.skip(p);
    let b = news.skip(p);
    lemma_suffix_from(a, b, 0);
    let os = olds.len() - s;
    let ns = news.len() - s;
    let om = olds.subrange(p, os);
    let nm = news.subrange(p, ns);
    assert forall|i: int|
        #![trigger olds[os + i], news[ns + i]]
        0 <= i < s implies can_diff(olds[os + i], news[ns + i]) && olds[os + i].key() == news[ns
        + i].key() by {
        let k = s - 1 - i;
        assert(a[a.len() - 1 - k] == olds[os + i]);
        assert(b[b.len() - 1 - k] == news[ns + i]);
    }
    assert forall|i: int| 0 <= i < om.len() implies (#[trigger] om[i]).key() is Some by {
        assert(om[i] == olds[p + i]);
    }
    assert forall|i: int| 0 <= i < nm.len() implies (#[trigger] nm[i]).key() is Some by {
        assert(nm[i] == news[p + i]);
    }
    assert forall|i: int, j: int|
        #![trigger om[i], nm[j]]
        0 <= i < om.len() && 0 <= j < nm.len() && om[i].key() == nm[j].key() implies can_diff(
        om[i],
        nm[j],
    ) by {
        assert(om[i] == olds[p + i]);
        assert(nm[j] == news[p + j]);
    }
    assert forall|j: int| 0 <= j < nm.len() && !has_key(om, (#[trigger] nm[j]).key()) implies renderable(
        nm[j],
    ) by {
        let n = news[p + j];
        assert(nm[j] == n);
        if has_key(olds, n.key()) {
            let i = choose|i: int| 0 <= i < olds.len() && (#[trigger] olds[i]).key() == n.key();
            if i < p {
                assert(olds[i].key() == news[i].key());
                assert(news[i].key() != news[p + j].key());
            } else if i < os {
                assert(om[i - p] == olds[i]);
            } else {
                let d = i - os;
                assert(olds[os + d].key() == news[ns + d].key());
                assert(news[p + j].key() != news[ns + d].key());
            }
        }
    }
    if om.len() > 0 && nm.len() > 0 {
        assert(om[0] == olds[p]);
        assert(nm[0] == news[p]);
        assert(om.last() == a[a.len() - 1 - s]);
        assert(nm.last() == b[b.len() - 1 - s]);
    }
    if om.len() == 0 && nm.len() == 0 {
        assert(olds[os + 0].key() == news[ns + 0].key());
    }
    assert(middle_fits(om, nm)) by {
        let q = shared_prefix(om, nm);
        lemma_prefix_from(om, nm, 0);
        if q < om.len() && q < nm.len() {
            lemma_suffix_from(om.skip(q), nm.skip(q), 0);
        }
    }
    let tail = olds.subrange(os, olds.len() as int);
    let new_tail = news.subrange(ns, news.len() as int);
    assert forall|i: int|
        #![trigger tail[i], new_tail[i]]
        0 <= i < s implies can_diff(tail[i], new_tail[i]) by {
        assert(tail[i] == olds[os + i]);
        assert(new_tail[i] == news[ns + i]);
    }
}

/// Which keys are shared tells whether any old key is reused.
proof fn lemma_reused_none(olds: Seq<VNode>, news: Seq<VNode>)
    requires
        uniquely_keyed(olds),
    ensures
        none_reused(olds, news) ==> count(reused(olds, news)) == 0,
        forall|keys: Set<u64>| #[trigger]
            are_shared_keys(olds, news, keys) ==> (keys.is_empty() <==> none_reused(olds, news)),
{
    if none_reused(olds, news) {
        lemma_count_none(reused(olds, news));
    }
    assert forall|keys: Set<u64>| #[trigger] are_shared_keys(olds, news, keys) implies (
    keys.is_empty() <==> none_reused(olds, news)) by {
        if keys.is_empty() {
            assert forall|i: int| 0 <= i < olds.len() implies !has_key(
                news,
                (#[trigger] olds[i]).key(),
            ) by {
                let k = olds[i].key()->0;
                assert(!keys.contains(k));
                assert(has_key(olds, Some(k)));
            }
        } else {
            let k = choose|k: u64| keys.contains(k);
            assert(keys.contains(k));
            let i = choose|i: int| 0 <= i < olds.len() && (#[trigger] olds[i]).key() == Some(k);
            assert(has_key(news, olds[i].key()));
        }
    }
}

/// A new node with a source can be diffed with it, which is saved.
proof fn lemma_source_ready(olds: Seq<VNode>, news: Seq<VNode>, j: int, t: nat, temps: Seq<u32>)
    requires
        can_diff_keyed(olds, news),
        0 <= j < news.len(),
        sources(olds, news)[j] < olds.len(),
        olds.len() <= u32::MAX,
        are_temps(olds, news, t, temps),
        temps_end(olds, news, t) + slots_sources(olds, news, news.len() as int) <= u32::MAX,
    ensures
        ({
            let i = sources(olds, news)[j] as int;
            &&& olds[i].key() == news[j].key()
            &&& can_diff(olds[i], news[j])
            &&& temps[i] == source_temp(olds, news, j, t)
            &&& size(olds[i]) <= size_all(olds)
            &&& temps_end(olds, news, t) + slots(olds[i], news[j]) <= u32::MAX
        }),
{
    reveal(can_diff_keyed);
    let i = sources(olds, news)[j] as int;
    lemma_index_of_key(olds, news[j].key());
    lemma_size_index(olds, i);
    let flags = reused(olds, news);
    assert(has_key(news, olds[i].key()));
    assert(flags[i]);
    lemma_count_below(flags, i);
    lemma_slots_sources(olds, news, news.len() as int, j);
}

/// A new node without a source can be created.
proof fn lemma_source_missing(olds: Seq<VNode>, news: Seq<VNode>, j: int)
    requires
        can_diff_keyed(olds, news),
        0 <= j < news.len(),
        sources(olds, news)[j] >= olds.len(),
        olds.len() <= u32::MAX,
    ensures
        renderable(news[j]),
{
    reveal(can_diff_keyed);
    lemma_index_of_key(olds, news[j].key());
}

/// The anchor only matters with a shared suffix.
proof fn lemma_settle_anchor<'a>(
    olds: Seq<VNode<'a>>,
    news: Seq<VNode<'a>>,
    lis: Set<usize>,
    with_suffix: bool,
    anchor: int,
    other: int,
    t: nat,
)
    requires
        with_suffix ==> anchor == other,
    ensures
        settle_steps(olds, news, lis, with_suffix, anchor, t) == settle_steps(
            olds,
            news,
            lis,
            with_suffix,
            other,
            t,
        ),
{
}

/// How many nodes at the end, behind a prefix, have the same keys.
fn count_shared_suffix(olds: &[VNode], news: &[VNode], shared_prefix_count: usize) -> (r: usize)
    requires
        shared_prefix_count <= olds@.len(),
        shared_prefix_count <= news@.len(),
    ensures
        r == shared_suffix(
            olds@.skip(shared_prefix_count as int),
            news@.skip(shared_prefix_count as int),
        ),
{
    let ghost a = olds@.skip(shared_prefix_count as int);
    let ghost b = news@.skip(shared_prefix_count as int);
    let mut s: usize = 0;
    while shared_prefix_count + s < olds.len() && shared_prefix_count + s < news.len() && olds[
    olds.len() - 1 - s].key() == news[news.len() - 1 - s].key()
        invariant
            shared_prefix_count + s <= olds.len(),
            shared_prefix_count + s <= news.len(),
            a == olds@.skip(shared_prefix_count as int),
            b == news@.skip(shared_prefix_count as int),
            suffix_from(a, b, 0) == suffix_from(a, b, s as int),
        decreases olds.len() - s,
    {
        s += 1;
    }
    s
}

/// Whether diffing two nodes keeps the physical node.
fn is_node_kept(old_node: &VNode, new_node: &VNode) -> (r: bool)
    ensures
        r == keeps_node(*old_node, *new_node),
{
    match (old_node, new_node) {
        (VNode::Text(_), VNode::Text(_)) => true,
        (VNode::Element(a), VNode::Element(b)) => same_str(a.tag_name, b.tag_name)
            && equal_optional_str(a.namespace, b.namespace),
        _ => false,
    }
}

/// Whether the index is in the set.
fn is_in(indices: &FxHashSet<usize>, i: usize) -> (r: bool)
    ensures
        r == indices@.contains(i),
{
    broadcast use vstd::std_specs::hash::group_hash_axioms;

    set_contains(indices, &i)
}

/// Whether the node's key is one of the shared keys.
fn has_shared_key(n: &VNode, shared_keys: &FxHashSet<u64>) -> (r: bool)
    ensures
        r == (n.key() is Some && shared_keys@.contains(n.key()->0)),
{
    broadcast use vstd::std_specs::hash::group_hash_axioms;

    match n.key() {
        Some(key) => set_contains(shared_keys, &key),
        None => false,
    }
}

/// A map from each node's key to its index.
fn index_by_key(ns: &[VNode]) -> (r: FxHashMap<u64, usize>)
    requires
        uniquely_keyed(ns@),
    ensures
        is_index_by_key(ns@, r@),
{
    broadcast use vstd::std_specs::hash::group_hash_axioms;

    let mut m: FxHashMap<u64, usize> = FxHashMap::default();
    m.reserve(ns.len());
    let mut i: usize = 0;
    while i < ns.len()
        invariant
            i <= ns.len(),
            uniquely_keyed(ns@),
            is_index_by_key(ns@.take(i as int), m@),
        decreases ns.len() - i,
    {
        broadcast use vstd::std_specs::hash::group_hash_axioms;

        proof {
            assert(ns@.take(i + 1).drop_last() =~= ns@.take(i as int));
            assert(ns@.take(i + 1).last() == ns@[i as int]);
        }
        if let Some(key) = ns[i].key() {
            map_insert(&mut m, key, i);
        }
        i += 1;
    }
    proof {
        assert(ns@.take(i as int) =~= ns@);
    }
    m
}

/// The map holds, under each key of a node, the node's index.
spec fn is_index_by_key(ns: Seq<VNode>, m: Map<u64, usize>) -> bool {
    forall|k: u64|
        #![trigger m.contains_key(k)]
        #![trigger index_of_key(ns, Some(k))]
        match index_of_key(ns, Some(k)) {
            Some(i) => m.contains_key(k) && m[k] == i,
            None => !m.contains_key(k),
        }
}

/// For each new node the index of the old node with its key, and the keys that
/// old and new nodes share.
fn find_sources(
    olds: &[VNode],
    news: &[VNode],
    old_key_to_old_index: &FxHashMap<u64, usize>,
) -> (r: (Vec<usize>, FxHashSet<u64>))
    requires
        uniquely_keyed(olds@),
        uniquely_keyed(news@),
        is_index_by_key(olds@, old_key_to_old_index@),
    ensures
        r.0@ == sources(olds@, news@),
        are_shared_keys(olds@, news@, r.1@),
{
    broadcast use vstd::std_specs::hash::group_hash_axioms;

    let mut srcs: Vec<usize> = Vec::with_capacity(news.len());
    let mut shared_keys: FxHashSet<u64> = FxHashSet::default();
    let mut j: usize = 0;
    while j < news.len()
        invariant
            j <= news.len(),
            uniquely_keyed(olds@),
            uniquely_keyed(news@),
            is_index_by_key(olds@, old_key_to_old_index@),
            srcs@ == sources(olds@, news@).take(j as int),
            are_shared_keys(olds@, news@.take(j as int), shared_keys@),
        decreases news.len() - j,
    {
        broadcast use vstd::std_specs::hash::group_hash_axioms;

        let ghost before = shared_keys@;
        let mut src: usize = u32::MAX as usize;
        proof {
            lemma_has_key_push(news@, j as int);
            lemma_index_of_key(olds@, news@[j as int].key());
            assert(news@[j as int].key() is Some);
        }
        if let Some(key) = news[j].key() {
            if let Some(i) = map_get(old_key_to_old_index, &key) {
                set_insert(&mut shared_keys, key);
                src = *i;
            }
        }
        srcs.push(src);
        proof {
            assert(sources(olds@, news@).take(j + 1) =~= sources(olds@, news@).take(j as int).push(
                sources(olds@, news@)[j as int],
            ));
        }
        j += 1;
    }
    proof {
        assert(news@.take(j as int) =~= news@);
        assert(sources(olds@, news@).take(j as int) =~= sources(olds@, news@));
    }
    (srcs, shared_keys)
}

proof fn lemma_has_key_push(ns: Seq<VNode>, i: int)
    requires
        0 <= i < ns.len(),
    ensures
        forall|key: Option<u64>| #[trigger]
            has_key(ns.take(i + 1), key) <==> has_key(ns.take(i), key) || ns[i].key() == key,
{
    let a = ns.take(i);
    let b = ns.take(i + 1);
    assert forall|key: Option<u64>| #[trigger]
        has_key(b, key) <==> has_key(a, key) || ns[i].key() == key by {
        if has_key(b, key) {
            let k = choose|k: int| 0 <= k < b.len() && (#[trigger] b[k]).key() == key;
            if k < i {
                assert(a[k].key() == key);
            }
        }
        if has_key(a, key) {
            let k = choose|k: int| 0 <= k < a.len() && (#[trigger] a[k]).key() == key;
            assert(b[k].key() == key);
        }
        if ns[i].key() == key {
            assert(b[i].key() == key);
        }
    }
}

impl<'a> DiffingMachine<'a> {
    /// Beyond what it was `before`, the machine has taken the steps on its
    /// change list, and nothing else.
    pub open spec fn has_taken(self, before: Self, steps: Seq<Step<'a>>) -> bool {
        &&& self.change_list@ == before.change_list@.perform(steps)
        &&& self.immediate_queue == before.immediate_queue
        &&& self.diffed == before.diffed
        &&& self.need_to_diff == before.need_to_diff
    }

    /// Diffs the event listeners `old` and `new`.
    ///
    /// The listeners' node has to be on top of the change list stack, which is
    /// left unchanged:
    ///
    ///     [... node]
    pub fn diff_listeners(&mut self, olds: &[Listener<'a>], news: &[Listener<'a>])
        ensures
            final(self).has_taken(*old(self), listener_steps(olds@, news@)),
            final(self).change_list@.next_temporary == old(self).change_list@.next_temporary,
    {
        let ghost start = self.change_list@;
        let ghost head: Seq<Step<'a>> = if olds@.len() > 0 || news@.len() > 0 {
            seq![Step::Commit]
        } else {
            Seq::empty()
        };
        if !olds.is_empty() || !news.is_empty() {
            self.change_list.commit_traversal();
        }
        let mut i: usize = 0;
        proof {
            assert(put_listener_steps(olds@, news@.take(0)) =~= Seq::empty());
        }
        while i < news.len()
            invariant
                i <= news.len(),
                self.change_list@ == start.perform(head).perform(
                    put_listener_steps(olds@, news@.take(i as int)),
                ),
                self.change_list@.next_temporary == start.next_temporary,
                news@.len() > 0 ==> self.change_list@.is_committed(),
                olds@.len() > 0 ==> self.change_list@.is_committed(),
                self.immediate_queue == old(self).immediate_queue,
                self.diffed == old(self).diffed,
                self.need_to_diff == old(self).need_to_diff,
            decreases news.len() - i,
        {
            let l = &news[i];
            if has_listener(olds, l.event) {
                self.change_list.update_event_listener(l);
            } else {
                self.change_list.new_event_listener(l);
            }
            proof {
                lemma_put_listener_push(olds@, news@, i as int);
            }
            i += 1;
        }
        proof {
            assert(news@.take(i as int) =~= news@);
            assert(drop_listener_steps(olds@.take(0), news@) =~= Seq::empty()) by {
                reveal(Seq::filter);
            }
        }
        let ghost mid = self.change_list@;
        let mut k: usize = 0;
        while k < olds.len()
            invariant
                k <= olds.len(),
                self.change_list@ == mid.perform(drop_listener_steps(olds@.take(k as int), news@)),
                self.change_list@.next_temporary == start.next_temporary,
                olds@.len() > 0 ==> self.change_list@.is_committed(),
                self.immediate_queue == old(self).immediate_queue,
                self.diffed == old(self).diffed,
                self.need_to_diff == old(self).need_to_diff,
            decreases olds.len() - k,
        {
            let l = &olds[k];
            proof {
                lemma_drop_listener_push(olds@, news@, k as int);
            }
            if !has_listener(news, l.event) {
                self.change_list.remove_event_listener(l.event);
            }
            k += 1;
        }
        proof {
            assert(olds@.take(k as int) =~= olds@);
        }
    }

    /// Diffs a node's attributes.
    ///
    /// The attributes' node has to be on top of the change list stack, which is
    /// left unchanged:
    ///
    ///     [... node]
    pub fn diff_attr(&mut self, olds: &[Attribute<'a>], news: &[Attribute<'a>], is_namespaced: bool)
        ensures
            final(self).has_taken(*old(self), attr_steps(olds@, news@, is_namespaced)),
            final(self).change_list@.next_temporary == old(self).change_list@.next_temporary,
    {
        let ghost start = self.change_list@;
        let mut i: usize = 0;
        while i < news.len()
            invariant
                i <= news.len(),
                self.change_list@ == start.perform(
                    set_attr_steps(olds@, news@.take(i as int), is_namespaced),
                ),
                self.change_list@.next_temporary == start.next_temporary,
                self.immediate_queue == old(self).immediate_queue,
                self.diffed == old(self).diffed,
                self.need_to_diff == old(self).need_to_diff,
            decreases news.len() - i,
        {
            let a = &news[i];
            proof {
                assert(news@.take(i + 1).drop_last() =~= news@.take(i as int));
                assert(news@.take(i + 1).last() == *a);
            }
            if has_to_be_set(olds, a) {
                self.change_list.commit_traversal();
                self.change_list.set_attribute(a.name, a.value, is_namespaced);
                proof {
                    let step = Step::Do(
                        Edit::SetAttribute { name: a.name, value: a.value, is_namespaced },
                    );
                    assert(seq![Step::Commit, step] =~= Seq::empty().push(Step::Commit).push(step));
                }
            }
            i += 1;
        }
        proof {
            assert(news@.take(i as int) =~= news@);
        }
        let ghost mid = self.change_list@;
        let mut k: usize = 0;
        while k < olds.len()
            invariant
                k <= olds.len(),
                self.change_list@ == mid.perform(drop_attr_steps(olds@.take(k as int), news@)),
                self.change_list@.next_temporary == start.next_temporary,
                self.immediate_queue == old(self).immediate_queue,
                self.diffed == old(self).diffed,
                self.need_to_diff == old(self).need_to_diff,
            decreases olds.len() - k,
        {
            let a = &olds[k];
            proof {
                assert(olds@.take(k + 1).drop_last() =~= olds@.take(k as int));
                assert(olds@.take(k + 1).last() == *a);
            }
            if !has_attr(news, a.name) {
                self.change_list.commit_traversal();
                self.change_list.remove_attribute(a.name);
                proof {
                    let step = Step::Do(Edit::RemoveAttribute(a.name));
                    assert(seq![Step::Commit, step] =~= Seq::empty().push(Step::Commit).push(step));
                }
            }
            k += 1;
        }
        proof {
            assert(olds@.take(k as int) =~= olds@);
        }
    }

    /// Diffs the `old_node` with the `new_node`. Emits instructions to modify a
    /// physical node that reflects the old one into something that reflects
    /// the new one.
    ///
    /// The physical node has to be on top of the change list stack, which has
    /// the same shape afterwards:
    ///
    ///     [... node]
    pub fn diff_node(&mut self, old_node: &VNode<'a>, new_node: &VNode<'a>)
        requires
            can_diff(*old_node, *new_node),
            old(self).change_list@.has_room(slots(*old_node, *new_node)),
        ensures
            final(self).has_taken(
                *old(self),
                node_steps(*old_node, *new_node, old(self).change_list@.next_temporary),
            ),
            final(self).change_list@.next_temporary == old(self).change_list@.next_temporary,
        decreases size(*old_node), 0nat, 0int,
    {
        proof {
            self.change_list.lemma_next_temporary();
        }
        match (old_node, new_node) {
            (VNode::Text(old_text), VNode::Text(new_text)) => {
                if !same_str(old_text.text, new_text.text) {
                    self.change_list.commit_traversal();
                    self.change_list.set_text(new_text.text);
                }
            },
            (VNode::Element(eold), VNode::Element(enew)) => {
                // An element of another type is rendered afresh.
                if !same_str(eold.tag_name, enew.tag_name) || !equal_optional_str(
                    eold.namespace,
                    enew.namespace,
                ) {
                    self.replace_node(new_node);
                    return ;
                }
                self.diff_listeners(eold.listeners.as_slice(), enew.listeners.as_slice());
                self.diff_attr(
                    eold.attributes.as_slice(),
                    enew.attributes.as_slice(),
                    enew.namespace.is_some(),
                );
                self.diff_children(eold.children.as_slice(), enew.children.as_slice());
            },
            _ => {
                self.replace_node(new_node);
            },
        }
    }

    /// Creates the node and puts it in the place of the one on the change list
    /// stack:
    ///
    ///     [... node]
    fn replace_node(&mut self, new_node: &VNode<'a>)
        requires
            renderable(*new_node),
        ensures
            final(self).has_taken(*old(self), replace_steps(*new_node)),
            final(self).change_list@.next_temporary == old(self).change_list@.next_temporary,
    {
        self.change_list.commit_traversal();
        self.create(new_node);
        self.change_list.replace_with();
    }

    /// Diffs the given old and new children.
    ///
    /// The parent has to be on top of the change list stack, which has the same
    /// shape afterwards:
    ///
    ///     [... parent]
    pub fn diff_children(&mut self, olds: &[VNode<'a>], news: &[VNode<'a>])
        requires
            can_diff_children(olds@, news@),
            old(self).change_list@.has_room(slots_children(olds@, news@)),
        ensures
            final(self).has_taken(
                *old(self),
                children_steps(olds@, news@, old(self).change_list@.next_temporary),
            ),
            final(self).change_list@.next_temporary == old(self).change_list@.next_temporary,
            olds@.len() > 0 && news@.len() > 0 && olds@[0].key() is Some && news@[0].key() is Some
                ==> keyed_picks_longest(olds@, news@),
        decreases size_all(olds@), 8nat, 0int,
    {
        proof {
            self.change_list.lemma_next_temporary();
        }
        if news.is_empty() {
            if !olds.is_empty() {
                self.change_list.commit_traversal();
                self.remove_all_children(olds);
            }
            return ;
        }
        if news.len() == 1 {
            if let VNode::Text(new_text) = &news[0] {
                let unchanged: bool = if olds.is_empty() {
                    false
                } else {
                    match &olds[0] {
                        VNode::Text(old_text) => same_str(old_text.text, new_text.text),
                        _ => false,
                    }
                };
                if !unchanged {
                    self.change_list.commit_traversal();
                    self.change_list.set_text(new_text.text);
                    return ;
                }
            }
        }
        if olds.is_empty() {
            self.change_list.commit_traversal();
            self.create_and_append_children(news);
            return ;
        }
        proof {
            lemma_slots_children(olds@, news@);
        }
        let new_is_keyed = news[0].key().is_some();
        let old_is_keyed = olds[0].key().is_some();
        if new_is_keyed && old_is_keyed {
            let t = self.change_list.next_temporary();
            proof {
                reveal(can_diff_keyed);
            }
            self.diff_keyed_children(olds, news);
            self.change_list.set_next_temporary(t);
        } else {
            self.diff_non_keyed_children(olds, news);
        }
    }

    /// Diffs children that are not keyed.
    ///
    /// The parent has to be on top of the change list stack, which has the same
    /// shape afterwards:
    ///
    ///     [... parent]
    pub fn diff_non_keyed_children(&mut self, olds: &[VNode<'a>], news: &[VNode<'a>])
        requires
            olds@.len() > 0,
            news@.len() > 0,
            can_diff_in_order(olds@, news@),
            old(self).change_list@.has_room(
                slots_walk(olds@, news@, shorter(olds@, news@)),
            ),
        ensures
            final(self).has_taken(
                *old(self),
                in_order_steps(olds@, news@, old(self).change_list@.next_temporary),
            ),
            final(self).change_list@.next_temporary == old(self).change_list@.next_temporary,
        decreases size_all(olds@), 2nat, 0int,
    {
        proof {
            self.change_list.lemma_next_temporary();
        }
        let n: usize = if olds.len() < news.len() {
            olds.len()
        } else {
            news.len()
        };
        //     [... parent]
        self.change_list.go_down();
        //     [... parent child]
        self.walk(olds, news, 0, n);
        if olds.len() > news.len() {
            // [... parent prev_child]
            self.change_list.go_to_sibling(news.len());
            // [... parent first_child_to_remove]
            self.change_list.commit_traversal();
            self.remove_self_and_next_siblings(slice_subrange(olds, news.len(), olds.len()));
            // [... parent]
        } else if olds.len() < news.len() {
            // [... parent last_child]
            self.change_list.go_up();
            // [... parent]
            self.change_list.commit_traversal();
            let rest = slice_subrange(news, olds.len(), news.len());
            proof {
                assert(rest@ =~= news@.skip(olds@.len() as int));
                assert forall|j: int| 0 <= j < rest@.len() implies renderable(
                    #[trigger] rest@[j],
                ) by {
                    assert(rest@[j] == news@[j + olds@.len()]);
                }
            }
            self.create_and_append_children(rest);
        } else {
            // [... parent child]
            self.change_list.go_up();
            // [... parent]
        }
    }

    /// Diffs the first `n` old nodes with the new nodes at the same indices. The
    /// physical nodes are the children from `base` on.
    ///
    ///     [... parent child]
    fn walk(&mut self, olds: &[VNode<'a>], news: &[VNode<'a>], base: usize, n: usize)
        requires
            n <= olds@.len(),
            n <= news@.len(),
            base + n <= usize::MAX,
            forall|i: int|
                #![trigger olds@[i], news@[i]]
                0 <= i < n ==> can_diff(olds@[i], news@[i]),
            old(self).change_list@.has_room(slots_walk(olds@, news@, n as int)),
        ensures
            final(self).has_taken(
                *old(self),
                walk_steps(
                    olds@,
                    news@,
                    base as int,
                    n as int,
                    old(self).change_list@.next_temporary,
                ),
            ),
            final(self).change_list@.next_temporary == old(self).change_list@.next_temporary,
        decreases size_all(olds@), 1nat, 0int,
    {
        proof {
            self.change_list.lemma_next_temporary();
        }
        let mut i: usize = 0;
        let ghost start = self.change_list@;
        while i < n
            invariant
                i <= n,
                n <= olds@.len(),
                n <= news@.len(),
                base + n <= usize::MAX,
                forall|i: int|
                    #![trigger olds@[i], news@[i]]
                    0 <= i < n ==> can_diff(olds@[i], news@[i]),
                start.next_temporary + slots_walk(olds@, news@, n as int) <= u32::MAX,
                start == old(self).change_list@,
                self.has_taken(
                    *old(self),
                    walk_steps(olds@, news@, base as int, i as int, start.next_temporary),
                ),
                self.change_list@.next_temporary == start.next_temporary,
            decreases n - i,
        {
            proof {
                lemma_size_index(olds@, i as int);
                lemma_slots_walk(olds@, news@, n as int, i as int);
                assert(can_diff(olds@[i as int], news@[i as int]));
            }
            // [... parent prev_child]
            self.change_list.go_to_sibling(base + i);
            // [... parent this_child]
            self.diff_node(&olds[i], &news[i]);
            i += 1;
        }
    }

    /// Diffs "keyed" children.
    ///
    /// With keyed children it matters whether nodes are deleted, moved, or
    /// created, or existing nodes are changed in place. Keys tell which virtual
    /// nodes have to reuse the same physical node.
    ///
    /// The parent has to be on top of the change list stack, which has the same
    /// shape afterwards:
    ///
    ///     [... parent]
    pub fn diff_keyed_children(&mut self, olds: &[VNode<'a>], news: &[VNode<'a>])
        requires
            can_diff_keyed(olds@, news@),
            old(self).change_list@.has_room(slots_keyed(olds@, news@)),
        ensures
            final(self).has_taken(
                *old(self),
                keyed_steps(olds@, news@, old(self).change_list@.next_temporary),
            ),
            keyed_picks_longest(olds@, news@),
        decreases size_all(olds@), 7nat, 0int,
    {
        proof {
            self.change_list.lemma_next_temporary();
            assert(olds@.len() == olds.len());
            lemma_prefix_renderable(olds@, news@);
            lemma_slots_keyed(olds@, news@);
            lemma_keyed_steps(olds@, news@, self.change_list@.next_temporary);
        }
        // First up, diff all the nodes with the same key at the beginning of
        // the children.
        let shared_prefix_count: usize = match self.diff_keyed_prefix(olds, news) {
            KeyedPrefixResult::Finished => {
                proof {
                    reveal(keyed_picks_longest);
                }
                return ;
            },
            KeyedPrefixResult::MoreWorkToDo(count) => count,
        };
        self.diff_beyond_prefix(olds, news, shared_prefix_count);
    }

    /// Diffs what follows the shared prefix of keyed children.
    ///
    ///     [... parent]
    fn diff_beyond_prefix(
        &mut self,
        olds: &[VNode<'a>],
        news: &[VNode<'a>],
        shared_prefix_count: usize,
    )
        requires
            can_diff_keyed(olds@, news@),
            shared_prefix_count == shared_prefix(olds@, news@),
            shared_prefix_count < olds@.len(),
            shared_prefix_count < news@.len(),
            old(self).change_list@.has_room(
                slots_beyond_prefix(olds@, news@, shared_prefix_count as int),
            ),
        ensures
            final(self).has_taken(
                *old(self),
                beyond_prefix_steps(
                    olds@,
                    news@,
                    shared_prefix_count as int,
                    old(self).change_list@.next_temporary,
                ),
            ),
            keyed_picks_longest(olds@, news@),
        decreases size_all(olds@), 6nat, 1int,
    {
        proof {
            self.change_list.lemma_next_temporary();
        }
        let ghost t = self.change_list@.next_temporary;
        let ghost p = shared_prefix_count as int;
        // Next, find out how many of the nodes at the end of the children have
        // the same key. They are not diffed yet, so that the instructions can be
        // applied in a single pass over the tree.
        let shared_suffix_count: usize = count_shared_suffix(olds, news, shared_prefix_count);
        let ghost s = shared_suffix_count as int;
        proof {
            lemma_middle_can_diff(olds@, news@, p, s);
            lemma_slots_beyond_prefix(olds@, news@, p);
            lemma_beyond_prefix_steps(olds@, news@, p, s, t);
            lemma_size_subrange(olds@, p, olds@.len() - s);
            lemma_size_subrange(olds@, olds@.len() - s, olds@.len() as int);
        }
        let old_shared_suffix_start: usize = olds.len() - shared_suffix_count;
        let new_shared_suffix_start: usize = news.len() - shared_suffix_count;
        // What is left is a smaller range of children in the middle.
        let old_middle = slice_subrange(olds, shared_prefix_count, old_shared_suffix_start);
        let new_middle = slice_subrange(news, shared_prefix_count, new_shared_suffix_start);
        proof {
            lemma_count_le(reused(old_middle@, new_middle@));
        }
        self.diff_keyed_middle(
            old_middle,
            new_middle,
            shared_prefix_count,
            shared_suffix_count,
            old_shared_suffix_start,
        );
        proof {
            reveal(keyed_picks_longest);
        }
        // Finally, diff the nodes at the end that share keys.
        let old_suffix = slice_subrange(olds, old_shared_suffix_start, olds.len());
        let new_suffix = slice_subrange(news, new_shared_suffix_start, news.len());
        if !old_suffix.is_empty() {
            self.diff_keyed_suffix(old_suffix, new_suffix, new_shared_suffix_start);
        }
    }

    /// Diffs the prefix of children that share the same keys in the same order.
    ///
    /// The parent has to be on top of the change list stack, which has the same
    /// shape afterwards:
    ///
    ///     [... parent]
    pub fn diff_keyed_prefix(&mut self, olds: &[VNode<'a>], news: &[VNode<'a>]) -> (r:
        KeyedPrefixResult)
        requires
            forall|i: int|
                #![trigger olds@[i], news@[i]]
                0 <= i < shared_prefix(olds@, news@) ==> can_diff(olds@[i], news@[i]),
            shared_prefix(olds@, news@) == olds@.len() ==> renderable_all(
                news@.skip(olds@.len() as int),
            ),
            old(self).change_list@.has_room(
                slots_walk(olds@, news@, shared_prefix(olds@, news@)),
            ),
        ensures
            final(self).has_taken(
                *old(self),
                prefix_steps(olds@, news@, old(self).change_list@.next_temporary),
            ),
            final(self).change_list@.next_temporary == old(self).change_list@.next_temporary,
            r == (if shared_prefix(olds@, news@) == olds@.len() || shared_prefix(olds@, news@)
                == news@.len() {
                KeyedPrefixResult::Finished
            } else {
                KeyedPrefixResult::MoreWorkToDo(shared_prefix(olds@, news@) as usize)
            }),
        decreases size_all(olds@), 2nat, 0int,
    {
        proof {
            self.change_list.lemma_next_temporary();
        }
        self.change_list.go_down();
        let mut i: usize = 0;
        let ghost start = self.change_list@;
        let ghost before = *self;
        proof {
            lemma_prefix_from(olds@, news@, 0);
        }
        while i < olds.len() && i < news.len() && olds[i].key() == news[i].key()
            invariant
                i <= olds.len(),
                i <= news.len(),
                shared_prefix(olds@, news@) == prefix_from(olds@, news@, i as int),
                forall|i: int|
                    #![trigger olds@[i], news@[i]]
                    0 <= i < shared_prefix(olds@, news@) ==> can_diff(olds@[i], news@[i]),
                start.next_temporary + slots_walk(olds@, news@, shared_prefix(olds@, news@))
                    <= u32::MAX,
                before.change_list@ == start,
                start.next_temporary == old(self).change_list@.next_temporary,
                self.has_taken(
                    before,
                    walk_steps(olds@, news@, 0, i as int, start.next_temporary),
                ),
                self.change_list@.next_temporary == start.next_temporary,
            decreases olds.len() - i,
        {
            proof {
                lemma_prefix_from(olds@, news@, i as int + 1);
                lemma_size_index(olds@, i as int);
                lemma_slots_walk(olds@, news@, shared_prefix(olds@, news@), i as int);
                assert(can_diff(olds@[i as int], news@[i as int]));
            }
            self.change_list.go_to_sibling(i);
            self.diff_node(&olds[i], &news[i]);
            i += 1;
        }
        // If that was all of the old children, then create and append the
        // remaining new children.
        if i == olds.len() {
            self.change_list.go_up();
            self.change_list.commit_traversal();
            let rest = slice_subrange(news, i, news.len());
            proof {
                assert(rest@ =~= news@.skip(i as int));
            }
            self.create_and_append_children(rest);
            return KeyedPrefixResult::Finished;
        }
        // And if that was all of the new children, then remove all of the
        // remaining old children.

        if i == news.len() {
            self.change_list.go_to_sibling(i);
            self.change_list.commit_traversal();
            self.remove_self_and_next_siblings(slice_subrange(olds, i, olds.len()));
            return KeyedPrefixResult::Finished;
        }
        self.change_list.go_up();
        KeyedPrefixResult::MoreWorkToDo(i)
    }

    /// Diffs the suffix of children that share the same keys in the same order.
    ///
    /// The parent has to be on top of the change list stack, which has the same
    /// shape afterwards:
    ///
    ///     [... parent]
    pub fn diff_keyed_suffix(
        &mut self,
        olds: &[VNode<'a>],
        news: &[VNode<'a>],
        new_shared_suffix_start: usize,
    )
        requires
            olds@.len() == news@.len(),
            olds@.len() > 0,
            new_shared_suffix_start + news@.len() <= usize::MAX,
            forall|i: int|
                #![trigger olds@[i], news@[i]]
                0 <= i < olds@.len() ==> can_diff(olds@[i], news@[i]),
            old(self).change_list@.has_room(slots_walk(olds@, news@, olds@.len() as int)),
        ensures
            final(self).has_taken(
                *old(self),
                suffix_steps(
                    olds@,
                    news@,
                    new_shared_suffix_start as int,
                    old(self).change_list@.next_temporary,
                ),
            ),
            final(self).change_list@.next_temporary == old(self).change_list@.next_temporary,
        decreases size_all(olds@), 2nat, 0int,
    {
        proof {
            self.change_list.lemma_next_temporary();
        }
        // [... parent]
        self.change_list.go_down();
        // [... parent new_child]
        self.walk(olds, news, new_shared_suffix_start, olds.len());
        // [... parent]
        self.change_list.go_up();
    }

    // ======================
    // Support methods
    // ======================

    /// Emits instructions to create the given virtual node.
    ///
    /// The change list stack may have any shape before. After it, the new node
    /// is on top of the stack:
    ///
    ///     [... node]
    pub fn create(&mut self, node: &VNode<'a>)
        requires
            old(self).change_list@.is_committed(),
            renderable(*node),
        ensures
            final(self).has_taken(*old(self), create_steps(*node)),
            final(self).change_list@.is_committed(),
            final(self).change_list@.next_temporary == old(self).change_list@.next_temporary,
        decreases *node,
    {
        let ghost start = self.change_list@;
        match node {
            VNode::Text(t) => {
                self.change_list.create_text_node(t.text);
                proof {
                    assert(create_steps(*node) =~= Seq::empty().push(
                        Step::Do(Edit::CreateTextNode(t.text)),
                    ));
                }
            },
            VNode::Element(e) => {
                if let Some(namespace) = e.namespace {
                    self.change_list.create_element_ns(e.tag_name, namespace);
                } else {
                    self.change_list.create_element(e.tag_name);
                }
                let ghost head = seq![create_element_step(*e)];
                let ghost opened = self.change_list@;
                let mut i: usize = 0;
                proof {
                    assert(add_listener_steps(e.listeners@.take(0)) =~= Seq::empty());
                }
                while i < e.listeners.len()
                    invariant
                        i <= e.listeners.len(),
                        self.change_list@ == opened.perform(
                            add_listener_steps(e.listeners@.take(i as int)),
                        ),
                        self.change_list@.is_committed(),
                        self.change_list@.next_temporary == start.next_temporary,
                        self.immediate_queue == old(self).immediate_queue,
                        self.diffed == old(self).diffed,
                        self.need_to_diff == old(self).need_to_diff,
                    decreases e.listeners.len() - i,
                {
                    self.change_list.new_event_listener(&e.listeners[i]);
                    proof {
                        lemma_add_listener_push(e.listeners@, i as int);
                    }
                    i += 1;
                }
                let ghost listening = self.change_list@;
                let is_namespaced = e.namespace.is_some();
                let mut k: usize = 0;
                proof {
                    assert(e.listeners@.take(i as int) =~= e.listeners@);
                    assert(add_attr_steps(e.attributes@.take(0), is_namespaced) =~= Seq::empty());
                }
                while k < e.attributes.len()
                    invariant
                        k <= e.attributes.len(),
                        self.change_list@ == listening.perform(
                            add_attr_steps(e.attributes@.take(k as int), is_namespaced),
                        ),
                        self.change_list@.is_committed(),
                        self.change_list@.next_temporary == start.next_temporary,
                        self.immediate_queue == old(self).immediate_queue,
                        self.diffed == old(self).diffed,
                        self.need_to_diff == old(self).need_to_diff,
                    decreases e.attributes.len() - k,
                {
                    let a = &e.attributes[k];
                    self.change_list.set_attribute(a.name, a.value, is_namespaced);
                    proof {
                        lemma_add_attr_push(e.attributes@, is_namespaced, k as int);
                    }
                    k += 1;
                }
                proof {
                    assert(e.attributes@.take(k as int) =~= e.attributes@);
                    assert(self.change_list@ == start.perform(open_element_steps(*e)));
                }
                // A single text child is created and appended at once, by
                // setting the text content of its parent.
                if e.children.len() == 1 {
                    if let VNode::Text(t) = &e.children[0] {
                        self.change_list.set_text(t.text);
                        proof {
                            assert(is_sole_text(e.children@));
                            assert(seq![Step::Do(Edit::SetText(t.text))] =~= Seq::empty().push(
                                Step::Do(Edit::SetText(t.text)),
                            ));
                        }
                        return ;
                    }
                }
                self.create_and_append_children(e.children.as_slice());
            },
            _ => {},
        }
    }

    /// Removes all of a node's children.
    ///
    /// The change list stack is left unchanged:
    ///
    ///     [... parent]
    pub fn remove_all_children(&mut self, olds: &[VNode<'a>])
        requires
            old(self).change_list@.is_committed(),
        ensures
            final(self).has_taken(*old(self), clear_steps()),
            final(self).change_list@.is_committed(),
            final(self).change_list@.next_temporary == old(self).change_list@.next_temporary,
    {
        // The fast way to do it is to set the node's text content to nothing.

        self.change_list.set_text("");
        proof {
            assert(clear_steps::<'a>() =~= Seq::empty().push(Step::Do(Edit::SetText(""))));
        }
    }

    /// Creates the given children and appends them to the parent node.
    ///
    /// The change list stack is left unchanged:
    ///
    ///     [... parent]
    pub fn create_and_append_children(&mut self, news: &[VNode<'a>])
        requires
            old(self).change_list@.is_committed(),
            renderable_all(news@),
        ensures
            final(self).has_taken(*old(self), append_steps(news@)),
            final(self).change_list@.is_committed(),
            final(self).change_list@.next_temporary == old(self).change_list@.next_temporary,
        decreases news@,
    {
        let ghost start = self.change_list@;
        let mut i: usize = 0;
        while i < news.len()
            invariant
                i <= news.len(),
                renderable_all(news@),
                self.change_list@ == start.perform(append_steps(news@.take(i as int))),
                self.change_list@.is_committed(),
                self.change_list@.next_temporary == start.next_temporary,
                self.immediate_queue == old(self).immediate_queue,
                self.diffed == old(self).diffed,
                self.need_to_diff == old(self).need_to_diff,
            decreases news.len() - i,
        {
            proof {
                assert(news@.take(i + 1).drop_last() =~= news@.take(i as int));
                assert(renderable(news@[i as int]));
            }
            self.create(&news[i]);
            self.change_list.append_child();
            i += 1;
        }
        proof {
            assert(news@.take(i as int) =~= news@);
        }
    }

    /// Removes the current child and all of its following siblings.
    ///
    /// The change list stack has to have this shape:
    ///
    ///     [... parent child]
    ///
    /// After it, the child is no longer on the change list stack:
    ///
    ///     [... parent]
    pub fn remove_self_and_next_siblings(&mut self, olds: &[VNode<'a>])
        requires
            old(self).change_list@.is_committed(),
        ensures
            final(self).has_taken(*old(self), cut_steps()),
            final(self).change_list@.is_committed(),
            final(self).change_list@.next_temporary == old(self).change_list@.next_temporary,
    {
        self.change_list.remove_self_and_next_siblings();
        proof {
            assert(cut_steps::<'a>() =~= Seq::empty().push(
                Step::Do(Edit::RemoveSelfAndNextSiblings),
            ));
        }
    }

    /// Diffs keyed children where neither a prefix nor a suffix is shared: the
    /// most general and most expensive case.
    ///
    /// The longest subsequence of old children that stand in the same order
    /// among the new ones remains in place, so that as few nodes as possible
    /// are moved.
    ///
    /// The parent has to be on top of the change list stack, which has the same
    /// shape afterwards:
    ///
    ///     [... parent]
    pub fn diff_keyed_middle(
        &mut self,
        olds: &[VNode<'a>],
        news: &[VNode<'a>],
        shared_prefix_count: usize,
        shared_suffix_count: usize,
        old_shared_suffix_start: usize,
    )
        requires
            can_diff_keyed(olds@, news@),
            ends_differ(olds@, news@),
            shared_prefix_count + olds@.len() <= usize::MAX,
            shared_suffix_count > 0 ==> anchor_of(olds@, news@, old_shared_suffix_start as int)
                >= 0,
            olds@.len() <= u32::MAX,
            news@.len() < u32::MAX,
            old(self).change_list@.has_room(slots_middle(olds@, news@)),
        ensures
            final(self).has_taken(
                *old(self),
                middle_steps(
                    olds@,
                    news@,
                    shared_prefix_count as int,
                    shared_suffix_count as int,
                    old_shared_suffix_start as int,
                    old(self).change_list@.next_temporary,
                ),
            ),
            final(self).change_list@.next_temporary == temps_end(
                olds@,
                news@,
                old(self).change_list@.next_temporary,
            ),
            middle_picks_longest(olds@, news@, shared_suffix_count as int),
        decreases size_all(olds@), 6nat, 0int,
    {
        proof {
            self.change_list.lemma_next_temporary();
        }
        let ghost t = self.change_list@.next_temporary;
        let ghost flags = reused(olds@, news@);
        proof {
            reveal(can_diff_keyed);
            reveal(middle_steps);
            lemma_count_le(flags);
        }
        let old_key_to_old_index = index_by_key(olds);
        // The keys that `news` and `olds` share, and for each new node the
        // index of the old node that has the same key.
        let (new_index_to_old_index, shared_keys) = find_sources(
            olds,
            news,
            &old_key_to_old_index,
        );
        proof {
            lemma_reused_none(olds@, news@);
        }
        // If none of the old keys are reused by the new children, then remove
        // all the old children and create the new children afresh.
        if shared_suffix_count == 0 && shared_keys.is_empty() {
            if shared_prefix_count == 0 {
                self.change_list.commit_traversal();
                self.remove_all_children(olds);
            } else {
                self.change_list.go_down_to_child(shared_prefix_count);
                self.change_list.commit_traversal();
                self.remove_self_and_next_siblings(olds);
            }
            proof {
                assert forall|j: int| 0 <= j < news@.len() implies renderable(
                    #[trigger] news@[j],
                ) by {
                    if has_key(olds@, news@[j].key()) {
                        let i = choose|i: int|
                            0 <= i < olds@.len() && (#[trigger] olds@[i]).key() == news@[j].key();
                        assert(has_key(news@, olds@[i].key()));
                    }
                }
            }
            self.create_and_append_children(news);
            return ;
        }
        // Save each of the old children whose keys are reused.

        let old_index_to_temp = self.save_reused(olds, news, &shared_keys, shared_prefix_count);
        // Remove any old children whose keys were not reused. Remove from the
        // end first, so that the indices stay right.
        let removed_count: usize = self.remove_unused(
            olds,
            news,
            &shared_keys,
            shared_prefix_count,
        );
        // If there are no more new children, then that is all.
        if news.is_empty() {
            return ;
        }
        // These nodes are left in place, and only nodes that are not part of
        // them are moved.

        let new_index_is_in_lis = longest_increasing_subsequence_of(&new_index_to_old_index);
        let anchor: usize = if shared_suffix_count > 0 {
            old_shared_suffix_start - removed_count
        } else {
            0
        };
        proof {
            assert(temps_end(olds@, news@, t) == self.change_list@.next_temporary);
            assert((self.change_list@.next_temporary - count(flags)) as nat == t);
        }
        self.settle_keyed_middle(
            olds,
            news,
            &new_index_to_old_index,
            &old_index_to_temp,
            &new_index_is_in_lis,
            shared_suffix_count > 0,
            anchor,
        );
        proof {
            lemma_settle_anchor(
                olds@,
                news@,
                new_index_is_in_lis@,
                shared_suffix_count > 0,
                anchor as int,
                anchor_of(olds@, news@, old_shared_suffix_start as int),
                t,
            );
        }
    }

    /// Saves each of the old children whose key is reused in a temporary, and
    /// returns for each of these the temporary.
    ///
    ///     [... parent]
    fn save_reused(
        &mut self,
        olds: &[VNode<'a>],
        news: &[VNode<'a>],
        shared_keys: &FxHashSet<u64>,
        shared_prefix_count: usize,
    ) -> (temps: Vec<u32>)
        requires
            uniquely_keyed(olds@),
            are_shared_keys(olds@, news@, shared_keys@),
            shared_prefix_count + olds@.len() <= usize::MAX,
            old(self).change_list@.next_temporary + count(reused(olds@, news@)) <= u32::MAX,
        ensures
            final(self).has_taken(
                *old(self),
                save_steps(
                    reused(olds@, news@),
                    0,
                    shared_prefix_count as int,
                    old(self).change_list@.next_temporary,
                ),
            ),
            final(self).change_list@.next_temporary == temps_end(
                olds@,
                news@,
                old(self).change_list@.next_temporary,
            ),
            are_temps(olds@, news@, old(self).change_list@.next_temporary, temps@),
    {
        let ghost t = self.change_list@.next_temporary;
        let ghost flags = reused(olds@, news@);
        let ghost p = shared_prefix_count as int;
        let ghost target = self.change_list@.perform(save_steps(flags, 0, p, t));
        let mut temps: Vec<u32> = vec![u32::MAX; olds.len()];
        let mut start: usize = 0;
        let mut done = false;
        proof {
            assert(flags.take(0) =~= Seq::empty());
        }
        while !done
            invariant
                start <= olds.len(),
                temps@.len() == olds@.len(),
                flags == reused(olds@, news@),
                p == shared_prefix_count,
                uniquely_keyed(olds@),
                are_shared_keys(olds@, news@, shared_keys@),
                shared_prefix_count + olds@.len() <= usize::MAX,
                t + count(flags) <= u32::MAX,
                self.change_list@.next_temporary == t + count(flags.take(start as int)),
                !done ==> self.change_list@.perform(
                    save_steps(flags, start as int, p, self.change_list@.next_temporary),
                ) == target,
                done ==> self.change_list@ == target && start == olds.len(),
                forall|i: int|
                    0 <= i < start && flags[i] ==> #[trigger] temps@[i] == temp_of(flags, t, i),
                self.immediate_queue == old(self).immediate_queue,
                self.diffed == old(self).diffed,
                self.need_to_diff == old(self).need_to_diff,
            decreases olds.len() - start,
                (if done {
                    0nat
                } else {
                    1nat
                }),
        {
            let mut end: usize = start;
            while end < olds.len() && has_shared_key(&olds[end], shared_keys)
                invariant
                    start <= end <= olds.len(),
                    flags == reused(olds@, news@),
                    uniquely_keyed(olds@),
                    are_shared_keys(olds@, news@, shared_keys@),
                    run_end(flags, start as int) == run_end(flags, end as int),
                decreases olds.len() - end,
            {
                end += 1;
            }
            proof {
                assert(end < olds.len() ==> !flags[end as int]);
                assert(run_end(flags, start as int) == end);
                lemma_run_end(flags, start as int);
                lemma_count_run(flags, start as int, end as int);
                lemma_count_take(flags, end as int);
            }
            if end > start {
                self.change_list.commit_traversal();
                let first: u32 = self.change_list.save_children_to_temporaries(
                    shared_prefix_count + start,
                    shared_prefix_count + end,
                );
                let mut i: usize = start;
                while i < end
                    invariant
                        start <= i <= end,
                        end <= olds.len(),
                        olds@.len() == flags.len(),
                        temps@.len() == olds@.len(),
                        first == t + count(flags.take(start as int)),
                        first + (end - start) <= u32::MAX,
                        forall|k: int| start <= k < end ==> #[trigger] flags[k],
                        forall|i: int|
                            0 <= i < start && flags[i] ==> #[trigger] temps@[i] == temp_of(
                                flags,
                                t,
                                i,
                            ),
                        forall|k: int|
                            start <= k < i ==> #[trigger] temps@[k] == first + (k - start),
                    decreases end - i,
                {
                    temps.set(i, first + (i - start) as u32);
                    i += 1;
                }
                proof {
                    assert forall|i: int| 0 <= i < end && flags[i] implies #[trigger] temps@[i]
                        == temp_of(flags, t, i) by {
                        if i >= start {
                            lemma_count_run(flags, start as int, i);
                        }
                    }
                }
            }
            if end == olds.len() {
                done = true;
                start = end;
            } else {
                proof {
                    assert(flags.take(end + 1).drop_last() =~= flags.take(end as int));
                    assert(flags.take(end + 1).last() == flags[end as int]);
                }
                start = end + 1;
            }
        }
        proof {
            assert(flags.take(start as int) =~= flags);
        }
        temps
    }

    /// Removes the old children whose key is not reused, and returns how many
    /// these are.
    ///
    ///     [... parent]
    fn remove_unused(
        &mut self,
        olds: &[VNode<'a>],
        news: &[VNode<'a>],
        shared_keys: &FxHashSet<u64>,
        shared_prefix_count: usize,
    ) -> (removed: usize)
        requires
            uniquely_keyed(olds@),
            are_shared_keys(olds@, news@, shared_keys@),
            shared_prefix_count + olds@.len() <= usize::MAX,
        ensures
            final(self).has_taken(
                *old(self),
                drop_steps(
                    reused(olds@, news@),
                    olds@.len() as int,
                    shared_prefix_count as int,
                ),
            ),
            final(self).change_list@.next_temporary == old(self).change_list@.next_temporary,
            removed == olds@.len() - count(reused(olds@, news@)),
    {
        let ghost flags = reused(olds@, news@);
        let ghost p = shared_prefix_count as int;
        let ghost target = self.change_list@.perform(drop_steps(flags, olds@.len() as int, p));
        let mut i: usize = olds.len();
        let mut removed: usize = 0;
        proof {
            assert(flags.take(i as int) =~= flags);
        }
        while i > 0
            invariant
                i <= olds.len(),
                flags == reused(olds@, news@),
                p == shared_prefix_count,
                uniquely_keyed(olds@),
                are_shared_keys(olds@, news@, shared_keys@),
                shared_prefix_count + olds@.len() <= usize::MAX,
                removed == (olds@.len() - i) - (count(flags) - count(flags.take(i as int))),
                removed <= olds@.len() - i,
                self.change_list@.perform(drop_steps(flags, i as int, p)) == target,
                self.change_list@.next_temporary == old(self).change_list@.next_temporary,
                self.immediate_queue == old(self).immediate_queue,
                self.diffed == old(self).diffed,
                self.need_to_diff == old(self).need_to_diff,
            decreases i,
        {
            i -= 1;
            proof {
                assert(flags.take(i + 1).drop_last() =~= flags.take(i as int));
                assert(flags.take(i + 1).last() == flags[i as int]);
                lemma_count_take(flags, i as int);
            }
            if !has_shared_key(&olds[i], shared_keys) {
                self.change_list.commit_traversal();
                self.change_list.remove_child(i + shared_prefix_count);
                removed += 1;
            }
        }
        proof {
            assert(flags.take(0) =~= Seq::empty());
        }
        removed
    }

    /// Brings the reused and the fresh nodes into the new order, once the other
    /// old nodes are removed and the reused ones are saved. The new nodes at the
    /// indices in `new_index_is_in_lis` that reuse an old node stay in place.
    ///
    /// With a shared suffix behind these nodes, `anchor` is the index of the
    /// child that the suffix starts with.
    ///
    ///     [... parent]
    pub fn settle_keyed_middle(
        &mut self,
        olds: &[VNode<'a>],
        news: &[VNode<'a>],
        new_index_to_old_index: &Vec<usize>,
        old_index_to_temp: &Vec<u32>,
        new_index_is_in_lis: &FxHashSet<usize>,
        with_suffix: bool,
        anchor: usize,
    )
        requires
            can_diff_keyed(olds@, news@),
            news@.len() > 0,
            new_index_to_old_index@ == sources(olds@, news@),
            old(self).change_list@.next_temporary >= count(reused(olds@, news@)),
            are_temps(
                olds@,
                news@,
                (old(self).change_list@.next_temporary - count(reused(olds@, news@))) as nat,
                old_index_to_temp@,
            ),
            olds@.len() <= u32::MAX,
            old(self).change_list@.has_room(slots_sources(olds@, news@, news@.len() as int)),
        ensures
            final(self).has_taken(
                *old(self),
                settle_steps(
                    olds@,
                    news@,
                    new_index_is_in_lis@,
                    with_suffix,
                    anchor as int,
                    (old(self).change_list@.next_temporary - count(reused(olds@, news@))) as nat,
                ),
            ),
            final(self).change_list@.next_temporary == old(self).change_list@.next_temporary,
        decreases size_all(olds@), 4nat, 0int,
    {
        let ghost flags = reused(olds@, news@);
        let ghost t = (self.change_list@.next_temporary - count(flags)) as nat;
        let ghost lis = new_index_is_in_lis@;
        let ghost srcs = sources(olds@, news@);
        let ghost t2 = temps_end(olds@, news@, t);
        proof {
            self.change_list.lemma_next_temporary();
            lemma_sources(olds@, news@);
        }
        let mut k: usize = news.len();
        if with_suffix {
            // [... parent]
            self.change_list.go_down_to_child(anchor);
            // [... parent first_child_of_shared_suffix]
        } else {
            k = news.len() - 1;
            let last = &news[k];
            let old_index = new_index_to_old_index[k];
            if old_index < olds.len() {
                let temp = old_index_to_temp[old_index];
                proof {
                    lemma_source_ready(olds@, news@, k as int, t, old_index_to_temp@);
                }
                // [... parent]
                self.change_list.go_down_to_temp_child(temp);
                // [... parent last]
                self.diff_node(&olds[old_index], last);
                if !is_in(new_index_is_in_lis, k) {
                    self.change_list.commit_traversal();
                    // [... parent last]
                    self.change_list.append_child();
                    // [... parent]
                    if is_node_kept(&olds[old_index], last) {
                        self.change_list.go_down_to_temp_child(temp);
                    } else {
                        self.change_list.go_down_to_reverse_child(0);
                    }
                    // [... parent last]
                }
            } else {
                proof {
                    lemma_source_missing(olds@, news@, k as int);
                }
                self.change_list.commit_traversal();
                // [... parent]
                self.create(last);
                // [... parent last]
                self.change_list.append_child();
                // [... parent]
                self.change_list.go_down_to_reverse_child(0);
                // [... parent last]
            }
        }
        let ghost anchored = self.change_list@;
        proof {
            assert(anchored == old(self).change_list@.perform(
                anchor_steps(olds@, news@, lis, with_suffix, anchor as int, t),
            ));
        }
        let ghost target = self.change_list@.perform(
            place_steps(olds@, news@, lis, k as int, t),
        );
        while k > 0
            invariant
                k <= news@.len(),
                can_diff_keyed(olds@, news@),
                new_index_to_old_index@ == sources(olds@, news@),
                srcs == sources(olds@, news@),
                flags == reused(olds@, news@),
                lis == new_index_is_in_lis@,
                t2 == temps_end(olds@, news@, t),
                are_temps(olds@, news@, t, old_index_to_temp@),
                t2 + slots_sources(olds@, news@, news@.len() as int) <= u32::MAX,
                olds@.len() <= u32::MAX,
                forall|j: int|
                    0 <= j < news@.len() ==> #[trigger] srcs[j] < olds@.len() || srcs[j]
                        == no_index(),
                self.change_list@.perform(place_steps(olds@, news@, lis, k as int, t)) == target,
                self.change_list@.next_temporary == t2,
                self.immediate_queue == old(self).immediate_queue,
                self.diffed == old(self).diffed,
                self.need_to_diff == old(self).need_to_diff,
            decreases k,
        {
            k -= 1;
            let new_child = &news[k];
            let old_index = new_index_to_old_index[k];
            let ghost before = *self;
            if old_index >= olds.len() {
                proof {
                    lemma_source_missing(olds@, news@, k as int);
                }
                self.change_list.commit_traversal();
                // [... parent successor]
                self.create(new_child);
                // [... parent successor new_child]
                self.change_list.insert_before();
                // [... parent new_child]
            } else {
                let temp = old_index_to_temp[old_index];
                proof {
                    lemma_source_ready(olds@, news@, k as int, t, old_index_to_temp@);
                }
                if is_in(new_index_is_in_lis, k) {
                    // [... parent successor]
                    self.change_list.go_to_temp_sibling(temp);
                    // [... parent new_child]
                } else {
                    self.change_list.commit_traversal();
                    // [... parent successor]
                    self.change_list.push_temporary(temp);
                    // [... parent successor new_child]
                    self.change_list.insert_before();
                    // [... parent new_child]
                }
                self.diff_node(&olds[old_index], new_child);
            }
            proof {
                assert(self.has_taken(
                    before,
                    place_one_steps(olds@, news@, lis, k as int, t),
                ));
            }
        }
        // [... parent child]
        self.change_list.go_up();
        // [... parent]
    }
}

} // verus!
