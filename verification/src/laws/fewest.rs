//! How many physical nodes a diff moves.
use crate::diff::lemma_middle_can_diff;
use crate::diff::lemma_prefix_renderable;
use crate::keys::has_key;
use crate::keys::index_of_key;
use crate::keys::lemma_index_of_key;
use crate::keys::lemma_prefix_from;
use crate::keys::lemma_run_end;
use crate::keys::no_index;
use crate::keys::none_reused;
use crate::keys::reused;
use crate::keys::run_end;
use crate::keys::shared_prefix;
use crate::keys::shared_suffix;
use crate::keys::sources;
use crate::keys::uniquely_keyed;
use crate::laws::moves::lemma_moves_add;
use crate::laws::moves::lemma_moves_empty;
use crate::laws::moves::lemma_moves_push;
use crate::laws::moves::lemma_no_moves;
use crate::laws::moves::moves_in;
use crate::laws::turn::key_apart;
use crate::laws::turn::lemma_keys_apart;
use crate::laws::turn::lemma_partner;
use crate::laws::turn::lemma_suffix_keys;
use crate::lis::increasing;
use crate::lis::lemma_least_end;
use crate::lis::lemma_longest;
use crate::lis::longest_increasing;
use crate::lis::picked;
use crate::steps::add_attr_steps;
use crate::steps::add_listener_steps;
use crate::steps::anchor_of;
use crate::steps::append_steps;
use crate::steps::can_diff;
use crate::steps::can_diff_children;
use crate::steps::can_diff_keyed;
use crate::steps::children_steps;
use crate::steps::create_steps;
use crate::steps::drop_attr_steps;
use crate::steps::drop_listener_steps;
use crate::steps::drop_steps;
use crate::steps::has_source;
use crate::steps::keyed_picks_longest;
use crate::steps::keyed_steps;
use crate::steps::lemma_beyond_prefix_steps;
use crate::steps::lemma_keyed_steps;
use crate::steps::listener_steps;
use crate::steps::middle_picks_longest;
use crate::steps::middle_steps;
use crate::steps::middle_steps_with;
use crate::steps::node_steps;
use crate::steps::place_one_steps;
use crate::steps::place_steps;
use crate::steps::prefix_steps;
use crate::steps::put_listener_steps;
use crate::steps::save_steps;
use crate::steps::set_attr_steps;
use crate::steps::settle_steps;
use crate::steps::source_steps;
use crate::steps::suffix_steps;
use crate::steps::takes_text;
use crate::steps::temps_end;
use crate::steps::walk_steps;
use crate::vnode::Attribute;
use crate::vnode::Listener;
use crate::vnode::VNode;
use crate::vnode::lemma_size_index;
use crate::vnode::renderable;
use crate::vnode::renderable_all;
use crate::vnode::size;
use crate::vnode::size_all;
use vstd::prelude::*;

verus! {

broadcast use {lemma_moves_empty, lemma_moves_push, lemma_moves_add};

// ---------------------------------------------------------------------------
// Moves in creating, saving and removing
// ---------------------------------------------------------------------------

proof fn lemma_moves_create<'a>(n: VNode<'a>)
    requires
        renderable(n),
    ensures
        moves_in(create_steps(n)) == -1,
    decreases n,
{
    match n {
        VNode::Element(e) => {
            lemma_no_moves(add_listener_steps(e.listeners@));
            lemma_no_moves(add_attr_steps(e.attributes@, e.namespace is Some));
            lemma_moves_append(e.children@);
        },
        _ => {},
    }
}

proof fn lemma_moves_append<'a>(ns: Seq<VNode<'a>>)
    requires
        renderable_all(ns),
    ensures
        moves_in(append_steps(ns)) == 0,
    decreases ns,
{
    if ns.len() > 0 {
        assert(renderable(ns[ns.len() - 1]));
        assert forall|i: int| 0 <= i < ns.len() - 1 implies renderable(
            #[trigger] ns.drop_last()[i],
        ) by {
            assert(renderable(ns[i]));
        }
        lemma_moves_append(ns.drop_last());
        lemma_moves_create(ns.last());
    }
}

proof fn lemma_moves_save<'a>(flags: Seq<bool>, start: int, base: int, t: nat)
    requires
        0 <= start,
    ensures
        moves_in(save_steps::<'a>(flags, start, base, t)) == 0,
    decreases flags.len() - start,
{
    if start <= flags.len() {
        lemma_run_end(flags, start);
        let end = run_end(flags, start);
        if end < flags.len() {
            lemma_moves_save(flags, end + 1, base, (t + (end - start)) as nat);
        }
    }
}

proof fn lemma_moves_drop<'a>(flags: Seq<bool>, n: int, base: int)
    ensures
        moves_in(drop_steps::<'a>(flags, n, base)) == 0,
    decreases n,
{
    if 0 < n <= flags.len() {
        lemma_moves_drop(flags, n - 1, base);
    }
}

proof fn lemma_moves_attrs<'a>(
    old: Seq<Attribute<'a>>,
    new: Seq<Attribute<'a>>,
    is_namespaced: bool,
)
    ensures
        moves_in(set_attr_steps(old, new, is_namespaced)) == 0,
    decreases new.len(),
{
    if new.len() > 0 {
        lemma_moves_attrs(old, new.drop_last(), is_namespaced);
    }
}

proof fn lemma_moves_old_attrs<'a>(old: Seq<Attribute<'a>>, new: Seq<Attribute<'a>>)
    ensures
        moves_in(drop_attr_steps(old, new)) == 0,
    decreases old.len(),
{
    if old.len() > 0 {
        lemma_moves_old_attrs(old.drop_last(), new);
    }
}

proof fn lemma_moves_listeners<'a>(old: Seq<Listener<'a>>, new: Seq<Listener<'a>>)
    ensures
        moves_in(listener_steps(old, new)) == 0,
{
    lemma_no_moves(put_listener_steps(old, new));
    lemma_no_moves(drop_listener_steps(old, new));
}

// ---------------------------------------------------------------------------
// Moves in the middle
// ---------------------------------------------------------------------------

/// How many moves it takes to diff old nodes with the first `k` new nodes that
/// have their keys, beneath those nodes.
pub open spec fn nested_moves(olds: Seq<VNode>, news: Seq<VNode>, k: int, t: nat) -> int
    decreases k,
{
    if k <= 0 {
        0
    } else {
        nested_moves(olds, news, k - 1, t) + moves_in(source_steps(olds, news, k - 1, t))
    }
}

/// How many of the first `k` new nodes there is an old node for.
pub open spec fn reused_count(olds: Seq<VNode>, news: Seq<VNode>, k: int) -> nat
    decreases k,
{
    if k <= 0 {
        0
    } else if has_source(olds, news, k - 1) {
        reused_count(olds, news, k - 1) + 1
    } else {
        reused_count(olds, news, k - 1)
    }
}

/// How many of the first `k` new nodes get the physical node of an old one that
/// is moved, if those at the indices in `kept` stay in place.
pub open spec fn moved_count(olds: Seq<VNode>, news: Seq<VNode>, kept: Set<usize>, k: int) -> nat
    decreases k,
{
    if k <= 0 {
        0
    } else if has_source(olds, news, k - 1) && !kept.contains((k - 1) as usize) {
        moved_count(olds, news, kept, k - 1) + 1
    } else {
        moved_count(olds, news, kept, k - 1)
    }
}

/// Whether the old nodes for the new nodes at the indices in `kept` stand in the
/// order in which the new nodes do, so that they can all stay in place.
pub open spec fn can_stay(olds: Seq<VNode>, news: Seq<VNode>, kept: Set<usize>) -> bool {
    &&& increasing(sources(olds, news), kept)
    &&& forall|j: usize| #[trigger] kept.contains(j) ==> has_source(olds, news, j as int)
}

proof fn lemma_moved_count(
    olds: Seq<VNode>,
    news: Seq<VNode>,
    kept: Set<usize>,
    reused: Set<usize>,
    k: int,
)
    requires
        kept.finite(),
        forall|j: usize| #[trigger] reused.contains(j) <==> kept.contains(j) && has_source(
            olds,
            news,
            j as int,
        ) && j < k,
        0 <= k <= usize::MAX,
    ensures
        reused.finite(),
        reused.len() + moved_count(olds, news, kept, k) == reused_count(olds, news, k),
    decreases k,
{
    vstd::set_lib::lemma_len_subset(reused, kept);
    if k == 0 {
        assert(reused =~= Set::empty());
    } else {
        let last = (k - 1) as usize;
        let rest = reused.remove(last);
        lemma_moved_count(olds, news, kept, rest, k - 1);
        if !reused.contains(last) {
            assert(rest =~= reused);
        }
    }
}

/// The nodes of a longest increasing subsequence are as many as can be left in
/// place, so that as few nodes as possible are moved: whichever nodes could
/// stay in place otherwise, at least as many would have to be moved.
pub proof fn law_fewest_moves(
    olds: Seq<VNode>,
    news: Seq<VNode>,
    lis: Set<usize>,
    kept: Set<usize>,
)
    requires
        olds.len() <= u32::MAX,
        news.len() < u32::MAX,
        longest_increasing(sources(olds, news), lis),
        can_stay(olds, news, kept),
    ensures
        moved_count(olds, news, lis, news.len() as int) <= moved_count(
            olds,
            news,
            kept,
            news.len() as int,
        ),
{
    let srcs = sources(olds, news);
    let n = news.len() as int;
    let stay = Set::new(
        |j: usize| lis.contains(j) && has_source(olds, news, j as int) && j < n,
    );
    lemma_longest(srcs, lis, kept);
    lemma_moved_count(olds, news, lis, stay, n);
    lemma_moved_count(olds, news, kept, kept, n);
    if exists|i: usize| #[trigger] lis.contains(i) && !has_source(olds, news, i as int) {
        let i = choose|i: usize| #[trigger]
            lis.contains(i) && !has_source(olds, news, i as int);
        lemma_no_source_value(olds, news, i as int);
        assert forall|j: usize| #[trigger] lis.contains(j) && j != i implies has_source(
            olds,
            news,
            j as int,
        ) by {
            if !has_source(olds, news, j as int) {
                lemma_no_source_value(olds, news, j as int);
            }
        }
        assert(stay =~= lis.remove(i));
        if kept.len() == lis.len() {
            let j = lemma_least_end(srcs, lis, kept, i);
            assert(has_source(olds, news, j as int));
        }
    } else {
        assert(stay =~= lis);
    }
}

proof fn lemma_no_source_value(olds: Seq<VNode>, news: Seq<VNode>, j: int)
    requires
        0 <= j < news.len(),
        olds.len() <= u32::MAX,
        !has_source(olds, news, j),
    ensures
        sources(olds, news)[j] == no_index(),
{
    lemma_index_of_key(olds, news[j].key());
}

proof fn lemma_made<'a>(olds: Seq<VNode<'a>>, news: Seq<VNode<'a>>, j: int)
    requires
        can_diff_keyed(olds, news),
        olds.len() <= u32::MAX,
        0 <= j < news.len(),
        !has_source(olds, news, j),
    ensures
        renderable(news[j]),
{
    reveal(can_diff_keyed);
    lemma_index_of_key(olds, news[j].key());
}

proof fn lemma_moves_place_one<'a>(
    olds: Seq<VNode<'a>>,
    news: Seq<VNode<'a>>,
    lis: Set<usize>,
    j: int,
    t: nat,
)
    requires
        can_diff_keyed(olds, news),
        olds.len() <= u32::MAX,
        0 <= j < news.len(),
    ensures
        moves_in(place_one_steps(olds, news, lis, j, t)) == moved_count(olds, news, lis, j + 1)
            - moved_count(olds, news, lis, j) + moves_in(
            source_steps(olds, news, j, temps_end(olds, news, t)),
        ),
{
    if !has_source(olds, news, j) {
        lemma_made(olds, news, j);
        lemma_moves_create(news[j]);
    }
}

proof fn lemma_moves_place<'a>(
    olds: Seq<VNode<'a>>,
    news: Seq<VNode<'a>>,
    lis: Set<usize>,
    k: int,
    t: nat,
)
    requires
        can_diff_keyed(olds, news),
        olds.len() <= u32::MAX,
        0 <= k <= news.len(),
    ensures
        moves_in(place_steps(olds, news, lis, k, t)) == moved_count(olds, news, lis, k)
            + nested_moves(olds, news, k, temps_end(olds, news, t)),
    decreases k,
{
    if k > 0 {
        lemma_moves_place_one(olds, news, lis, k - 1, t);
        lemma_moves_place(olds, news, lis, k - 1, t);
    }
}

proof fn lemma_moves_settle<'a>(
    olds: Seq<VNode<'a>>,
    news: Seq<VNode<'a>>,
    lis: Set<usize>,
    with_suffix: bool,
    anchor: int,
    t: nat,
)
    requires
        can_diff_keyed(olds, news),
        olds.len() <= u32::MAX,
        news.len() > 0,
    ensures
        moves_in(settle_steps(olds, news, lis, with_suffix, anchor, t)) == moved_count(
            olds,
            news,
            lis,
            news.len() as int,
        ) + nested_moves(olds, news, news.len() as int, temps_end(olds, news, t)),
{
    let n = news.len() as int;
    if with_suffix {
        lemma_moves_place(olds, news, lis, n, t);
    } else {
        lemma_moves_place(olds, news, lis, n - 1, t);
        if !has_source(olds, news, n - 1) {
            lemma_made(olds, news, n - 1);
            lemma_moves_create(news[n - 1]);
        }
    }
}

proof fn lemma_none_moved<'a>(
    olds: Seq<VNode<'a>>,
    news: Seq<VNode<'a>>,
    lis: Set<usize>,
    k: int,
    t: nat,
)
    requires
        none_reused(olds, news),
        olds.len() <= u32::MAX,
        0 <= k <= news.len(),
    ensures
        moved_count(olds, news, lis, k) == 0,
        nested_moves(olds, news, k, t) == 0,
    decreases k,
{
    if k > 0 {
        lemma_none_moved(olds, news, lis, k - 1, t);
        lemma_index_of_key(olds, news[k - 1].key());
        assert(!has_source(olds, news, k - 1));
    }
}

/// Of the nodes between the shared prefix and the shared suffix, those are moved
/// that have an old node and do not stay in place, whichever stay in place.
/// Beyond that only what diffing these nodes moves beneath them is moved.
pub proof fn law_moves_in_middle<'a>(
    olds: Seq<VNode<'a>>,
    news: Seq<VNode<'a>>,
    prefix: int,
    suffix: int,
    suffix_start: int,
    kept: Set<usize>,
    t: nat,
)
    requires
        can_diff_keyed(olds, news),
        olds.len() <= u32::MAX,
    ensures
        moves_in(middle_steps_with(olds, news, prefix, suffix, suffix_start, kept, t))
            == moved_count(olds, news, kept, news.len() as int) + nested_moves(
            olds,
            news,
            news.len() as int,
            temps_end(olds, news, t),
        ),
{
    let n = news.len() as int;
    if suffix == 0 && none_reused(olds, news) {
        lemma_none_moved(olds, news, kept, n, temps_end(olds, news, t));
        assert forall|j: int| 0 <= j < n implies renderable(#[trigger] news[j]) by {
            lemma_index_of_key(olds, news[j].key());
            lemma_made(olds, news, j);
        }
        lemma_moves_append(news);
    } else {
        let flags = reused(olds, news);
        lemma_moves_save(flags, 0, prefix, t);
        lemma_moves_drop(flags, flags.len() as int, prefix);
        if n > 0 {
            lemma_moves_settle(
                olds,
                news,
                kept,
                suffix > 0,
                anchor_of(olds, news, suffix_start),
                t,
            );
        }
    }
}

/// The nodes that are left in place are chosen so that as few moves as possible
/// are asked for: whichever nodes could stay in place otherwise, at least as
/// many moves would be asked for.
pub proof fn law_fewest_moves_in_middle<'a>(
    olds: Seq<VNode<'a>>,
    news: Seq<VNode<'a>>,
    prefix: int,
    suffix: int,
    suffix_start: int,
    kept: Set<usize>,
    t: nat,
)
    requires
        can_diff_keyed(olds, news),
        olds.len() <= u32::MAX,
        news.len() < u32::MAX,
        middle_picks_longest(olds, news, suffix),
        can_stay(olds, news, kept),
    ensures
        moves_in(middle_steps(olds, news, prefix, suffix, suffix_start, t)) <= moves_in(
            middle_steps_with(olds, news, prefix, suffix, suffix_start, kept, t),
        ),
{
    reveal(middle_steps);
    let lis = picked(sources(olds, news));
    law_moves_in_middle(olds, news, prefix, suffix, suffix_start, lis, t);
    law_moves_in_middle(olds, news, prefix, suffix, suffix_start, kept, t);
    if suffix == 0 && none_reused(olds, news) {
    } else if news.len() > 0 {
        law_fewest_moves(olds, news, lis, kept);
    }
}

// ---------------------------------------------------------------------------
// Nodes that are equal
// ---------------------------------------------------------------------------

/// Whether old and new nodes with the same key are equal.
pub open spec fn equal_by_key(olds: Seq<VNode>, news: Seq<VNode>) -> bool {
    forall|i: int, j: int|
        #![trigger olds[i], news[j]]
        0 <= i < olds.len() && 0 <= j < news.len() && olds[i].key() == news[j].key() ==> olds[i]
            == news[j]
}

/// Diffing a node with itself moves nothing.
pub proof fn law_no_moves_in_itself<'a>(n: VNode<'a>, t: nat)
    requires
        can_diff(n, n),
    ensures
        moves_in(node_steps(n, n, t)) == 0,
    decreases size(n), 0nat, 0int,
{
    match n {
        VNode::Element(e) => {
            lemma_moves_listeners(e.listeners@, e.listeners@);
            lemma_moves_attrs(e.attributes@, e.attributes@, e.namespace is Some);
            lemma_moves_old_attrs(e.attributes@, e.attributes@);
            lemma_moves_same_children(e.children@, t);
        },
        _ => {},
    }
}

proof fn lemma_moves_same_children<'a>(ns: Seq<VNode<'a>>, t: nat)
    requires
        can_diff_children(ns, ns),
    ensures
        moves_in(children_steps(ns, ns, t)) == 0,
    decreases size_all(ns), 2nat, 0int,
{
    if ns.len() > 0 {
        assert(!takes_text(ns, ns));
        if ns[0].key() is Some {
            reveal(can_diff_keyed);
            assert forall|i: int| 0 <= i < ns.len() implies can_diff(#[trigger] ns[i], ns[i]) by {
                assert(ns[i].key() == ns[i].key());
            }
            lemma_keyed_steps(ns, ns, t);
            lemma_prefix_from(ns, ns, 0);
            assert(ns.skip(ns.len() as int) =~= Seq::empty());
        }
        lemma_moves_walk(ns, ns, 0, ns.len() as int, t);
    }
}

proof fn lemma_moves_walk<'a>(
    olds: Seq<VNode<'a>>,
    news: Seq<VNode<'a>>,
    base: int,
    n: int,
    t: nat,
)
    requires
        0 <= n <= olds.len(),
        n <= news.len(),
        forall|i: int|
            #![trigger olds[i]]
            #![trigger news[i]]
            0 <= i < n ==> olds[i] == news[i] && can_diff(olds[i], news[i]),
    ensures
        moves_in(walk_steps(olds, news, base, n, t)) == 0,
    decreases size_all(olds), 1nat, n,
{
    if n > 0 {
        lemma_moves_walk(olds, news, base, n - 1, t);
        lemma_size_index(olds, n - 1);
        law_no_moves_in_itself(olds[n - 1], t);
    }
}

proof fn lemma_no_nested_moves<'a>(olds: Seq<VNode<'a>>, news: Seq<VNode<'a>>, k: int, t: nat)
    requires
        can_diff_keyed(olds, news),
        olds.len() <= u32::MAX,
        equal_by_key(olds, news),
        0 <= k <= news.len(),
    ensures
        nested_moves(olds, news, k, t) == 0,
    decreases k,
{
    if k > 0 {
        lemma_no_nested_moves(olds, news, k - 1, t);
        lemma_index_of_key(olds, news[k - 1].key());
        if has_source(olds, news, k - 1) {
            reveal(can_diff_keyed);
            let i = sources(olds, news)[k - 1] as int;
            assert(olds[i] == news[k - 1]);
            law_no_moves_in_itself(olds[i], t);
        }
    }
}

/// Where old and new nodes with the same key are equal, the moves that are
/// asked for are those of the nodes that have an old node and are not picked.
pub proof fn law_moves_of_equal<'a>(
    olds: Seq<VNode<'a>>,
    news: Seq<VNode<'a>>,
    prefix: int,
    suffix: int,
    suffix_start: int,
    t: nat,
)
    requires
        can_diff_keyed(olds, news),
        olds.len() <= u32::MAX,
        equal_by_key(olds, news),
    ensures
        moves_in(middle_steps(olds, news, prefix, suffix, suffix_start, t)) == moved_count(
            olds,
            news,
            picked(sources(olds, news)),
            news.len() as int,
        ),
{
    reveal(middle_steps);
    let lis = picked(sources(olds, news));
    law_moves_in_middle(olds, news, prefix, suffix, suffix_start, lis, t);
    lemma_no_nested_moves(olds, news, news.len() as int, temps_end(olds, news, t));
}

/// How many of the nodes between the shared prefix and the shared suffix have an
/// old node and are not picked to stay in place.
pub open spec fn moved_in_middle(olds: Seq<VNode>, news: Seq<VNode>) -> nat {
    let p = shared_prefix(olds, news);
    let s = shared_suffix(olds.skip(p), news.skip(p));
    if p < olds.len() && p < news.len() {
        let mid = olds.subrange(p, olds.len() - s);
        let new_mid = news.subrange(p, news.len() - s);
        moved_count(mid, new_mid, picked(sources(mid, new_mid)), new_mid.len() as int)
    } else {
        0
    }
}

proof fn lemma_moves_prefix<'a>(olds: Seq<VNode<'a>>, news: Seq<VNode<'a>>, t: nat)
    requires
        can_diff_keyed(olds, news),
        equal_by_key(olds, news),
    ensures
        moves_in(prefix_steps(olds, news, t)) == 0,
{
    let p = shared_prefix(olds, news);
    lemma_prefix_renderable(olds, news);
    lemma_prefix_from(olds, news, 0);
    lemma_moves_walk(olds, news, 0, p, t);
    if p == olds.len() {
        lemma_moves_append(news.skip(p));
    }
}

proof fn lemma_equal_by_key<'a>(
    olds: Seq<VNode<'a>>,
    news: Seq<VNode<'a>>,
    p: int,
    x: int,
    y: int,
)
    requires
        equal_by_key(olds, news),
        0 <= p <= x <= olds.len(),
        p <= y <= news.len(),
    ensures
        equal_by_key(olds.subrange(p, x), news.subrange(p, y)),
{
    let mid = olds.subrange(p, x);
    let new_mid = news.subrange(p, y);
    assert forall|i: int, j: int|
        #![trigger mid[i], new_mid[j]]
        0 <= i < mid.len() && 0 <= j < new_mid.len() && mid[i].key()
            == new_mid[j].key() implies mid[i] == new_mid[j] by {
        assert(olds[p + i] == news[p + j]);
    }
}

proof fn lemma_moves_suffix<'a>(
    olds: Seq<VNode<'a>>,
    news: Seq<VNode<'a>>,
    p: int,
    s: int,
    t: nat,
)
    requires
        can_diff_keyed(olds, news),
        equal_by_key(olds, news),
        p == shared_prefix(olds, news),
        p < olds.len(),
        p < news.len(),
        s == shared_suffix(olds.skip(p), news.skip(p)),
    ensures
        moves_in(
            suffix_steps(
                olds.subrange(olds.len() - s, olds.len() as int),
                news.subrange(news.len() - s, news.len() as int),
                news.len() - s,
                t,
            ),
        ) == 0,
{
    lemma_prefix_from(olds, news, 0);
    lemma_middle_can_diff(olds, news, p, s);
    let tail = olds.subrange(olds.len() - s, olds.len() as int);
    let new_tail = news.subrange(news.len() - s, news.len() as int);
    assert forall|i: int| #![trigger tail[i]] #![trigger new_tail[i]] 0 <= i < s implies tail[i]
        == new_tail[i] && can_diff(tail[i], new_tail[i]) by {
        lemma_suffix_keys(olds, news, p, s, i);
        assert(olds[olds.len() - s + i] == news[news.len() - s + i]);
    }
    lemma_moves_walk(tail, new_tail, news.len() - s, s, t);
}

/// Where old and new children with the same key are equal, the moves that
/// `diff_keyed_children` asks for are those of the nodes between the shared
/// prefix and the shared suffix that have an old node and are not picked.
pub proof fn law_moves_of_equal_children<'a>(
    olds: Seq<VNode<'a>>,
    news: Seq<VNode<'a>>,
    t: nat,
)
    requires
        can_diff_keyed(olds, news),
        equal_by_key(olds, news),
    ensures
        moves_in(keyed_steps(olds, news, t)) == moved_in_middle(olds, news),
{
    let p = shared_prefix(olds, news);
    lemma_keyed_steps(olds, news, t);
    lemma_moves_prefix(olds, news, t);
    lemma_prefix_from(olds, news, 0);
    if p < olds.len() && p < news.len() {
        let s = shared_suffix(olds.skip(p), news.skip(p));
        lemma_middle_can_diff(olds, news, p, s);
        lemma_beyond_prefix_steps(olds, news, p, s, t);
        let mid = olds.subrange(p, olds.len() - s);
        let new_mid = news.subrange(p, news.len() - s);
        lemma_equal_by_key(olds, news, p, olds.len() - s, news.len() - s);
        law_moves_of_equal(mid, new_mid, p, s, olds.len() - s, t);
        lemma_moves_suffix(olds, news, p, s, temps_end(mid, new_mid, t));
    }
}

proof fn lemma_source_in_middle<'a>(
    olds: Seq<VNode<'a>>,
    news: Seq<VNode<'a>>,
    p: int,
    s: int,
    j: int,
)
    requires
        uniquely_keyed(olds),
        uniquely_keyed(news),
        olds.len() <= u32::MAX,
        p == shared_prefix(olds, news),
        s == shared_suffix(olds.skip(p), news.skip(p)),
        0 <= p <= olds.len() - s,
        0 <= s,
        p <= j < news.len() - s,
    ensures
        ({
            let mid = olds.subrange(p, olds.len() - s);
            let new_mid = news.subrange(p, news.len() - s);
            &&& has_source(mid, new_mid, j - p) == has_source(olds, news, j)
            &&& has_source(olds, news, j) ==> sources(olds, news)[j] == sources(mid, new_mid)[j
                - p] + p
        }),
{
    let mid = olds.subrange(p, olds.len() - s);
    let new_mid = news.subrange(p, news.len() - s);
    assert(new_mid[j - p] == news[j]);
    lemma_index_of_key(olds, news[j].key());
    lemma_index_of_key(mid, news[j].key());
    if has_source(olds, news, j) {
        let i = sources(olds, news)[j] as int;
        lemma_partner(olds, news, p, s, i, j);
        assert(mid[i - p] == olds[i]);
        assert(has_key(mid, news[j].key()));
        let x = index_of_key(mid, news[j].key())->0;
        assert(mid[x] == olds[p + x]);
        lemma_keys_apart(olds);
        assert(key_apart(olds, p + x, i));
    } else if has_source(mid, new_mid, j - p) {
        let x = sources(mid, new_mid)[j - p] as int;
        assert(mid[x] == olds[p + x]);
        assert(has_key(olds, news[j].key()));
    }
}

proof fn lemma_moved_in_part<'a>(
    olds: Seq<VNode<'a>>,
    news: Seq<VNode<'a>>,
    p: int,
    s: int,
    kept: Set<usize>,
    kept_mid: Set<usize>,
    k: int,
)
    requires
        uniquely_keyed(olds),
        uniquely_keyed(news),
        olds.len() <= u32::MAX,
        news.len() < u32::MAX,
        p == shared_prefix(olds, news),
        s == shared_suffix(olds.skip(p), news.skip(p)),
        0 <= p <= olds.len() - s,
        0 <= s,
        0 <= k <= news.len() - s - p,
        forall|j: usize| #[trigger]
            kept_mid.contains(j) <==> j < news.len() - s - p && kept.contains((j + p) as usize),
    ensures
        moved_count(
            olds.subrange(p, olds.len() - s),
            news.subrange(p, news.len() - s),
            kept_mid,
            k,
        ) <= moved_count(olds, news, kept, p + k),
    decreases k,
{
    if k > 0 {
        lemma_moved_in_part(olds, news, p, s, kept, kept_mid, k - 1);
        lemma_source_in_middle(olds, news, p, s, p + k - 1);
        assert(kept_mid.contains((k - 1) as usize) <==> kept.contains((p + k - 1) as usize));
    }
}

proof fn lemma_moved_more<'a>(
    olds: Seq<VNode<'a>>,
    news: Seq<VNode<'a>>,
    kept: Set<usize>,
    k: int,
    n: int,
)
    requires
        0 <= k <= n,
    ensures
        moved_count(olds, news, kept, k) <= moved_count(olds, news, kept, n),
    decreases n,
{
    if k < n {
        lemma_moved_more(olds, news, kept, k, n - 1);
    }
}

/// The nodes of `kept` that are between the shared prefix and the shared suffix.
proof fn lemma_kept_in_middle<'a>(
    olds: Seq<VNode<'a>>,
    news: Seq<VNode<'a>>,
    p: int,
    s: int,
    kept: Set<usize>,
) -> (kept_mid: Set<usize>)
    requires
        uniquely_keyed(olds),
        uniquely_keyed(news),
        olds.len() <= u32::MAX,
        news.len() < u32::MAX,
        p == shared_prefix(olds, news),
        s == shared_suffix(olds.skip(p), news.skip(p)),
        0 <= p <= olds.len() - s,
        p <= news.len() - s,
        0 <= s,
        can_stay(olds, news, kept),
    ensures
        can_stay(
            olds.subrange(p, olds.len() - s),
            news.subrange(p, news.len() - s),
            kept_mid,
        ),
        forall|j: usize| #[trigger]
            kept_mid.contains(j) <==> j < news.len() - s - p && kept.contains((j + p) as usize),
{
    let mid = olds.subrange(p, olds.len() - s);
    let new_mid = news.subrange(p, news.len() - s);
    let n = news.len() - s - p;
    let all = Set::new(|j: usize| j < n);
    let kept_mid = Set::new(|j: usize| j < n && kept.contains((j + p) as usize));
    lemma_usizes(n);
    vstd::set_lib::lemma_len_subset(kept_mid, all);
    assert forall|j: usize| #[trigger] kept_mid.contains(j) implies has_source(
        mid,
        new_mid,
        j as int,
    ) && sources(olds, news)[j + p] == sources(mid, new_mid)[j as int] + p by {
        assert(kept.contains((j + p) as usize));
        lemma_source_in_middle(olds, news, p, s, j + p);
    }
    assert forall|i: usize, j: usize|
        #![trigger kept_mid.contains(i), kept_mid.contains(j)]
        kept_mid.contains(i) && kept_mid.contains(j) && i < j implies sources(
        mid,
        new_mid,
    )[i as int] < sources(mid, new_mid)[j as int] by {
        assert(kept.contains((i + p) as usize));
        assert(kept.contains((j + p) as usize));
        assert(((i + p) as usize) < ((j + p) as usize));
    }
    kept_mid
}

proof fn lemma_usizes(n: int)
    requires
        0 <= n <= usize::MAX,
    ensures
        Set::new(|j: usize| j < n).finite(),
    decreases n,
{
    if n == 0 {
        assert(Set::new(|j: usize| j < n) =~= Set::<usize>::empty());
    } else {
        lemma_usizes(n - 1);
        assert(Set::new(|j: usize| j < n) =~= Set::new(|j: usize| j < n - 1).insert(
            (n - 1) as usize,
        ));
    }
}

/// Where old and new children with the same key are equal, `diff_keyed_children`
/// asks for as few moves as possible: whichever of all the children could stay in
/// place, at least as many would have to be moved.
pub proof fn law_fewest_moves_in_children<'a>(
    olds: Seq<VNode<'a>>,
    news: Seq<VNode<'a>>,
    kept: Set<usize>,
    t: nat,
)
    requires
        can_diff_keyed(olds, news),
        keyed_picks_longest(olds, news),
        equal_by_key(olds, news),
        olds.len() <= u32::MAX,
        news.len() < u32::MAX,
        can_stay(olds, news, kept),
    ensures
        moves_in(keyed_steps(olds, news, t)) <= moved_count(
            olds,
            news,
            kept,
            news.len() as int,
        ),
{
    let p = shared_prefix(olds, news);
    law_moves_of_equal_children(olds, news, t);
    lemma_prefix_from(olds, news, 0);
    if p < olds.len() && p < news.len() {
        let s = shared_suffix(olds.skip(p), news.skip(p));
        lemma_middle_can_diff(olds, news, p, s);
        reveal(can_diff_keyed);
        reveal(keyed_picks_longest);
        let mid = olds.subrange(p, olds.len() - s);
        let new_mid = news.subrange(p, news.len() - s);
        let n = new_mid.len() as int;
        let lis = picked(sources(mid, new_mid));
        let kept_mid = lemma_kept_in_middle(olds, news, p, s, kept);
        lemma_moved_in_part(olds, news, p, s, kept, kept_mid, n);
        lemma_moved_more(olds, news, kept, p + n, news.len() as int);
        if s == 0 && none_reused(mid, new_mid) {
            lemma_none_moved(mid, new_mid, lis, n, t);
        } else if n > 0 {
            law_fewest_moves(mid, new_mid, lis, kept_mid);
        }
    }
}

} // verus!
