//! How many temporaries a diff has in use at once.
use crate::keys::count;
use crate::keys::lemma_suffix_from;
use crate::keys::reused;
use crate::keys::shared_prefix;
use crate::keys::shared_suffix;
use crate::keys::sources;
use crate::steps::takes_text;
use crate::vnode::VNode;
use crate::vnode::lemma_size_index;
use crate::vnode::lemma_size_subrange;
use crate::vnode::same_type;
use crate::vnode::size;
use crate::vnode::size_all;
use vstd::prelude::*;

verus! {

pub open spec fn larger(a: nat, b: nat) -> nat {
    if a < b {
        b
    } else {
        a
    }
}

/// The temporaries that diffing two nodes has in use at once, at most.
pub open spec fn slots(old: VNode, new: VNode) -> nat
    decreases size(old), 0nat, 0int,
{
    match (old, new) {
        (VNode::Element(a), VNode::Element(b)) => if same_type(a, b) {
            slots_children(a.children@, b.children@)
        } else {
            0
        },
        _ => 0,
    }
}

/// The temporaries that diffing children has in use at once, at most.
pub open spec fn slots_children(olds: Seq<VNode>, news: Seq<VNode>) -> nat
    decreases size_all(olds), 8nat, 0int,
{
    if news.len() == 0 || takes_text(olds, news) || olds.len() == 0 {
        0
    } else if olds[0].key() is Some && news[0].key() is Some {
        slots_keyed(olds, news)
    } else {
        slots_walk(olds, news, shorter(olds, news))
    }
}

/// How many nodes there are in the shorter one of two lists.
pub open spec fn shorter(olds: Seq<VNode>, news: Seq<VNode>) -> int {
    if olds.len() < news.len() {
        olds.len() as int
    } else {
        news.len() as int
    }
}

/// The temporaries that diffing the first `n` nodes in order has in use at
/// once, at most.
#[verifier::opaque]
pub open spec fn slots_walk(olds: Seq<VNode>, news: Seq<VNode>, n: int) -> nat
    decreases size_all(olds), 1nat, n,
{
    if n <= 0 || n > olds.len() {
        0
    } else {
        proof {
            lemma_size_index(olds, n - 1);
        }
        larger(slots_walk(olds, news, n - 1), slots(olds[n - 1], news[n - 1]))
    }
}

/// The temporaries that diffing children by key has in use at once, at most.
#[verifier::opaque]
pub open spec fn slots_keyed(olds: Seq<VNode>, news: Seq<VNode>) -> nat
    decreases size_all(olds), 7nat, 0int,
{
    let p = shared_prefix(olds, news);
    if p == olds.len() || p == news.len() {
        slots_walk(olds, news, p)
    } else {
        larger(slots_walk(olds, news, p), slots_beyond_prefix(olds, news, p))
    }
}

/// The temporaries that diffing what follows a shared prefix of length `p` has
/// in use at once, at most. The nodes that are saved for the middle stay saved
/// while the suffix is diffed.
#[verifier::opaque]
pub open spec fn slots_beyond_prefix(olds: Seq<VNode>, news: Seq<VNode>, p: int) -> nat
    decreases size_all(olds), 6nat, 1int,
{
    let s = shared_suffix(olds.skip(p), news.skip(p));
    let old_start = olds.len() - s;
    let new_start = news.len() - s;
    if 0 <= s && 0 <= p <= old_start && p <= new_start {
        proof {
            lemma_size_subrange(olds, p, old_start);
            lemma_size_subrange(olds, old_start, olds.len() as int);
        }
        let mid = olds.subrange(p, old_start);
        let new_mid = news.subrange(p, new_start);
        larger(
            slots_middle(mid, new_mid),
            count(reused(mid, new_mid)) + slots_walk(
                olds.subrange(old_start, olds.len() as int),
                news.subrange(new_start, news.len() as int),
                s,
            ),
        )
    } else {
        0
    }
}

/// The temporaries that diffing the nodes between a shared prefix and a shared
/// suffix has in use at once, at most: one for each reused node, and those for
/// diffing one of these.
pub open spec fn slots_middle(olds: Seq<VNode>, news: Seq<VNode>) -> nat
    decreases size_all(olds), 4nat, 0int,
{
    count(reused(olds, news)) + slots_sources(olds, news, news.len() as int)
}

/// The temporaries that diffing each of the first `k` new nodes with the old
/// node of its key has in use at once, at most.
pub open spec fn slots_sources(olds: Seq<VNode>, news: Seq<VNode>, k: int) -> nat
    decreases size_all(olds), 3nat, k,
{
    if k <= 0 {
        0
    } else {
        larger(slots_sources(olds, news, k - 1), slots_source(olds, news, k - 1))
    }
}

/// The temporaries that diffing the new node at `j` with the old node of its
/// key has in use at once, at most.
pub open spec fn slots_source(olds: Seq<VNode>, news: Seq<VNode>, j: int) -> nat
    decreases size_all(olds), 2nat, 0int,
{
    let i = sources(olds, news)[j] as int;
    if 0 <= i < olds.len() {
        proof {
            lemma_size_index(olds, i);
        }
        slots(olds[i], news[j])
    } else {
        0
    }
}

pub proof fn lemma_slots_beyond_prefix(olds: Seq<VNode>, news: Seq<VNode>, p: int)
    requires
        0 <= p <= olds.len(),
        p <= news.len(),
    ensures
        ({
            let s = shared_suffix(olds.skip(p), news.skip(p));
            let mid = olds.subrange(p, olds.len() - s);
            let new_mid = news.subrange(p, news.len() - s);
            &&& slots_middle(mid, new_mid) <= slots_beyond_prefix(olds, news, p)
            &&& count(reused(mid, new_mid)) + slots_walk(
                olds.subrange(olds.len() - s, olds.len() as int),
                news.subrange(news.len() - s, news.len() as int),
                s,
            ) <= slots_beyond_prefix(olds, news, p)
        }),
{
    reveal(slots_walk);
    reveal(slots_beyond_prefix);
    lemma_suffix_from(olds.skip(p), news.skip(p), 0);
}

pub proof fn lemma_slots_children(olds: Seq<VNode>, news: Seq<VNode>)
    requires
        olds.len() > 0,
        news.len() > 0,
        !takes_text(olds, news),
    ensures
        slots_children(olds, news) == if olds[0].key() is Some && news[0].key() is Some {
            slots_keyed(olds, news)
        } else {
            slots_walk(olds, news, shorter(olds, news))
        },
{
    reveal(slots_walk);
    reveal(slots_keyed);
}

pub proof fn lemma_slots_keyed(olds: Seq<VNode>, news: Seq<VNode>)
    ensures
        slots_walk(olds, news, shared_prefix(olds, news)) <= slots_keyed(olds, news),
        shared_prefix(olds, news) == olds.len() || shared_prefix(olds, news) == news.len()
            || slots_beyond_prefix(olds, news, shared_prefix(olds, news)) <= slots_keyed(
            olds,
            news,
        ),
{
    reveal(slots_walk);
    reveal(slots_keyed);
    reveal(slots_beyond_prefix);
}

pub proof fn lemma_slots_walk(olds: Seq<VNode>, news: Seq<VNode>, n: int, i: int)
    requires
        0 <= i < n <= olds.len(),
    ensures
        slots(olds[i], news[i]) <= slots_walk(olds, news, n),
        slots_walk(olds, news, n - 1) <= slots_walk(olds, news, n),
    decreases n,
{
    reveal(slots_walk);
    if i < n - 1 {
        lemma_slots_walk(olds, news, n - 1, i);
    }
}

pub proof fn lemma_slots_sources(olds: Seq<VNode>, news: Seq<VNode>, k: int, j: int)
    requires
        0 <= j < k,
    ensures
        slots_source(olds, news, j) <= slots_sources(olds, news, k),
    decreases k,
{
    if j < k - 1 {
        lemma_slots_sources(olds, news, k - 1, j);
    }
}

} // verus!
