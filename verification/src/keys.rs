//! The keys of siblings.
use crate::vnode::VNode;
use vstd::prelude::*;

verus! {

/// Whether the nodes all have a key or all have none.
pub open spec fn alike_keyed(ns: Seq<VNode>) -> bool {
    forall|i: int| 0 <= i < ns.len() ==> ((#[trigger] ns[i]).key() is Some) == (ns[0].key() is Some)
}

/// Whether every node has a key, and no two of them the same.
pub open spec fn uniquely_keyed(ns: Seq<VNode>) -> bool {
    &&& forall|i: int| 0 <= i < ns.len() ==> (#[trigger] ns[i]).key() is Some
    &&& forall|i: int, j: int|
        0 <= i < j < ns.len() ==> (#[trigger] ns[i]).key() != (#[trigger] ns[j]).key()
}

/// From the index `i` on, how far the two lists go on with the same keys.
pub open spec fn prefix_from(a: Seq<VNode>, b: Seq<VNode>, i: int) -> int
    decreases a.len() - i,
{
    if 0 <= i < a.len() && i < b.len() && a[i].key() == b[i].key() {
        prefix_from(a, b, i + 1)
    } else {
        i
    }
}

/// How many nodes at the start of the two lists have the same keys.
pub open spec fn shared_prefix(a: Seq<VNode>, b: Seq<VNode>) -> int {
    prefix_from(a, b, 0)
}

/// Not counting the last `i`, how far the two lists go on backwards with the
/// same keys.
pub open spec fn suffix_from(a: Seq<VNode>, b: Seq<VNode>, i: int) -> int
    decreases a.len() - i,
{
    if 0 <= i < a.len() && i < b.len() && a[a.len() - 1 - i].key() == b[b.len() - 1 - i].key() {
        suffix_from(a, b, i + 1)
    } else {
        i
    }
}

/// How many nodes at the end of the two lists have the same keys.
pub open spec fn shared_suffix(a: Seq<VNode>, b: Seq<VNode>) -> int {
    suffix_from(a, b, 0)
}

/// Where in a list the node with the key is; the last one, if there are several.
pub open spec fn index_of_key(ns: Seq<VNode>, key: Option<u64>) -> Option<int>
    decreases ns.len(),
{
    if ns.len() == 0 {
        None
    } else if ns.last().key() == key {
        Some(ns.len() - 1)
    } else {
        index_of_key(ns.drop_last(), key)
    }
}

/// Whether one of the nodes has the key.
pub open spec fn has_key(ns: Seq<VNode>, key: Option<u64>) -> bool {
    exists|i: int| 0 <= i < ns.len() && (#[trigger] ns[i]).key() == key
}

/// What stands for the index of an old node where there is none.
pub open spec fn no_index() -> usize {
    u32::MAX as usize
}

/// For each new node, the index of the old node with its key.
pub open spec fn sources(olds: Seq<VNode>, news: Seq<VNode>) -> Seq<usize> {
    Seq::new(
        news.len(),
        |j: int|
            match index_of_key(olds, news[j].key()) {
                Some(i) => i as usize,
                None => no_index(),
            },
    )
}

/// For each old node, whether its key is reused by a new one.
pub open spec fn reused(olds: Seq<VNode>, news: Seq<VNode>) -> Seq<bool> {
    Seq::new(olds.len(), |i: int| has_key(news, olds[i].key()))
}

/// Whether none of the old keys is reused.
pub open spec fn none_reused(olds: Seq<VNode>, news: Seq<VNode>) -> bool {
    forall|i: int| 0 <= i < olds.len() ==> !has_key(news, (#[trigger] olds[i]).key())
}

/// How many of the flags are set.
pub open spec fn count(flags: Seq<bool>) -> nat
    decreases flags.len(),
{
    if flags.len() == 0 {
        0
    } else {
        count(flags.drop_last()) + if flags.last() {
            1nat
        } else {
            0nat
        }
    }
}

/// The temporary in which the old node at `i` is saved, `t` being the first one.
pub open spec fn temp_of(flags: Seq<bool>, t: nat, i: int) -> nat {
    t + count(flags.take(i))
}

/// From the index `i` on, where the flags cease to be set.
pub open spec fn run_end(flags: Seq<bool>, i: int) -> int
    decreases flags.len() - i,
{
    if 0 <= i < flags.len() && flags[i] {
        run_end(flags, i + 1)
    } else {
        i
    }
}

pub proof fn lemma_run_end(flags: Seq<bool>, i: int)
    requires
        0 <= i <= flags.len(),
    ensures
        i <= run_end(flags, i) <= flags.len(),
        forall|k: int| i <= k < run_end(flags, i) ==> #[trigger] flags[k],
        run_end(flags, i) < flags.len() ==> !flags[run_end(flags, i)],
    decreases flags.len() - i,
{
    if i < flags.len() && flags[i] {
        lemma_run_end(flags, i + 1);
    }
}

pub proof fn lemma_prefix_from(a: Seq<VNode>, b: Seq<VNode>, i: int)
    requires
        0 <= i <= a.len(),
        i <= b.len(),
    ensures
        i <= prefix_from(a, b, i) <= a.len(),
        prefix_from(a, b, i) <= b.len(),
        forall|k: int|
            #![trigger a[k], b[k]]
            i <= k < prefix_from(a, b, i) ==> a[k].key() == b[k].key(),
        ({
            let p = prefix_from(a, b, i);
            p < a.len() && p < b.len() ==> a[p].key() != b[p].key()
        }),
    decreases a.len() - i,
{
    if i < a.len() && i < b.len() && a[i].key() == b[i].key() {
        lemma_prefix_from(a, b, i + 1);
    }
}

pub proof fn lemma_suffix_from(a: Seq<VNode>, b: Seq<VNode>, i: int)
    requires
        0 <= i <= a.len(),
        i <= b.len(),
    ensures
        i <= suffix_from(a, b, i) <= a.len(),
        suffix_from(a, b, i) <= b.len(),
        forall|k: int|
            #![trigger a[a.len() - 1 - k]]
            #![trigger b[b.len() - 1 - k]]
            i <= k < suffix_from(a, b, i) ==> a[a.len() - 1 - k].key() == b[b.len() - 1 - k].key(),
        ({
            let s = suffix_from(a, b, i);
            s < a.len() && s < b.len() ==> a[a.len() - 1 - s].key() != b[b.len() - 1 - s].key()
        }),
    decreases a.len() - i,
{
    if i < a.len() && i < b.len() && a[a.len() - 1 - i].key() == b[b.len() - 1 - i].key() {
        lemma_suffix_from(a, b, i + 1);
    }
}

pub proof fn lemma_index_of_key(ns: Seq<VNode>, key: Option<u64>)
    ensures
        match index_of_key(ns, key) {
            Some(i) => 0 <= i < ns.len() && ns[i].key() == key && has_key(ns, key),
            None => !has_key(ns, key),
        },
    decreases ns.len(),
{
    if ns.len() > 0 {
        if ns.last().key() == key {
            assert(ns[ns.len() - 1].key() == key);
        } else {
            lemma_index_of_key(ns.drop_last(), key);
            match index_of_key(ns.drop_last(), key) {
                Some(i) => {
                    assert(ns[i].key() == key);
                },
                None => {
                    assert forall|i: int| 0 <= i < ns.len() implies (#[trigger] ns[i]).key()
                        != key by {
                        if i < ns.len() - 1 {
                            assert(ns.drop_last()[i] == ns[i]);
                        }
                    }
                },
            }
        }
    }
}

/// Each entry of `sources` is the index of an old node, or stands for none.
pub proof fn lemma_sources(olds: Seq<VNode>, news: Seq<VNode>)
    requires
        olds.len() <= u32::MAX,
    ensures
        forall|j: int|
            0 <= j < news.len() ==> #[trigger] sources(olds, news)[j] < olds.len() || sources(
                olds,
                news,
            )[j] == no_index(),
{
    assert forall|j: int| 0 <= j < news.len() implies #[trigger] sources(olds, news)[j]
        < olds.len() || sources(olds, news)[j] == no_index() by {
        lemma_index_of_key(olds, news[j].key());
    }
}

pub proof fn lemma_count_take(flags: Seq<bool>, i: int)
    requires
        0 <= i <= flags.len(),
    ensures
        count(flags.take(i)) <= count(flags),
    decreases flags.len(),
{
    if i < flags.len() {
        lemma_count_take(flags.drop_last(), i);
        assert(flags.drop_last().take(i) =~= flags.take(i));
    } else {
        assert(flags.take(i) =~= flags);
    }
}

pub proof fn lemma_count_run(flags: Seq<bool>, i: int, j: int)
    requires
        0 <= i <= j <= flags.len(),
        forall|k: int| i <= k < j ==> #[trigger] flags[k],
    ensures
        count(flags.take(j)) == count(flags.take(i)) + (j - i),
    decreases j - i,
{
    if i < j {
        lemma_count_run(flags, i, j - 1);
        assert(flags.take(j).drop_last() =~= flags.take(j - 1));
        assert(flags.take(j).last() == flags[j - 1]);
    }
}

pub proof fn lemma_count_none(flags: Seq<bool>)
    requires
        forall|i: int| 0 <= i < flags.len() ==> !#[trigger] flags[i],
    ensures
        count(flags) == 0,
    decreases flags.len(),
{
    if flags.len() > 0 {
        lemma_count_none(flags.drop_last());
    }
}

pub proof fn lemma_count_le(flags: Seq<bool>)
    ensures
        count(flags) <= flags.len(),
    decreases flags.len(),
{
    if flags.len() > 0 {
        lemma_count_le(flags.drop_last());
    }
}

pub proof fn lemma_count_below(flags: Seq<bool>, i: int)
    requires
        0 <= i < flags.len(),
        flags[i],
    ensures
        count(flags.take(i)) < count(flags),
    decreases flags.len(),
{
    if i < flags.len() - 1 {
        lemma_count_below(flags.drop_last(), i);
        assert(flags.drop_last().take(i) =~= flags.take(i));
    } else {
        assert(flags.drop_last() =~= flags.take(i));
    }
}

} // verus!
