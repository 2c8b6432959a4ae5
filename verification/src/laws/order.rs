//! How keyed children come into their new order: which of the physical nodes
//! are where while they are moved, created and diffed one after the other.
use crate::dom::PNode;
use crate::dom::reflects;
use crate::keys::has_key;
use crate::keys::index_of_key;
use crate::keys::lemma_index_of_key;
use crate::keys::no_index;
use crate::keys::reused;
use crate::keys::sources;
use crate::keys::uniquely_keyed;
use crate::laws::basic::shown_at;
use crate::laws::right::right_tree;
use crate::lis::increasing;
use crate::vnode::VNode;
use crate::vnode::keeps_node;
use vstd::prelude::*;

verus! {

/// What is to be done with keyed children: `mid` are the physical nodes that
/// reflect `olds`, to be turned into nodes that reflect `news`. The new nodes
/// at the indices in `lis` stay in place. No identity from `start` on was taken
/// before.
pub struct Plan<'a> {
    pub olds: Seq<VNode<'a>>,
    pub news: Seq<VNode<'a>>,
    pub mid: Seq<PNode>,
    pub lis: Set<usize>,
    pub start: nat,
}

impl<'a> Plan<'a> {
    pub open spec fn sound(self) -> bool {
        &&& uniquely_keyed(self.olds)
        &&& uniquely_keyed(self.news)
        &&& self.mid.len() == self.olds.len()
        &&& self.olds.len() <= u32::MAX
        &&& self.news.len() < u32::MAX
        &&& increasing(sources(self.olds, self.news), self.lis)
    }

    /// The old node at `i` is reused for the new node at `j`.
    pub open spec fn pair(self, i: int, j: int) -> bool {
        0 <= i < self.olds.len() && 0 <= j < self.news.len() && self.olds[i].key()
            == self.news[j].key()
    }

    /// Where the old node at `i` goes.
    pub open spec fn target(self, i: int) -> int {
        index_of_key(self.news, self.olds[i].key())->0
    }

    /// The old node at `i` is reused for one of the first `k` new nodes.
    pub open spec fn waits(self, i: int, k: int) -> bool {
        self.pair(i, self.target(i)) && self.target(i) < k
    }

    /// The physical node is right for the new node at `j`: it is the old one
    /// where that can be kept, and a new one otherwise, and it reflects the new
    /// node if it can be turned into one that does.
    pub open spec fn good(self, j: int, p: PNode) -> bool {
        &&& shown_at(self.olds, self.news, j) ==> reflects(p, self.news[j])
        &&& forall|i: int| #[trigger]
            self.pair(i, j) && keeps_node(self.olds[i], self.news[j]) ==> p.id == self.mid[i].id
        &&& (forall|i: int| #[trigger]
            self.pair(i, j) ==> !keeps_node(self.olds[i], self.news[j])) ==> p.id >= self.start
        &&& forall|i: int| #[trigger]
            self.pair(i, j) ==> right_tree(
                self.mid[i],
                p,
                self.olds[i],
                self.news[j],
                self.start,
            )
    }

    /// How the nodes stand when the new nodes from `k` on are done. `tags` tells
    /// for each node which old node it is, if it still waits for its turn. The
    /// cursor is on the first node that is done, at `c`.
    #[verifier::opaque]
    pub open spec fn arranged(
        self,
        k: int,
        nodes: Seq<PNode>,
        tags: Seq<Option<int>>,
        c: int,
    ) -> bool {
        &&& 0 <= k <= self.news.len()
        &&& tags.len() == nodes.len()
        &&& 0 <= c <= nodes.len()
        &&& forall|a: int| 0 <= a < c ==> (#[trigger] tags[a]) is Some
        &&& c < nodes.len() ==> tags[c] is None
        &&& self.waiting_right(k, nodes, tags)
        &&& self.done_right(k, nodes, tags)
    }

    pub open spec fn waiting_right(
        self,
        k: int,
        nodes: Seq<PNode>,
        tags: Seq<Option<int>>,
    ) -> bool {
        &&& forall|q: int|
            0 <= q < tags.len() && (#[trigger] tags[q]) is Some ==> self.waits(tags[q]->0, k)
                && nodes[q] == self.mid[tags[q]->0]
        &&& forall|i: int| #[trigger] self.waits(i, k) ==> tags.contains(Some(i))
        &&& forall|p: int, q: int|
            0 <= p < q < tags.len() && (#[trigger] tags[p]) is Some && (#[trigger] tags[q]) is Some
                ==> tags[p]->0 < tags[q]->0
        &&& forall|p: int, q: int|
            0 <= p < q < tags.len() && (#[trigger] tags[q]) is Some && self.lis.contains(
                self.target(tags[q]->0) as usize,
            ) ==> (#[trigger] tags[p]) is Some
    }

    pub open spec fn done_right(self, k: int, nodes: Seq<PNode>, tags: Seq<Option<int>>) -> bool {
        let done = done_of(nodes, tags);
        &&& done.len() == self.news.len() - k
        &&& forall|j: int|
            k <= j < self.news.len() ==> self.good(j, #[trigger] done[j - k])
    }
}

/// The nodes without a tag, in order.
pub open spec fn done_of(nodes: Seq<PNode>, tags: Seq<Option<int>>) -> Seq<PNode>
    decreases nodes.len(),
{
    if nodes.len() == 0 {
        Seq::empty()
    } else if tags.last() is None {
        done_of(nodes.drop_last(), tags.drop_last()).push(nodes.last())
    } else {
        done_of(nodes.drop_last(), tags.drop_last())
    }
}

proof fn lemma_done_add(
    a: Seq<PNode>,
    ta: Seq<Option<int>>,
    b: Seq<PNode>,
    tb: Seq<Option<int>>,
)
    requires
        a.len() == ta.len(),
        b.len() == tb.len(),
    ensures
        done_of(a + b, ta + tb) == done_of(a, ta) + done_of(b, tb),
    decreases b.len(),
{
    if b.len() == 0 {
        assert(a + b =~= a);
        assert(ta + tb =~= ta);
        assert(done_of(a, ta) + done_of(b, tb) =~= done_of(a, ta));
    } else {
        assert((a + b).drop_last() =~= a + b.drop_last());
        assert((ta + tb).drop_last() =~= ta + tb.drop_last());
        lemma_done_add(a, ta, b.drop_last(), tb.drop_last());
        assert(done_of(a + b, ta + tb) =~= done_of(a, ta) + done_of(b, tb));
    }
}

proof fn lemma_done_none(a: Seq<PNode>, ta: Seq<Option<int>>)
    requires
        a.len() == ta.len(),
        forall|i: int| 0 <= i < ta.len() ==> (#[trigger] ta[i]) is Some,
    ensures
        done_of(a, ta) == Seq::<PNode>::empty(),
    decreases a.len(),
{
    if a.len() > 0 {
        assert(ta[ta.len() - 1] is Some);
        assert forall|i: int| 0 <= i < ta.drop_last().len() implies (#[trigger] ta.drop_last()[i])
            is Some by {
            assert(ta[i] is Some);
        }
        lemma_done_none(a.drop_last(), ta.drop_last());
    }
}

proof fn lemma_done_all(a: Seq<PNode>, ta: Seq<Option<int>>)
    requires
        a.len() == ta.len(),
        forall|i: int| 0 <= i < ta.len() ==> (#[trigger] ta[i]) is None,
    ensures
        done_of(a, ta) == a,
    decreases a.len(),
{
    if a.len() > 0 {
        assert(ta[ta.len() - 1] is None);
        assert forall|i: int| 0 <= i < ta.drop_last().len() implies (#[trigger] ta.drop_last()[i])
            is None by {
            assert(ta[i] is None);
        }
        lemma_done_all(a.drop_last(), ta.drop_last());
        assert(a.drop_last().push(a.last()) =~= a);
    }
}

proof fn lemma_done_one(x: PNode, t: Option<int>)
    ensures
        done_of(seq![x], seq![t]) == if t is None {
            seq![x]
        } else {
            Seq::empty()
        },
{
    assert(seq![x].drop_last() =~= Seq::<PNode>::empty());
    assert(done_of(seq![x].drop_last(), seq![t].drop_last()) =~= Seq::<PNode>::empty());
    if t is None {
        assert(done_of(seq![x], seq![t]) =~= seq![x]);
    }
}

/// The done nodes, split at a place where the node before `q` are waiting.
proof fn lemma_done_split(nodes: Seq<PNode>, tags: Seq<Option<int>>, q: int)
    requires
        nodes.len() == tags.len(),
        0 <= q < nodes.len(),
    ensures
        done_of(nodes, tags) == done_of(nodes.take(q), tags.take(q)) + (if tags[q] is None {
            seq![nodes[q]]
        } else {
            Seq::empty()
        }) + done_of(nodes.skip(q + 1), tags.skip(q + 1)),
{
    let a = nodes.take(q);
    let b = nodes.skip(q + 1);
    let ta = tags.take(q);
    let tb = tags.skip(q + 1);
    let x = nodes[q];
    let t = tags[q];
    assert(nodes =~= a + seq![x] + b);
    assert(tags =~= ta + seq![t] + tb);
    lemma_done_add(a + seq![x], ta + seq![t], b, tb);
    lemma_done_add(a, ta, seq![x], seq![t]);
    lemma_done_one(x, t);
}

impl<'a> Plan<'a> {
    /// Keys pair each node off with at most one other.
    pub proof fn lemma_pairs(self)
        requires
            self.sound(),
        ensures
            forall|i: int, j: int| #[trigger]
                self.pair(i, j) ==> self.target(i) == j && sources(self.olds, self.news)[j] == i,
            forall|i: int, j: int, i2: int|
                #![trigger self.pair(i, j), self.pair(i2, j)]
                self.pair(i, j) && self.pair(i2, j) ==> i == i2,
            forall|j: int|
                0 <= j < self.news.len() ==> {
                    let s = #[trigger] sources(self.olds, self.news)[j];
                    if s < self.olds.len() {
                        self.pair(s as int, j)
                    } else {
                        s == no_index() && forall|i: int| !#[trigger] self.pair(i, j)
                    }
                },
    {
        assert forall|i: int, j: int, i2: int|
            #![trigger self.pair(i, j), self.pair(i2, j)]
            self.pair(i, j) && self.pair(i2, j) implies i == i2 by {
            if i < i2 {
                assert(self.olds[i].key() != self.olds[i2].key());
            } else if i2 < i {
                assert(self.olds[i2].key() != self.olds[i].key());
            }
        }
        assert forall|j: int| 0 <= j < self.news.len() implies {
            let s = #[trigger] sources(self.olds, self.news)[j];
            if s < self.olds.len() {
                self.pair(s as int, j)
            } else {
                s == no_index() && forall|i: int| !#[trigger] self.pair(i, j)
            }
        } by {
            lemma_index_of_key(self.olds, self.news[j].key());
            if sources(self.olds, self.news)[j] >= self.olds.len() {
                assert forall|i: int| !#[trigger] self.pair(i, j) by {
                    if self.pair(i, j) {
                        assert(has_key(self.olds, self.news[j].key()));
                    }
                }
            }
        }
        assert forall|i: int, j: int| #[trigger] self.pair(i, j) implies self.target(i) == j
            && sources(self.olds, self.news)[j] == i by {
            lemma_index_of_key(self.news, self.olds[i].key());
            assert(has_key(self.news, self.olds[i].key())) by {
                assert(self.news[j].key() == self.olds[i].key());
            }
            let t = self.target(i);
            if t < j {
                assert(self.news[t].key() != self.news[j].key());
            } else if j < t {
                assert(self.news[j].key() != self.news[t].key());
            }
            let s = sources(self.olds, self.news)[j];
            if s < self.olds.len() {
                assert(self.pair(s as int, j));
            }
        }
    }

    pub proof fn lemma_bounds(self, k: int, nodes: Seq<PNode>, tags: Seq<Option<int>>, c: int)
        requires
            self.arranged(k, nodes, tags, c),
        ensures
            0 <= k <= self.news.len(),
            tags.len() == nodes.len(),
            0 <= c <= nodes.len(),
    {
        reveal(Plan::arranged);
    }

    /// The old node whose turn it is waits among the nodes.
    pub proof fn lemma_waiting(
        self,
        k: int,
        nodes: Seq<PNode>,
        tags: Seq<Option<int>>,
        c: int,
        i: int,
    ) -> (q: int)
        requires
            self.sound(),
            self.arranged(k, nodes, tags, c),
            self.pair(i, k - 1),
        ensures
            0 <= q < nodes.len(),
            q != c,
            tags[q] == Some(i),
            nodes[q] == self.mid[i],
    {
        reveal(Plan::arranged);
        self.lemma_pairs();
        assert(self.waits(i, k));
        assert(tags.contains(Some(i)));
        let q = choose|q: int| 0 <= q < tags.len() && tags[q] == Some(i);
        assert(tags[q] is Some);
        q
    }

    /// A node that is of the increasing subsequence is done where it stands.
    pub proof fn lemma_stay(
        self,
        k: int,
        nodes: Seq<PNode>,
        tags: Seq<Option<int>>,
        c: int,
        i: int,
        q: int,
        x: PNode,
    )
        requires
            self.sound(),
            self.arranged(k, nodes, tags, c),
            k > 0,
            self.pair(i, k - 1),
            self.lis.contains((k - 1) as usize),
            0 <= q < nodes.len(),
            tags[q] == Some(i),
            self.good(k - 1, x),
        ensures
            self.arranged(k - 1, nodes.update(q, x), tags.update(q, None), q),
    {
        reveal(Plan::arranged);
        self.lemma_pairs();
        let nodes2 = nodes.update(q, x);
        let tags2 = tags.update(q, None);
        let srcs = sources(self.olds, self.news);
        assert forall|a: int| 0 <= a < q implies (#[trigger] tags2[a]) is Some by {
            assert(tags[a] is Some);
        }
        // waiting
        assert forall|p: int| 0 <= p < tags2.len() && (#[trigger] tags2[p]) is Some implies self.waits(
            tags2[p]->0,
            k - 1,
        ) && nodes2[p] == self.mid[tags2[p]->0] by {
            assert(tags[p] is Some);
            let i2 = tags[p]->0;
            assert(p != q);
            if p < q {
                assert(tags[p]->0 < tags[q]->0);
            } else {
                assert(tags[q]->0 < tags[p]->0);
            }
            if self.target(i2) == k - 1 {
                assert(self.pair(i2, k - 1));
            }
        }
        assert forall|i2: int| #[trigger] self.waits(i2, k - 1) implies tags2.contains(
            Some(i2),
        ) by {
            assert(self.waits(i2, k));
            let p = choose|p: int| 0 <= p < tags.len() && tags[p] == Some(i2);
            assert(p != q);
            assert(tags2[p] == Some(i2));
        }
        assert forall|p: int, p2: int|
            0 <= p < p2 < tags2.len() && (#[trigger] tags2[p]) is Some && (#[trigger] tags2[p2])
                is Some implies tags2[p]->0 < tags2[p2]->0 by {
            assert(tags[p] is Some && tags[p2] is Some);
        }
        assert forall|p: int, p2: int|
            0 <= p < p2 < tags2.len() && (#[trigger] tags2[p2]) is Some && self.lis.contains(
                self.target(tags2[p2]->0) as usize,
            ) implies (#[trigger] tags2[p]) is Some by {
            assert(tags[p2] is Some);
            assert(tags[p] is Some);
            if p == q {
                let i2 = tags[p2]->0;
                assert(tags[q]->0 < tags[p2]->0);
                assert(self.waits(i2, k));
                let t2 = self.target(i2);
                assert(self.pair(i2, t2));
                assert(t2 != k - 1);
                assert(srcs[t2] < srcs[k - 1]) by {
                    assert(self.lis.contains(t2 as usize));
                    assert(self.lis.contains((k - 1) as usize));
                }
            }
        }
        // done
        lemma_done_split(nodes, tags, q);
        lemma_done_split(nodes2, tags2, q);
        assert(nodes2.take(q) =~= nodes.take(q));
        assert(tags2.take(q) =~= tags.take(q));
        assert(nodes2.skip(q + 1) =~= nodes.skip(q + 1));
        assert(tags2.skip(q + 1) =~= tags.skip(q + 1));
        assert forall|a: int| 0 <= a < q implies (#[trigger] tags.take(q)[a]) is Some by {
            assert(tags[a] is Some);
        }
        lemma_done_none(nodes.take(q), tags.take(q));
        let done = done_of(nodes, tags);
        let done2 = done_of(nodes2, tags2);
        assert(done2 =~= seq![x] + done);
        assert forall|j: int| k - 1 <= j < self.news.len() implies self.good(
            j,
            #[trigger] done2[j - (k - 1)],
        ) by {
            if j >= k {
                assert(done2[j - (k - 1)] == done[j - k]);
            }
        }
    }

    proof fn lemma_put_waiting(
        self,
        k: int,
        nodes: Seq<PNode>,
        tags: Seq<Option<int>>,
        c: int,
        x: PNode,
    )
        requires
            tags.len() == nodes.len(),
            0 <= c <= nodes.len(),
            c < nodes.len() ==> tags[c] is None,
            self.waiting_right(k, nodes, tags),
        ensures
            self.waiting_right(k, nodes.insert(c, x), tags.insert(c, None)),
    {
        let nodes2 = nodes.insert(c, x);
        let tags2 = tags.insert(c, None);
        assert forall|p: int| 0 <= p < tags2.len() && (#[trigger] tags2[p]) is Some implies self.waits(
            tags2[p]->0,
            k,
        ) && nodes2[p] == self.mid[tags2[p]->0] by {
            let r = if p < c {
                p
            } else {
                p - 1
            };
            assert(tags[r] is Some);
        }
        assert forall|i2: int| #[trigger] self.waits(i2, k) implies tags2.contains(
            Some(i2),
        ) by {
            let p = choose|p: int| 0 <= p < tags.len() && tags[p] == Some(i2);
            let r = if p < c {
                p
            } else {
                p + 1
            };
            assert(tags2[r] == Some(i2));
        }
        assert forall|p: int, p2: int|
            0 <= p < p2 < tags2.len() && (#[trigger] tags2[p]) is Some && (#[trigger] tags2[p2])
                is Some implies tags2[p]->0 < tags2[p2]->0 by {
            let r = if p < c {
                p
            } else {
                p - 1
            };
            let r2 = if p2 < c {
                p2
            } else {
                p2 - 1
            };
            assert(tags[r] is Some && tags[r2] is Some);
        }
        assert forall|p: int, p2: int|
            0 <= p < p2 < tags2.len() && (#[trigger] tags2[p2]) is Some && self.lis.contains(
                self.target(tags2[p2]->0) as usize,
            ) implies (#[trigger] tags2[p]) is Some by {
            if p2 > c {
                assert(tags[p2 - 1] is Some);
                if c < p2 - 1 {
                    assert(tags[c] is Some);
                }
            } else {
                assert(tags[p2] is Some);
                assert(tags[p] is Some);
            }
        }
    }

    proof fn lemma_put_done(
        self,
        k: int,
        nodes: Seq<PNode>,
        tags: Seq<Option<int>>,
        c: int,
        x: PNode,
    )
        requires
            0 < k <= self.news.len(),
            tags.len() == nodes.len(),
            0 <= c <= nodes.len(),
            forall|a: int| 0 <= a < c ==> (#[trigger] tags[a]) is Some,
            self.done_right(k, nodes, tags),
            self.good(k - 1, x),
        ensures
            self.done_right(k - 1, nodes.insert(c, x), tags.insert(c, None)),
    {
        let nodes2 = nodes.insert(c, x);
        let tags2 = tags.insert(c, None);
        lemma_done_split(nodes2, tags2, c);
        assert(nodes2.take(c) =~= nodes.take(c));
        assert(tags2.take(c) =~= tags.take(c));
        assert(nodes2.skip(c + 1) =~= nodes.skip(c));
        assert(tags2.skip(c + 1) =~= tags.skip(c));
        assert(nodes =~= nodes.take(c) + nodes.skip(c));
        assert(tags =~= tags.take(c) + tags.skip(c));
        lemma_done_add(nodes.take(c), tags.take(c), nodes.skip(c), tags.skip(c));
        assert forall|a: int| 0 <= a < c implies (#[trigger] tags.take(c)[a]) is Some by {
            assert(tags[a] is Some);
        }
        lemma_done_none(nodes.take(c), tags.take(c));
        let done = done_of(nodes, tags);
        let done2 = done_of(nodes2, tags2);
        assert(done2 =~= seq![x] + done);
        assert forall|j: int| k - 1 <= j < self.news.len() implies self.good(
            j,
            #[trigger] done2[j - (k - 1)],
        ) by {
            if j >= k {
                assert(done2[j - (k - 1)] == done[j - k]);
            }
        }
    }

    /// A node that is not waiting comes in right before the cursor.
    proof fn lemma_put(
        self,
        k: int,
        nodes: Seq<PNode>,
        tags: Seq<Option<int>>,
        c: int,
        x: PNode,
    )
        requires
            0 < k <= self.news.len(),
            tags.len() == nodes.len(),
            0 <= c <= nodes.len(),
            forall|a: int| 0 <= a < c ==> (#[trigger] tags[a]) is Some,
            c < nodes.len() ==> tags[c] is None,
            self.waiting_right(k - 1, nodes, tags),
            self.done_right(k, nodes, tags),
            self.good(k - 1, x),
        ensures
            self.arranged(k - 1, nodes.insert(c, x), tags.insert(c, None), c),
    {
        reveal(Plan::arranged);
        self.lemma_put_waiting(k - 1, nodes, tags, c, x);
        self.lemma_put_done(k, nodes, tags, c, x);
        let tags2 = tags.insert(c, None);
        assert forall|a: int| 0 <= a < c implies (#[trigger] tags2[a]) is Some by {
            assert(tags[a] is Some);
        }
    }

    /// A fresh node comes in right before the cursor.
    pub proof fn lemma_insert(
        self,
        k: int,
        nodes: Seq<PNode>,
        tags: Seq<Option<int>>,
        c: int,
        x: PNode,
    )
        requires
            self.sound(),
            self.arranged(k, nodes, tags, c),
            k > 0,
            forall|i: int| !#[trigger] self.pair(i, k - 1),
            self.good(k - 1, x),
        ensures
            self.arranged(k - 1, nodes.insert(c, x), tags.insert(c, None), c),
    {
        reveal(Plan::arranged);
        assert forall|i: int| self.waits(i, k) implies #[trigger] self.waits(i, k - 1) by {
            if self.target(i) == k - 1 {
                assert(self.pair(i, k - 1));
            }
        }
        assert forall|i: int| #[trigger] self.waits(i, k - 1) implies self.waits(i, k) by {}
        self.lemma_put(k, nodes, tags, c, x);
    }

    proof fn lemma_take_waiting(
        self,
        k: int,
        nodes: Seq<PNode>,
        tags: Seq<Option<int>>,
        i: int,
        q: int,
    )
        requires
            self.sound(),
            tags.len() == nodes.len(),
            self.waiting_right(k, nodes, tags),
            self.pair(i, k - 1),
            0 <= q < nodes.len(),
            tags[q] == Some(i),
        ensures
            self.waiting_right(k - 1, nodes.remove(q), tags.remove(q)),
    {
        self.lemma_pairs();
        let nodes1 = nodes.remove(q);
        let tags1 = tags.remove(q);
        assert forall|p: int| 0 <= p < tags1.len() && (#[trigger] tags1[p]) is Some implies self.waits(
            tags1[p]->0,
            k - 1,
        ) && nodes1[p] == self.mid[tags1[p]->0] by {
            let r = if p < q {
                p
            } else {
                p + 1
            };
            assert(tags[r] is Some);
            if r < q {
                assert(tags[r]->0 < tags[q]->0);
            } else {
                assert(tags[q]->0 < tags[r]->0);
            }
            let i2 = tags[r]->0;
            if self.target(i2) == k - 1 {
                assert(self.pair(i2, k - 1));
            }
        }
        assert forall|i2: int| #[trigger] self.waits(i2, k - 1) implies tags1.contains(
            Some(i2),
        ) by {
            assert(self.waits(i2, k));
            let p = choose|p: int| 0 <= p < tags.len() && tags[p] == Some(i2);
            assert(p != q);
            let r = if p < q {
                p
            } else {
                p - 1
            };
            assert(tags1[r] == Some(i2));
        }
        assert forall|p: int, p2: int|
            0 <= p < p2 < tags1.len() && (#[trigger] tags1[p]) is Some && (#[trigger] tags1[p2])
                is Some implies tags1[p]->0 < tags1[p2]->0 by {
            let r = if p < q {
                p
            } else {
                p + 1
            };
            let r2 = if p2 < q {
                p2
            } else {
                p2 + 1
            };
            assert(tags[r] is Some && tags[r2] is Some);
        }
        assert forall|p: int, p2: int|
            0 <= p < p2 < tags1.len() && (#[trigger] tags1[p2]) is Some && self.lis.contains(
                self.target(tags1[p2]->0) as usize,
            ) implies (#[trigger] tags1[p]) is Some by {
            let r = if p < q {
                p
            } else {
                p + 1
            };
            let r2 = if p2 < q {
                p2
            } else {
                p2 + 1
            };
            assert(tags[r2] is Some);
            assert(tags[r] is Some);
        }
    }

    /// A node that waits goes from where it stands to right before the cursor.
    pub proof fn lemma_move(
        self,
        k: int,
        nodes: Seq<PNode>,
        tags: Seq<Option<int>>,
        c: int,
        i: int,
        q: int,
        x: PNode,
    )
        requires
            self.sound(),
            self.arranged(k, nodes, tags, c),
            k > 0,
            self.pair(i, k - 1),
            0 <= q < nodes.len(),
            tags[q] == Some(i),
            self.good(k - 1, x),
        ensures
            q != c,
            ({
                let at = if q < c {
                    c - 1
                } else {
                    c
                };
                self.arranged(
                    k - 1,
                    nodes.remove(q).insert(at, x),
                    tags.remove(q).insert(at, None),
                    at,
                )
            }),
    {
        reveal(Plan::arranged);
        let at = if q < c {
            c - 1
        } else {
            c
        };
        let nodes1 = nodes.remove(q);
        let tags1 = tags.remove(q);
        assert forall|a: int| 0 <= a < at implies (#[trigger] tags1[a]) is Some by {
            let r = if a < q {
                a
            } else {
                a + 1
            };
            assert(tags[r] is Some);
        }
        if at < nodes1.len() {
            let r = if at < q {
                at
            } else {
                at + 1
            };
            assert(r == c);
        }
        self.lemma_take_waiting(k, nodes, tags, i, q);
        lemma_done_split(nodes, tags, q);
        assert(nodes1 =~= nodes.take(q) + nodes.skip(q + 1));
        assert(tags1 =~= tags.take(q) + tags.skip(q + 1));
        lemma_done_add(nodes.take(q), tags.take(q), nodes.skip(q + 1), tags.skip(q + 1));
        assert(done_of(nodes1, tags1) =~= done_of(nodes, tags));
        self.lemma_put(k, nodes1, tags1, at, x);
    }

    /// When every new node is done, the nodes are right.
    pub proof fn lemma_arranged_end(self, nodes: Seq<PNode>, tags: Seq<Option<int>>, c: int)
        requires
            self.sound(),
            self.arranged(0, nodes, tags, c),
        ensures
            nodes.len() == self.news.len(),
            forall|j: int| 0 <= j < self.news.len() ==> self.good(j, #[trigger] nodes[j]),
    {
        reveal(Plan::arranged);
        assert forall|q: int| 0 <= q < tags.len() implies (#[trigger] tags[q]) is None by {
            if tags[q] is Some {
                assert(self.waits(tags[q]->0, 0));
            }
        }
        lemma_done_all(nodes, tags);
        assert forall|j: int| 0 <= j < self.news.len() implies self.good(
            j,
            #[trigger] nodes[j],
        ) by {
            assert(nodes[j] == done_of(nodes, tags)[j - 0]);
        }
    }
}

// ---------------------------------------------------------------------------
// The beginning: the old nodes that are reused
// ---------------------------------------------------------------------------

/// The nodes from `n` on whose flag is set.
pub open spec fn kept_from(nodes: Seq<PNode>, flags: Seq<bool>, n: int) -> Seq<PNode>
    decreases nodes.len() - n,
{
    if n < 0 || n >= nodes.len() {
        Seq::empty()
    } else if flags[n] {
        seq![nodes[n]] + kept_from(nodes, flags, n + 1)
    } else {
        kept_from(nodes, flags, n + 1)
    }
}

/// The indices from `n` on whose flag is set.
pub open spec fn kept_tags(flags: Seq<bool>, n: int) -> Seq<Option<int>>
    decreases flags.len() - n,
{
    if n < 0 || n >= flags.len() {
        Seq::empty()
    } else if flags[n] {
        seq![Some(n)] + kept_tags(flags, n + 1)
    } else {
        kept_tags(flags, n + 1)
    }
}

proof fn lemma_kept(nodes: Seq<PNode>, flags: Seq<bool>, n: int)
    requires
        nodes.len() == flags.len(),
        0 <= n <= flags.len(),
    ensures
        kept_from(nodes, flags, n).len() == kept_tags(flags, n).len(),
        forall|q: int|
            0 <= q < kept_tags(flags, n).len() ==> {
                let t = #[trigger] kept_tags(flags, n)[q];
                t is Some && n <= t->0 < flags.len() && flags[t->0] && kept_from(nodes, flags, n)[q]
                    == nodes[t->0]
            },
        forall|p: int, q: int|
            0 <= p < q < kept_tags(flags, n).len() ==> (#[trigger] kept_tags(flags, n)[p])->0 < (
            #[trigger] kept_tags(flags, n)[q])->0,
        forall|i: int|
            n <= i < flags.len() && #[trigger] flags[i] ==> kept_tags(flags, n).contains(Some(i)),
    decreases flags.len() - n,
{
    if n < flags.len() {
        lemma_kept(nodes, flags, n + 1);
        let rest = kept_tags(flags, n + 1);
        let all = kept_tags(flags, n);
        if flags[n] {
            assert(all[0] == Some(n));
            assert forall|q: int| 0 < q < all.len() implies #[trigger] all[q] == rest[q - 1] by {}
            assert forall|i: int| n <= i < flags.len() && #[trigger] flags[i] implies all.contains(
                Some(i),
            ) by {
                if i > n {
                    let q = choose|q: int| 0 <= q < rest.len() && rest[q] == Some(i);
                    assert(all[q + 1] == Some(i));
                }
            }
            assert forall|q: int| 0 <= q < all.len() implies {
                let t = #[trigger] all[q];
                t is Some && n <= t->0 < flags.len() && flags[t->0] && kept_from(nodes, flags, n)[q]
                    == nodes[t->0]
            } by {
                if q > 0 {
                    assert(all[q] == rest[q - 1]);
                    assert(kept_from(nodes, flags, n)[q] == kept_from(nodes, flags, n + 1)[q - 1]);
                }
            }
            assert forall|p: int, q: int| 0 <= p < q < all.len() implies (#[trigger] all[p])->0 < (
            #[trigger] all[q])->0 by {
                assert(all[q] == rest[q - 1]);
                if p > 0 {
                    assert(all[p] == rest[p - 1]);
                }
            }
        }
    }
}

impl<'a> Plan<'a> {
    /// Once the other nodes are removed, the reused nodes stand as they have to
    /// at the beginning.
    pub proof fn lemma_arranged_begin(self)
        requires
            self.sound(),
        ensures
            ({
                let flags = reused(self.olds, self.news);
                let nodes = kept_from(self.mid, flags, 0);
                self.arranged(
                    self.news.len() as int,
                    nodes,
                    kept_tags(flags, 0),
                    nodes.len() as int,
                )
            }),
    {
        reveal(Plan::arranged);
        self.lemma_pairs();
        let flags = reused(self.olds, self.news);
        let nodes = kept_from(self.mid, flags, 0);
        let tags = kept_tags(flags, 0);
        let k = self.news.len() as int;
        lemma_kept(self.mid, flags, 0);
        lemma_done_none(nodes, tags);
        assert forall|q: int| 0 <= q < tags.len() && (#[trigger] tags[q]) is Some implies self.waits(
            tags[q]->0,
            k,
        ) && nodes[q] == self.mid[tags[q]->0] by {
            let i = tags[q]->0;
            assert(flags[i]);
            let j = choose|j: int|
                0 <= j < self.news.len() && (#[trigger] self.news[j]).key() == self.olds[i].key();
            assert(self.pair(i, j));
        }
        assert forall|i: int| #[trigger] self.waits(i, k) implies tags.contains(Some(i)) by {
            let j = self.target(i);
            assert(self.pair(i, j));
            assert(self.news[j].key() == self.olds[i].key());
            assert(flags[i]);
        }
    }
}

} // verus!
