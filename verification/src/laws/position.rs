//! Where the stack machine is in the physical tree, and what identities are taken.
use crate::changelist::Move;
use crate::dom::Frame;
use crate::dom::Machine;
use crate::dom::PNode;
use crate::dom::distinct;
use crate::dom::has_id;
use crate::dom::identified;
use crate::dom::identified_all;
use crate::dom::index_of_id;
use crate::laws::basic::lemma_identified_all_mono;
use vstd::prelude::*;

verus! {

/// `parent`, with the children `kids`, is on top of the path: `[base.. parent]`.
pub open spec fn outside(m: Machine, base: Seq<Frame>, parent: PNode, kids: Seq<PNode>) -> bool {
    &&& m.frames == base
    &&& m.loose.len() == 0
    &&& m.top == PNode { children: kids, ..parent }
}

/// The child at `h` of `parent`, with the children `kids`, is on top of the
/// path: `[base.. parent child]`.
pub open spec fn inside(
    m: Machine,
    base: Seq<Frame>,
    parent: PNode,
    kids: Seq<PNode>,
    h: int,
) -> bool {
    let f = m.frames.last();
    &&& m.loose.len() == 0
    &&& m.frames.len() == base.len() + 1
    &&& m.frames.drop_last() == base
    &&& f.hole == h
    &&& 0 <= h < kids.len()
    &&& f.node.id == parent.id
    &&& f.node.label == parent.label
    &&& f.node.children.len() == kids.len()
    &&& f.node.children.update(h, m.top) == kids
}

pub proof fn lemma_descend(m: Machine, base: Seq<Frame>, parent: PNode, kids: Seq<PNode>, i: int)
    requires
        outside(m, base, parent, kids),
        0 <= i < kids.len(),
    ensures
        m.descend(i) matches Some(x) && inside(x, base, parent, kids, i) && x.top == kids[i]
            && x.temps == m.temps && x.fresh == m.fresh,
{
    let x = m.descend(i)->0;
    assert(x.frames.drop_last() =~= base);
    assert(kids.update(i, kids[i]) =~= kids);
}

pub proof fn lemma_ascend(m: Machine, base: Seq<Frame>, parent: PNode, kids: Seq<PNode>, h: int)
    requires
        inside(m, base, parent, kids, h),
    ensures
        m.ascend() matches Some(x) && outside(x, base, parent, kids) && x.temps == m.temps
            && x.fresh == m.fresh,
        m.top == kids[h],
{
    assert(kids[h] == m.top);
}

pub proof fn lemma_sibling(
    m: Machine,
    base: Seq<Frame>,
    parent: PNode,
    kids: Seq<PNode>,
    h: int,
    i: int,
)
    requires
        inside(m, base, parent, kids, h),
        0 <= i < kids.len(),
        i <= usize::MAX,
    ensures
        m.go(Move::ToSibling(i as usize)) matches Some(x) && inside(x, base, parent, kids, i)
            && x.top == kids[i] && x.temps == m.temps && x.fresh == m.fresh,
{
    lemma_ascend(m, base, parent, kids, h);
    lemma_descend(m.ascend()->0, base, parent, kids, i);
}

pub proof fn lemma_index_of_id(kids: Seq<PNode>, q: int)
    requires
        distinct(kids),
        0 <= q < kids.len(),
    ensures
        has_id(kids, kids[q].id),
        index_of_id(kids, kids[q].id) == q,
{
    reveal(distinct);
    assert(kids[q].id == kids[q].id);
}

pub proof fn lemma_descend_to_temp(
    m: Machine,
    base: Seq<Frame>,
    parent: PNode,
    kids: Seq<PNode>,
    q: int,
    temp: u32,
)
    requires
        outside(m, base, parent, kids),
        distinct(kids),
        0 <= q < kids.len(),
        m.temps.contains_key(temp as nat),
        m.temps[temp as nat] == kids[q].id,
    ensures
        m.descend_to_temp(temp) matches Some(x) && inside(x, base, parent, kids, q) && x.top
            == kids[q] && x.temps == m.temps && x.fresh == m.fresh,
{
    lemma_index_of_id(kids, q);
    lemma_descend(m, base, parent, kids, q);
}

/// The node on top of the path is changed, or replaced by another one.
pub proof fn lemma_change(
    m: Machine,
    after: Machine,
    base: Seq<Frame>,
    parent: PNode,
    kids: Seq<PNode>,
    h: int,
)
    requires
        inside(m, base, parent, kids, h),
        after.frames == m.frames,
        after.loose.len() == 0,
    ensures
        inside(after, base, parent, kids.update(h, after.top), h),
{
    let f = m.frames.last();
    assert(f.node.children.update(h, after.top) =~= kids.update(h, after.top));
}

/// The node on top of the path and its next siblings are removed.
pub proof fn lemma_cut(m: Machine, base: Seq<Frame>, parent: PNode, kids: Seq<PNode>, h: int)
    requires
        inside(m, base, parent, kids, h),
    ensures
        m.remove_self_and_next_siblings() matches Some(x) && outside(
            x,
            base,
            parent,
            kids.take(h),
        ) && x.temps == m.temps && x.fresh == m.fresh,
{
    let f = m.frames.last();
    assert(f.node.children.take(h) =~= kids.take(h));
}

/// One of some siblings is changed, or replaced by a new node.
pub proof fn lemma_identified_update(kids: Seq<PNode>, h: int, x: PNode, f: nat, g: nat)
    requires
        identified_all(kids, f),
        0 <= h < kids.len(),
        identified(x, g),
        f <= g,
        x.id == kids[h].id || f <= x.id,
    ensures
        identified_all(kids.update(h, x), g),
{
    reveal(distinct);
    let kids2 = kids.update(h, x);
    lemma_identified_all_mono(kids, f, g);
    assert forall|i: int| 0 <= i < kids2.len() implies identified(#[trigger] kids2[i], g) by {
        if i != h {
            assert(kids2[i] == kids[i]);
        }
    }
    assert forall|i: int, j: int|
        0 <= i < kids2.len() && 0 <= j < kids2.len() && i != j implies (#[trigger] kids2[i]).id
        != (#[trigger] kids2[j]).id by {
        assert(identified(kids[i], f));
        assert(identified(kids[j], f));
        assert(kids[i].id != kids[j].id);
    }
}

/// A new node comes in among some siblings.
pub proof fn lemma_identified_insert(kids: Seq<PNode>, h: int, x: PNode, f: nat, g: nat)
    requires
        identified_all(kids, f),
        0 <= h <= kids.len(),
        identified(x, g),
        f <= g,
        f <= x.id,
    ensures
        identified_all(kids.insert(h, x), g),
{
    reveal(distinct);
    let kids2 = kids.insert(h, x);
    lemma_identified_all_mono(kids, f, g);
    assert forall|i: int| 0 <= i < kids2.len() implies identified(#[trigger] kids2[i], g) by {
        if i < h {
            assert(kids2[i] == kids[i]);
        } else if i > h {
            assert(kids2[i] == kids[i - 1]);
        }
    }
    assert forall|i: int, j: int|
        0 <= i < kids2.len() && 0 <= j < kids2.len() && i != j implies (#[trigger] kids2[i]).id
        != (#[trigger] kids2[j]).id by {
        let a = if i < h {
            i
        } else {
            i - 1
        };
        let b = if j < h {
            j
        } else {
            j - 1
        };
        if i != h {
            assert(identified(kids[a], f));
        }
        if j != h {
            assert(identified(kids[b], f));
        }
        if i != h && j != h {
            assert(kids[a].id != kids[b].id);
        }
    }
}

/// Some of the siblings go away.
pub proof fn lemma_identified_take(kids: Seq<PNode>, h: int, f: nat)
    requires
        identified_all(kids, f),
        0 <= h <= kids.len(),
    ensures
        identified_all(kids.take(h), f),
{
    reveal(distinct);
    let kids2 = kids.take(h);
    assert forall|i: int| 0 <= i < kids2.len() implies identified(#[trigger] kids2[i], f) by {
        assert(kids2[i] == kids[i]);
    }
    assert forall|i: int, j: int|
        0 <= i < kids2.len() && 0 <= j < kids2.len() && i != j implies (#[trigger] kids2[i]).id
        != (#[trigger] kids2[j]).id by {
        assert(kids[i].id != kids[j].id);
    }
}

/// One of the siblings goes away.
pub proof fn lemma_identified_remove(kids: Seq<PNode>, h: int, f: nat)
    requires
        identified_all(kids, f),
        0 <= h < kids.len(),
    ensures
        identified_all(kids.remove(h), f),
{
    reveal(distinct);
    let kids2 = kids.remove(h);
    assert forall|i: int| 0 <= i < kids2.len() implies identified(#[trigger] kids2[i], f) by {
        if i < h {
            assert(kids2[i] == kids[i]);
        } else {
            assert(kids2[i] == kids[i + 1]);
        }
    }
    assert forall|i: int, j: int|
        0 <= i < kids2.len() && 0 <= j < kids2.len() && i != j implies (#[trigger] kids2[i]).id
        != (#[trigger] kids2[j]).id by {
        let a = if i < h {
            i
        } else {
            i + 1
        };
        let b = if j < h {
            j
        } else {
            j + 1
        };
        assert(kids[a].id != kids[b].id);
    }
}

/// One of the siblings goes to another place.
pub proof fn lemma_identified_move(kids: Seq<PNode>, q: int, h: int, f: nat)
    requires
        identified_all(kids, f),
        0 <= q < kids.len(),
        0 <= h < kids.len(),
    ensures
        identified_all(kids.remove(q).insert(h, kids[q]), f),
{
    reveal(distinct);
    let rest = kids.remove(q);
    let kids2 = rest.insert(h, kids[q]);
    lemma_identified_remove(kids, q, f);
    assert forall|i: int| 0 <= i < kids2.len() implies identified(#[trigger] kids2[i], f) by {
        if i < h {
            assert(kids2[i] == rest[i]);
        } else if i > h {
            assert(kids2[i] == rest[i - 1]);
        } else {
            assert(identified(kids[q], f));
        }
    }
    assert forall|i: int| 0 <= i < rest.len() implies (#[trigger] rest[i]).id != kids[q].id by {
        let a = if i < q {
            i
        } else {
            i + 1
        };
        assert(kids[a].id != kids[q].id);
    }
    assert forall|i: int, j: int|
        0 <= i < kids2.len() && 0 <= j < kids2.len() && i != j implies (#[trigger] kids2[i]).id
        != (#[trigger] kids2[j]).id by {
        let a = if i < h {
            i
        } else {
            i - 1
        };
        let b = if j < h {
            j
        } else {
            j - 1
        };
        if i == h {
            assert(rest[b].id != kids[q].id);
        } else if j == h {
            assert(rest[a].id != kids[q].id);
        } else {
            assert(rest[a].id != rest[b].id);
        }
    }
}

/// The temporaries before `t` hold the same nodes.
pub open spec fn same_below(a: Map<nat, nat>, b: Map<nat, nat>, t: nat) -> bool {
    forall|k: nat|
        #![trigger a.contains_key(k)]
        #![trigger b.contains_key(k)]
        k < t ==> (a.contains_key(k) <==> b.contains_key(k)) && (a.contains_key(k) ==> a[k] == b[k])
}

} // verus!
