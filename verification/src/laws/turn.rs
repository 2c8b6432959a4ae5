//! Diffing turns a physical tree that reflects an old tree into one that
//! reflects a new one.
use crate::changelist::Edit;
use crate::changelist::Move;
use crate::changelist::Step;
use crate::dom::Frame;
use crate::dom::Loose;
use crate::dom::Machine;
use crate::dom::PNode;
use crate::dom::distinct;
use crate::dom::element_label;
use crate::dom::identified;
use crate::dom::identified_all;
use crate::dom::lemma_follow_add;
use crate::dom::lemma_follow_empty;
use crate::dom::lemma_follow_push;
use crate::dom::listener_map;
use crate::dom::reflects;
use crate::dom::reflects_all;
use crate::keys::count;
use crate::keys::has_key;
use crate::keys::lemma_count_below;
use crate::keys::lemma_count_le;
use crate::keys::lemma_count_none;
use crate::keys::lemma_count_run;
use crate::keys::lemma_count_take;
use crate::keys::lemma_prefix_from;
use crate::keys::lemma_run_end;
use crate::keys::lemma_suffix_from;
use crate::keys::none_reused;
use crate::keys::reused;
use crate::keys::run_end;
use crate::keys::shared_prefix;
use crate::keys::shared_suffix;
use crate::keys::sources;
use crate::keys::temp_of;
use crate::keys::uniquely_keyed;
use crate::laws::basic::clean;
use crate::laws::basic::diffed_attributes;
use crate::laws::basic::lemma_append;
use crate::laws::basic::lemma_attrs;
use crate::laws::basic::lemma_create;
use crate::laws::basic::lemma_diffed_attributes;
use crate::laws::basic::lemma_identified_all_mono;
use crate::laws::basic::lemma_listeners;
use crate::laws::basic::lemma_relabeled;
use crate::laws::basic::lemma_shown_at;
use crate::laws::basic::lemma_with_attributes_at;
use crate::laws::basic::on_element;
use crate::laws::basic::relabeled;
use crate::laws::basic::settles;
use crate::laws::basic::shown_at;
use crate::laws::basic::shows;
use crate::laws::basic::shows_by_key;
use crate::laws::basic::shows_children;
use crate::laws::basic::shows_in_order;
use crate::laws::fits::law_create_and_append_children_fits;
use crate::laws::fits::law_create_fits;
use crate::laws::fits::law_diff_attr_fits;
use crate::laws::fits::law_diff_listeners_fits;
use crate::laws::fits::lemma_plain_drop;
use crate::laws::fits::lemma_plain_save;
use crate::laws::near::lemma_nearly;
use crate::laws::near::nearly_by_key;
use crate::laws::near::nearly_children;
use crate::laws::near::nearly_has;
use crate::laws::near::nearly_in_order;
use crate::laws::near::nearly_reflects;
use crate::laws::near::volatile_name;
use crate::laws::order::Plan;
use crate::laws::order::kept_from;
use crate::laws::order::kept_tags;
use crate::laws::position::inside;
use crate::laws::position::lemma_ascend;
use crate::laws::position::lemma_change;
use crate::laws::position::lemma_cut;
use crate::laws::position::lemma_descend;
use crate::laws::position::lemma_descend_to_temp;
use crate::laws::position::lemma_identified_insert;
use crate::laws::position::lemma_identified_move;
use crate::laws::position::lemma_identified_remove;
use crate::laws::position::lemma_identified_take;
use crate::laws::position::lemma_identified_update;
use crate::laws::position::lemma_index_of_id;
use crate::laws::position::lemma_sibling;
use crate::laws::position::outside;
use crate::laws::position::same_below;
use crate::laws::proper::all_proper;
use crate::laws::proper::lemma_proper_empty;
use crate::laws::proper::lemma_proper_joined;
use crate::laws::proper::lemma_proper_plain;
use crate::laws::proper::lemma_proper_push;
use crate::laws::proper::neat;
use crate::laws::proper::one_per_event;
use crate::laws::proper::one_per_name;
use crate::laws::proper::tidy;
use crate::laws::proper::tidy_all;
use crate::laws::right::lemma_right_earlier;
use crate::laws::right::lemma_right_tree;
use crate::laws::right::reuses;
use crate::laws::right::reuses_in_order;
use crate::laws::right::right_children;
use crate::laws::right::right_node;
use crate::laws::right::right_tree;
use crate::lis::lemma_picked_increasing;
use crate::lis::picked;
use crate::slots::lemma_slots_beyond_prefix;
use crate::slots::lemma_slots_children;
use crate::slots::lemma_slots_keyed;
use crate::slots::lemma_slots_sources;
use crate::slots::lemma_slots_walk;
use crate::slots::shorter;
use crate::slots::slots;
use crate::slots::slots_beyond_prefix;
use crate::slots::slots_children;
use crate::slots::slots_keyed;
use crate::slots::slots_middle;
use crate::slots::slots_walk;
use crate::steps::anchor_steps;
use crate::steps::append_steps;
use crate::steps::attr_steps;
use crate::steps::beyond_prefix_steps;
use crate::steps::can_diff;
use crate::steps::can_diff_children;
use crate::steps::can_diff_in_order;
use crate::steps::can_diff_keyed;
use crate::steps::children_steps;
use crate::steps::clear_steps;
use crate::steps::create_steps;
use crate::steps::cut_steps;
use crate::steps::drop_steps;
use crate::steps::go;
use crate::steps::has_name;
use crate::steps::has_source;
use crate::steps::in_order_steps;
use crate::steps::keyed_steps;
use crate::steps::lemma_beyond_prefix_steps;
use crate::steps::lemma_keyed_steps;
use crate::steps::listener_steps;
use crate::steps::middle_fits;
use crate::steps::middle_steps;
use crate::steps::node_steps;
use crate::steps::place_one_steps;
use crate::steps::place_steps;
use crate::steps::prefix_steps;
use crate::steps::replace_steps;
use crate::steps::save_steps;
use crate::steps::settle_steps;
use crate::steps::source_steps;
use crate::steps::source_temp;
use crate::steps::suffix_steps;
use crate::steps::takes_text;
use crate::steps::temps_end;
use crate::steps::walk_steps;
use crate::vnode::VElement;
use crate::vnode::VNode;
use crate::vnode::keeps_node;
use crate::vnode::lemma_size_index;
use crate::vnode::lemma_size_subrange;
use crate::vnode::renderable;
use crate::vnode::renderable_all;
use crate::vnode::same_type;
use crate::vnode::size;
use crate::vnode::size_all;
use vstd::prelude::*;

verus! {

broadcast use {lemma_follow_empty, lemma_follow_push, lemma_follow_add};

/// The physical node, which reflected `old`, is now the right one for `new`, and
/// reflects `new` if it can be turned into one that does.
#[verifier::opaque]
pub open spec fn renewed(p: PNode, q: PNode, old: VNode, new: VNode, start: nat) -> bool {
    (shows(old, new) ==> reflects(q, new)) && right_node(p, q, old, new, start) && right_tree(
        p,
        q,
        old,
        new,
        start,
    )
}

proof fn lemma_renewed(p: PNode, q: PNode, old: VNode, new: VNode, start: nat, earlier: nat)
    requires
        renewed(p, q, old, new, start),
        earlier <= start,
    ensures
        q.id == p.id || start <= q.id,
        renewed(p, q, old, new, earlier),
{
    reveal(renewed);
    lemma_right_earlier(p, q, old, new, start, earlier);
}

/// The node on top of the path, which reflected `old`, now reflects `new` if it
/// can be turned into one that does. Nothing beneath it has changed.
pub open spec fn turned(m: Machine, after: Machine, old: VNode, new: VNode, t: nat) -> bool {
    &&& after.frames == m.frames
    &&& after.loose.len() == 0
    &&& m.fresh <= after.fresh
    &&& same_below(m.temps, after.temps, t)
    &&& identified(after.top, after.fresh)
    &&& renewed(m.top, after.top, old, new, m.fresh)
}

/// The node on top of the path has other children, and nothing else has
/// changed.
pub open spec fn refilled(m: Machine, after: Machine, t: nat) -> bool {
    &&& outside(after, m.frames, m.top, after.top.children)
    &&& m.fresh <= after.fresh
    &&& same_below(m.temps, after.temps, t)
    &&& identified_all(after.top.children, after.fresh)
}

// ---------------------------------------------------------------------------
// Replacing and appending
// ---------------------------------------------------------------------------

pub proof fn lemma_replace<'a>(m: Machine, new: VNode<'a>) -> (after: Machine)
    requires
        m.loose.len() == 0,
        renderable(new),
    ensures
        m.follow(replace_steps(new)) == Some(after),
        after.frames == m.frames,
        after.loose.len() == 0,
        after.temps == m.temps,
        m.fresh <= after.fresh,
        m.fresh <= after.top.id,
        clean(new) ==> reflects(after.top, new),
        identified(after.top, after.fresh),
        tidy(new) ==> all_proper(m, replace_steps(new)),
{
    lemma_create(m, new);
    let m1 = m.follow(create_steps(new))->0;
    assert(m1.loose[0] == m1.loose.last());
    if tidy(new) {
        let head = seq![Step::<'a>::Commit];
        law_create_fits(m, new);
        lemma_proper_plain(m, head);
        lemma_proper_joined(m, head, create_steps(new));
        lemma_proper_plain(m1, seq![Step::<'a>::Do(Edit::ReplaceWith)]);
        lemma_proper_joined(m, head + create_steps(new), seq![Step::Do(Edit::ReplaceWith)]);
    }
    m1.replace_with()->0
}

/// New nodes are created and appended to the children of the node on top of
/// the path.
pub proof fn lemma_append_outside<'a>(
    m: Machine,
    base: Seq<Frame>,
    parent: PNode,
    kids: Seq<PNode>,
    ns: Seq<VNode<'a>>,
) -> (r: (Machine, Seq<PNode>))
    requires
        outside(m, base, parent, kids),
        identified_all(kids, m.fresh),
        renderable_all(ns),
    ensures
        m.follow(append_steps(ns)) == Some(r.0),
        outside(r.0, base, parent, kids + r.1),
        r.0.temps == m.temps,
        m.fresh <= r.0.fresh,
        r.1.len() == ns.len(),
        forall|i: int| 0 <= i < ns.len() && clean(#[trigger] ns[i]) ==> reflects(r.1[i], ns[i]),
        identified_all(kids + r.1, r.0.fresh),
        forall|i: int| 0 <= i < r.1.len() ==> m.fresh <= (#[trigger] r.1[i]).id,
        tidy_all(ns) ==> all_proper(m, append_steps(ns)),
{
    reveal(distinct);
    if tidy_all(ns) {
        law_create_and_append_children_fits(m, ns);
    }
    lemma_append(m, ns);
    let after = m.follow(append_steps(ns))->0;
    let added = after.focus().children.skip(kids.len() as int);
    let all = kids + added;
    lemma_identified_all_mono(kids, m.fresh, after.fresh);
    assert forall|i: int| 0 <= i < all.len() implies identified(
        #[trigger] all[i],
        after.fresh,
    ) by {
        if i < kids.len() {
            assert(all[i] == kids[i]);
        } else {
            assert(all[i] == added[i - kids.len()]);
        }
    }
    assert forall|i: int, j: int|
        0 <= i < all.len() && 0 <= j < all.len() && i != j implies (#[trigger] all[i]).id != (
    #[trigger] all[j]).id by {
        if i < kids.len() {
            assert(identified(kids[i], m.fresh));
        } else {
            assert(m.fresh <= added[i - kids.len()].id);
        }
        if j < kids.len() {
            assert(identified(kids[j], m.fresh));
        } else {
            assert(m.fresh <= added[j - kids.len()].id);
        }
        if i < kids.len() && j < kids.len() {
            assert(kids[i].id != kids[j].id);
        } else if i >= kids.len() && j >= kids.len() {
            assert(added[i - kids.len()].id != added[j - kids.len()].id);
        }
    }
    (after, added)
}

// ---------------------------------------------------------------------------
// Keyed children: saving, removing, and bringing into order
// ---------------------------------------------------------------------------

/// The reused nodes from `from` on are saved in their temporaries.
#[verifier::opaque]
pub open spec fn saved_from(
    temps: Map<nat, nat>,
    flags: Seq<bool>,
    t: nat,
    nodes: Seq<PNode>,
    from: int,
) -> bool {
    forall|i: int|
        from <= i < flags.len() && flags[i] ==> {
            let temp = temp_of(flags, t, i);
            temps.contains_key(temp) && temps[temp] == (#[trigger] nodes[i]).id
        }
}

/// Saving the reused nodes changes the temporaries and nothing else.
proof fn lemma_save<'a>(
    m: Machine,
    nodes: Seq<PNode>,
    flags: Seq<bool>,
    start: int,
    base: int,
    t: nat,
) -> (after: Machine)
    requires
        m.loose.len() == 0,
        0 <= base,
        nodes.len() == flags.len(),
        base + flags.len() <= m.top.children.len(),
        base + flags.len() <= usize::MAX,
        nodes == m.top.children.subrange(base, base + flags.len()),
        0 <= start <= flags.len(),
        t + count(flags) <= u32::MAX,
    ensures
        m.follow(
            save_steps::<'a>(flags, start, base, t + count(flags.take(start))),
        ) == Some(after),
        after == (Machine { temps: after.temps, ..m }),
        same_below(m.temps, after.temps, t + count(flags.take(start))),
        saved_from(after.temps, flags, t, nodes, start),
    decreases flags.len() - start,
{
    reveal(saved_from);
    lemma_run_end(flags, start);
    let end = run_end(flags, start);
    let tt = t + count(flags.take(start));
    lemma_count_run(flags, start, end);
    lemma_count_take(flags, end);
    let m1 = if end > start {
        m.save_children(tt as int, base + start, base + end)->0
    } else {
        m
    };
    let here: Seq<Step<'a>> = if end > start {
        seq![Step::Commit].push(
            Step::Do(
                Edit::SaveChildrenToTemporaries {
                    temp: tt as u32,
                    start: (base + start) as usize,
                    end: (base + end) as usize,
                },
            ),
        )
    } else {
        Seq::empty()
    };
    assert(m.follow(here) == Some(m1));
    assert forall|i: int| start <= i < end implies m1.temps.contains_key(temp_of(flags, t, i))
        && m1.temps[temp_of(flags, t, i)] == (#[trigger] nodes[i]).id by {
        lemma_count_run(flags, start, i);
        assert(nodes[i] == m.top.children[base + i]);
    }
    if end >= flags.len() {
        m1
    } else {
        assert(flags.take(end + 1).drop_last() =~= flags.take(end));
        assert(flags.take(end + 1).last() == flags[end]);
        let after = lemma_save(m1, nodes, flags, end + 1, base, t);
        assert(t + count(flags.take(end + 1)) == tt + (end - start));
        assert(same_below(m1.temps, after.temps, tt));
        assert(same_below(m.temps, m1.temps, tt));
        assert forall|i: int| start <= i < flags.len() && flags[i] implies after.temps.contains_key(
            temp_of(flags, t, i),
        ) && after.temps[temp_of(flags, t, i)] == (#[trigger] nodes[i]).id by {
            if i < end {
                lemma_count_run(flags, start, i);
                assert(m1.temps.contains_key(temp_of(flags, t, i)));
            }
        }
        after
    }
}

/// Removing the nodes that are not reused leaves those that are.
proof fn lemma_drop<'a>(
    m: Machine,
    pre: Seq<PNode>,
    mid: Seq<PNode>,
    suf: Seq<PNode>,
    flags: Seq<bool>,
    n: int,
)
    requires
        m.loose.len() == 0,
        mid.len() == flags.len(),
        0 <= n <= flags.len(),
        pre.len() + flags.len() <= usize::MAX,
        m.top.children == pre + mid.take(n) + kept_from(mid, flags, n) + suf,
        identified_all(m.top.children, m.fresh),
    ensures
        m.follow(drop_steps::<'a>(flags, n, pre.len() as int)) == Some(
            Machine {
                top: PNode { children: pre + kept_from(mid, flags, 0) + suf, ..m.top },
                ..m
            },
        ),
        identified_all(pre + kept_from(mid, flags, 0) + suf, m.fresh),
    decreases n,
{
    let kids = m.top.children;
    if n == 0 {
        assert(kids =~= pre + kept_from(mid, flags, 0) + suf);
    } else {
        let at = pre.len() + n - 1;
        if flags[n - 1] {
            assert(pre + mid.take(n - 1) + kept_from(mid, flags, n - 1) + suf =~= kids);
            lemma_drop(m, pre, mid, suf, flags, n - 1);
            assert(Seq::<Step<'a>>::empty() + drop_steps::<'a>(flags, n - 1, pre.len() as int)
                =~= drop_steps::<'a>(flags, n - 1, pre.len() as int));
        } else {
            let kids1 = kids.remove(at);
            let m1 = Machine { top: PNode { children: kids1, ..m.top }, ..m };
            assert(kids1 =~= pre + mid.take(n - 1) + kept_from(mid, flags, n - 1) + suf);
            lemma_identified_remove(kids, at, m.fresh);
            let here: Seq<Step<'a>> = seq![Step::Commit].push(
                Step::Do(Edit::RemoveChild((pre.len() as int + n - 1) as usize)),
            );
            assert(m.follow(here) == Some(m1));
            lemma_drop(m1, pre, mid, suf, flags, n - 1);
        }
    }
}

/// Where keyed children are brought into order: between `pre` and `suf`, among
/// the children of `parent`, with the temporaries from `t` on.
pub struct Scene {
    pub base: Seq<Frame>,
    pub parent: PNode,
    pub pre: Seq<PNode>,
    pub suf: Seq<PNode>,
    pub t: nat,
}

impl Scene {
    pub open spec fn kids(self, nodes: Seq<PNode>) -> Seq<PNode> {
        self.pre + nodes + self.suf
    }
}

/// The plan can be carried out.
#[verifier::opaque]
pub open spec fn feasible(plan: Plan, t: nat) -> bool {
    &&& plan.sound()
    &&& forall|i: int, j: int| #[trigger]
        plan.pair(i, j) ==> nearly_reflects(plan.mid[i], plan.olds[i], plan.news[j])
    &&& t + slots_middle(plan.olds, plan.news) <= u32::MAX
    &&& forall|i: int, j: int| #[trigger]
        plan.pair(i, j) ==> can_diff(plan.olds[i], plan.news[j])
    &&& forall|j: int|
        0 <= j < plan.news.len() && (forall|i: int| !#[trigger] plan.pair(i, j)) ==> renderable(
            #[trigger] plan.news[j],
        )
}

pub proof fn lemma_feasible(plan: Plan, t: nat)
    requires
        feasible(plan, t),
    ensures
        plan.sound(),
        t + count(reused(plan.olds, plan.news)) <= u32::MAX,
{
    reveal(feasible);
}

/// The nodes stand among the children as the plan has it, whether or not one
/// of them is on the path.
pub open spec fn laid_out(
    sc: Scene,
    plan: Plan,
    m: Machine,
    k: int,
    nodes: Seq<PNode>,
    tags: Seq<Option<int>>,
    c: int,
) -> bool {
    &&& plan.arranged(k, nodes, tags, c)
    &&& identified_all(sc.kids(nodes), m.fresh)
    &&& plan.start <= m.fresh
    &&& saved_from(m.temps, reused(plan.olds, plan.news), sc.t, plan.mid, 0)
}

/// The nodes stand as the plan has it, and the cursor is on the path.
pub open spec fn staged(
    sc: Scene,
    plan: Plan,
    m: Machine,
    k: int,
    nodes: Seq<PNode>,
    tags: Seq<Option<int>>,
    c: int,
) -> bool {
    &&& laid_out(sc, plan, m, k, nodes, tags, c)
    &&& inside(m, sc.base, sc.parent, sc.kids(nodes), sc.pre.len() + c)
}

/// What is saved stays saved while only later temporaries are used.
proof fn lemma_still_saved(
    a: Map<nat, nat>,
    b: Map<nat, nat>,
    flags: Seq<bool>,
    t: nat,
    nodes: Seq<PNode>,
)
    requires
        saved_from(a, flags, t, nodes, 0),
        same_below(a, b, t + count(flags)),
    ensures
        saved_from(b, flags, t, nodes, 0),
{
    reveal(saved_from);
    assert forall|i: int| 0 <= i < flags.len() && flags[i] implies b.contains_key(
        temp_of(flags, t, i),
    ) && b[temp_of(flags, t, i)] == (#[trigger] nodes[i]).id by {
        lemma_count_below(flags, i);
        assert(a.contains_key(temp_of(flags, t, i)));
    }
}

/// What is known of the old node for a new one.
proof fn lemma_source_facts<'a>(
    sc: Scene,
    plan: Plan<'a>,
    m: Machine,
    k: int,
    nodes: Seq<PNode>,
    tags: Seq<Option<int>>,
    c: int,
) -> (r: (int, int))
    requires
        feasible(plan, sc.t),
        laid_out(sc, plan, m, k, nodes, tags, c),
        0 < k,
        has_source(plan.olds, plan.news, k - 1),
    ensures
        ({
            let i = r.0;
            let q = r.1;
            let temp = source_temp(plan.olds, plan.news, k - 1, sc.t);
            let t2 = temps_end(plan.olds, plan.news, sc.t);
            &&& i == sources(plan.olds, plan.news)[k - 1]
            &&& plan.pair(i, k - 1)
            &&& can_diff(plan.olds[i], plan.news[k - 1])
            &&& 0 <= q < nodes.len()
            &&& q != c
            &&& tags[q] == Some(i)
            &&& nodes[q] == plan.mid[i]
            &&& sc.kids(nodes)[sc.pre.len() + q] == plan.mid[i]
            &&& nearly_reflects(plan.mid[i], plan.olds[i], plan.news[k - 1])
            &&& m.temps.contains_key(temp as nat)
            &&& m.temps[temp as nat] == plan.mid[i].id
            &&& size(plan.olds[i]) <= size_all(plan.olds)
            &&& t2 + slots(plan.olds[i], plan.news[k - 1]) <= u32::MAX
            &&& source_steps(plan.olds, plan.news, k - 1, t2) == node_steps(
                plan.olds[i],
                plan.news[k - 1],
                t2,
            )
        }),
{
    reveal(feasible);
    plan.lemma_pairs();
    plan.lemma_bounds(k, nodes, tags, c);
    let j = k - 1;
    let i = sources(plan.olds, plan.news)[j] as int;
    assert(plan.pair(i, j));
    let q = plan.lemma_waiting(k, nodes, tags, c, i);
    assert(sc.kids(nodes)[sc.pre.len() + q] == nodes[q]);
    lemma_source_saved(sc, plan, m, i, j);
    lemma_size_index(plan.olds, i);
    lemma_slots_sources(plan.olds, plan.news, plan.news.len() as int, j);
    (i, q)
}

/// A physical node that a diff has turned is right for the new node.
proof fn lemma_good_turned<'a>(plan: Plan<'a>, i: int, j: int, x: PNode, start: nat)
    requires
        plan.sound(),
        plan.pair(i, j),
        plan.start <= start,
        renewed(plan.mid[i], x, plan.olds[i], plan.news[j], start),
    ensures
        plan.good(j, x),
{
    reveal(renewed);
    plan.lemma_pairs();
    assert(plan.olds[i].key() == plan.news[j].key());
    assert forall|i2: int| #[trigger]
        plan.pair(i2, j) && keeps_node(plan.olds[i2], plan.news[j]) implies x.id
        == plan.mid[i2].id by {
        assert(i2 == i);
    }
    lemma_right_earlier(plan.mid[i], x, plan.olds[i], plan.news[j], start, plan.start);
    assert forall|i2: int| #[trigger] plan.pair(i2, j) implies right_tree(
        plan.mid[i2],
        x,
        plan.olds[i2],
        plan.news[j],
        plan.start,
    ) by {
        assert(i2 == i);
    }
}

/// A new physical node is right for a new node without an old one.
proof fn lemma_good_created<'a>(plan: Plan<'a>, j: int, x: PNode)
    requires
        forall|i: int| !#[trigger] plan.pair(i, j),
        plan.start <= x.id,
        0 <= j < plan.news.len(),
        clean(plan.news[j]) ==> reflects(x, plan.news[j]),
    ensures
        plan.good(j, x),
{
    if has_key(plan.olds, plan.news[j].key()) {
        let i = choose|i: int|
            0 <= i < plan.olds.len() && (#[trigger] plan.olds[i]).key() == plan.news[j].key();
        assert(plan.pair(i, j));
    }
}

proof fn lemma_kids_update(sc: Scene, nodes: Seq<PNode>, q: int, x: PNode)
    requires
        0 <= q < nodes.len(),
    ensures
        sc.kids(nodes).update(sc.pre.len() + q, x) == sc.kids(nodes.update(q, x)),
{
    assert(sc.kids(nodes).update(sc.pre.len() + q, x) =~= sc.kids(nodes.update(q, x)));
}

proof fn lemma_kids_insert(sc: Scene, nodes: Seq<PNode>, c: int, x: PNode)
    requires
        0 <= c <= nodes.len(),
    ensures
        sc.kids(nodes).insert(sc.pre.len() + c, x) == sc.kids(nodes.insert(c, x)),
{
    assert(sc.kids(nodes).insert(sc.pre.len() + c, x) =~= sc.kids(nodes.insert(c, x)));
}

proof fn lemma_kids_remove(sc: Scene, nodes: Seq<PNode>, q: int)
    requires
        0 <= q < nodes.len(),
    ensures
        sc.kids(nodes).remove(sc.pre.len() + q) == sc.kids(nodes.remove(q)),
{
    assert(sc.kids(nodes).remove(sc.pre.len() + q) =~= sc.kids(nodes.remove(q)));
}

// ---------------------------------------------------------------------------
// The induction
// ---------------------------------------------------------------------------

/// The instructions for the listeners and attributes of an element fit.
proof fn lemma_element_fits<'a>(
    m: Machine,
    m1: Machine,
    m2: Machine,
    a: VElement<'a>,
    b: VElement<'a>,
)
    requires
        on_element(m),
        m.focus().label->listeners == listener_map(a.listeners@),
        nearly_has(m.focus().label->attributes, a.attributes@, b.attributes@),
        m.follow(listener_steps(a.listeners@, b.listeners@)) == Some(m1),
        m1 == relabeled(m, m.focus().label->attributes, listener_map(b.listeners@)),
        m1.follow(attr_steps(a.attributes@, b.attributes@, b.namespace is Some)) == Some(m2),
        one_per_event(a.listeners@),
        one_per_event(b.listeners@),
        one_per_name(a.attributes@),
    ensures
        all_proper(
            m,
            listener_steps(a.listeners@, b.listeners@) + attr_steps(
                a.attributes@,
                b.attributes@,
                b.namespace is Some,
            ),
        ),
        m.follow(
            listener_steps(a.listeners@, b.listeners@) + attr_steps(
                a.attributes@,
                b.attributes@,
                b.namespace is Some,
            ),
        ) == Some(m2),
{
    let attributes = m.focus().label->attributes;
    let listeners = listener_map(b.listeners@);
    lemma_relabeled(m, attributes, listeners, attributes, listeners);
    assert forall|i: int| 0 <= i < a.attributes@.len() implies attributes.contains_key(
        (#[trigger] a.attributes@[i]).name@,
    ) || volatile_name(b.attributes@, a.attributes@[i].name@) by {
        assert(has_name(a.attributes@, a.attributes@[i].name@));
        lemma_with_attributes_at(Map::empty(), a.attributes@, a.attributes@[i].name@);
    }
    law_diff_listeners_fits(m, a.listeners@, b.listeners@);
    law_diff_attr_fits(m1, a.attributes@, b.attributes@, b.namespace is Some);
    lemma_proper_joined(
        m,
        listener_steps(a.listeners@, b.listeners@),
        attr_steps(a.attributes@, b.attributes@, b.namespace is Some),
    );
}

/// Diffing two nodes turns the physical node.
#[verifier::rlimit(60)]
pub proof fn lemma_node<'a>(m: Machine, old: VNode<'a>, new: VNode<'a>, t: nat) -> (after: Machine)
    requires
        m.loose.len() == 0,
        nearly_reflects(m.top, old, new),
        identified(m.top, m.fresh),
        can_diff(old, new),
        t + slots(old, new) <= u32::MAX,
    ensures
        m.follow(node_steps(old, new, t)) == Some(after),
        turned(m, after, old, new, t),
        tidy(old) && tidy(new) ==> all_proper(m, node_steps(old, new, t)),
    decreases size(old), 0nat, 0int,
{
    reveal(renewed);
    lemma_nearly(m.top, old, new);
    let after = match (old, new) {
        (VNode::Text(a), VNode::Text(b)) => {
            lemma_proper_empty(m);
            if a.text@ == b.text@ {
                m
            } else {
                lemma_proper_plain(m, node_steps(old, new, t));
                m.set_text(b.text@)->0
            }
        },
        (VNode::Element(a), VNode::Element(b)) => {
            if same_type(a, b) {
                lemma_listeners(m, a.listeners@, b.listeners@);
                let m1 = relabeled(m, m.focus().label->attributes, listener_map(b.listeners@));
                lemma_attrs(m1, a.attributes@, b.attributes@, b.namespace is Some);
                let attributes = diffed_attributes(a.attributes@, b.attributes@);
                let m2 = relabeled(m1, attributes, listener_map(b.listeners@));
                assert(a.children@.len() == a.children.len());
                assert(b.children@.len() == b.children.len());
                if settles(a.attributes@, b.attributes@) {
                    lemma_diffed_attributes(a.attributes@, b.attributes@);
                    assert(m2.top.label == element_label(b));
                }
                if tidy(old) && tidy(new) {
                    lemma_element_fits(m, m1, m2, a, b);
                }
                let after = lemma_children(m2, a.children@, b.children@, t);
                if tidy(old) && tidy(new) {
                    lemma_proper_joined(
                        m,
                        listener_steps(a.listeners@, b.listeners@) + attr_steps(
                            a.attributes@,
                            b.attributes@,
                            b.namespace is Some,
                        ),
                        children_steps(a.children@, b.children@, t),
                    );
                }
                after
            } else {
                lemma_replace(m, new)
            }
        },
        _ => lemma_replace(m, new),
    };
    lemma_right_tree(m.top, after.top, old, new, m.fresh);
    after
}

/// Diffing children turns the children of the physical node.
#[verifier::rlimit(60)]
pub proof fn lemma_children<'a>(
    m: Machine,
    olds: Seq<VNode<'a>>,
    news: Seq<VNode<'a>>,
    t: nat,
) -> (after: Machine)
    requires
        m.loose.len() == 0,
        m.top.label is Element,
        olds.len() <= usize::MAX,
        news.len() <= usize::MAX,
        nearly_children(m.top.children, olds, news),
        identified_all(m.top.children, m.fresh),
        can_diff_children(olds, news),
        t + slots_children(olds, news) <= u32::MAX,
    ensures
        m.follow(children_steps(olds, news, t)) == Some(after),
        refilled(m, after, t),
        shows_children(olds, news) ==> reflects_all(after.top.children, news),
        olds.len() > 0 && news.len() > 0 && olds[0].key() is Some && news[0].key() is Some
            ==> reuses(olds, news, m.top.children, after.top.children, m.fresh),
        right_children(olds, news, m.top.children, after.top.children, m.fresh),
        neat(olds, news) ==> all_proper(m, children_steps(olds, news, t)),
    decreases size_all(olds), 8nat, 0int,
{
    reveal(nearly_by_key);
    let kids = m.top.children;
    if news.len() == 0 {
        lemma_proper_empty(m);
        if olds.len() == 0 {
            m
        } else {
            reveal_strlit("");
            let after = m.set_text(Seq::empty())->0;
            assert(""@ =~= Seq::<char>::empty());
            reveal(distinct);
            assert(m.follow(children_steps(olds, news, t)) == Some(after));
            lemma_proper_plain(m, children_steps(olds, news, t));
            after
        }
    } else if takes_text(olds, news) {
        let text = news[0]->Text_0.text;
        let after = m.set_text(text@)->0;
        assert(m.follow(children_steps(olds, news, t)) == Some(after));
        lemma_proper_plain(m, children_steps(olds, news, t));
        reveal(distinct);
        if text@.len() > 0 {
            let child = after.top.children[0];
            assert(reflects(child, news[0]));
            assert(identified(child, after.fresh));
        }
        after
    } else if olds.len() == 0 {
        let (after, added) = lemma_append_outside(m, m.frames, m.top, kids, news);
        assert(kids + added =~= added);
        if neat(olds, news) {
            lemma_proper_plain(m, seq![Step::<'a>::Commit]);
            lemma_proper_joined(m, seq![Step::Commit], append_steps(news));
        }
        after
    } else if olds[0].key() is Some && news[0].key() is Some {
        assert(can_diff_keyed(olds, news)) by {
            reveal(can_diff_keyed);
        }
        lemma_can_turn(olds, news);
        lemma_slots_children(olds, news);
        let after = lemma_keyed(m, olds, news, t);
        if neat(olds, news) {
            lemma_proper_plain(after, seq![Step::<'a>::Temp(t)]);
            lemma_proper_joined(m, keyed_steps(olds, news, t), seq![Step::Temp(t)]);
        }
        assert(shows_children(olds, news) ==> shows_by_key(olds, news)) by {
            reveal(shows_by_key);
        }
        after
    } else {
        lemma_slots_children(olds, news);
        let after = lemma_in_order(m, olds, news, t);
        assert(shows_children(olds, news) ==> shows_in_order(olds, news)) by {
            reveal(shows_in_order);
        }
        after
    }
}

/// Children that can be diffed by key can be turned by key.
pub proof fn lemma_can_turn(olds: Seq<VNode>, news: Seq<VNode>)
    requires
        can_diff_keyed(olds, news),
    ensures
        can_turn_by_key(olds, news),
        middle_fits(olds, news),
{
    reveal(can_diff_keyed);
    reveal(can_turn_by_key);
}

/// Diffing nodes one after the other turns the physical nodes.
#[verifier::rlimit(60)]
pub proof fn lemma_walk<'a>(
    m: Machine,
    base: Seq<Frame>,
    parent: PNode,
    kids: Seq<PNode>,
    h: int,
    olds: Seq<VNode<'a>>,
    news: Seq<VNode<'a>>,
    from: int,
    n: int,
    t: nat,
) -> (r: (Machine, Seq<PNode>, int))
    requires
        inside(m, base, parent, kids, h),
        identified_all(kids, m.fresh),
        0 <= from,
        0 <= n <= olds.len(),
        n <= news.len(),
        from + n <= kids.len(),
        from + n <= usize::MAX,
        forall|i: int|
            0 <= i < n ==> nearly_reflects(kids[from + i], #[trigger] olds[i], news[i]) && can_diff(
                olds[i],
                news[i],
            ),
        t + slots_walk(olds, news, n) <= u32::MAX,
    ensures
        m.follow(walk_steps(olds, news, from, n, t)) == Some(r.0),
        inside(r.0, base, parent, r.1, r.2),
        m.fresh <= r.0.fresh,
        same_below(m.temps, r.0.temps, t),
        r.1.len() == kids.len(),
        identified_all(r.1, r.0.fresh),
        forall|i: int|
            0 <= i < n ==> renewed(
                kids[from + i],
                r.1[from + i],
                olds[i],
                #[trigger] news[i],
                m.fresh,
            ),
        forall|x: int|
            0 <= x < kids.len() && !(from <= x < from + n) ==> #[trigger] r.1[x] == kids[x],
        neat(olds, news) ==> all_proper(m, walk_steps(olds, news, from, n, t)),
    decreases size_all(olds), 1nat, n,
{
    if n == 0 {
        lemma_proper_empty(m);
        (m, kids, h)
    } else {
        lemma_slots_walk(olds, news, n, n - 1);
        let (m1, kids1, h1) = lemma_walk(
            m,
            base,
            parent,
            kids,
            h,
            olds,
            news,
            from,
            n - 1,
            t,
        );
        let at = from + n - 1;
        lemma_sibling(m1, base, parent, kids1, h1, at);
        let m2 = m1.go(Move::ToSibling(at as usize))->0;
        lemma_size_index(olds, n - 1);
        assert(kids1[at] == kids[at]);
        assert(kids[from + (n - 1)] == kids[at]);
        assert(can_diff(olds[n - 1], news[n - 1]));
        assert(identified(kids1[at], m1.fresh));
        let m3 = lemma_node(m2, olds[n - 1], news[n - 1], t);
        lemma_renewed(m2.top, m3.top, olds[n - 1], news[n - 1], m2.fresh, m.fresh);
        lemma_change(m2, m3, base, parent, kids1, at);
        let kids2 = kids1.update(at, m3.top);
        lemma_identified_update(kids1, at, m3.top, m2.fresh, m3.fresh);
        assert(m.follow(walk_steps(olds, news, from, n, t)) == Some(m3));
        if neat(olds, news) {
            let walked = walk_steps(olds, news, from, n - 1, t);
            lemma_proper_push(m, walked, go(Move::ToSibling(at as usize)));
            lemma_proper_joined(
                m,
                walked.push(go(Move::ToSibling(at as usize))),
                node_steps(olds[n - 1], news[n - 1], t),
            );
        }
        assert forall|i: int| 0 <= i < n implies renewed(
            kids[from + i],
            kids2[from + i],
            olds[i],
            #[trigger] news[i],
            m.fresh,
        ) by {
            if i < n - 1 {
                assert(kids2[from + i] == kids1[from + i]);
            }
        }
        (m3, kids2, at)
    }
}

/// Diffing children without keys turns the children of the physical node.
#[verifier::rlimit(60)]
pub proof fn lemma_in_order<'a>(
    m: Machine,
    olds: Seq<VNode<'a>>,
    news: Seq<VNode<'a>>,
    t: nat,
) -> (after: Machine)
    requires
        m.loose.len() == 0,
        0 < olds.len() <= usize::MAX,
        news.len() > 0,
        nearly_in_order(m.top.children, olds, news),
        identified_all(m.top.children, m.fresh),
        can_diff_in_order(olds, news),
        t + slots_walk(olds, news, shorter(olds, news)) <= u32::MAX,
    ensures
        m.follow(in_order_steps(olds, news, t)) == Some(after),
        refilled(m, after, t),
        after.top.children.len() == news.len(),
        shows_in_order(olds, news) ==> reflects_all(after.top.children, news),
        reuses_in_order(olds, news, m.top.children, after.top.children, m.fresh),
        neat(olds, news) ==> all_proper(m, in_order_steps(olds, news, t)),
    decreases size_all(olds), 2nat, 0int,
{
    reveal(renewed);
    let base = m.frames;
    let parent = m.top;
    let kids = m.top.children;
    let n = shorter(olds, news);
    reveal(shows_in_order);
    lemma_descend(m, base, parent, kids, 0);
    let m1 = m.descend(0)->0;
    let (m2, kids2, h2) = lemma_walk(m1, base, parent, kids, 0, olds, news, 0, n, t);
    let walked = seq![go(Move::Down)] + walk_steps(olds, news, 0, n, t);
    if neat(olds, news) {
        lemma_proper_plain(m, seq![go::<'a>(Move::Down)]);
        lemma_proper_joined(m, seq![go(Move::Down)], walk_steps(olds, news, 0, n, t));
    }
    let shown = shows_in_order(olds, news);
    assert forall|i: int| 0 <= i < n && shown implies reflects(kids2[i], #[trigger] news[i]) by {
        assert(kids2[0 + i] == kids2[i]);
        assert(shows(olds[i], news[i]));
    }
    assert forall|i: int| 0 <= i < n implies right_node(
        kids[i],
        kids2[i],
        olds[i],
        #[trigger] news[i],
        m.fresh,
    ) && right_tree(kids[i], kids2[i], olds[i], news[i], m.fresh) by {
        assert(kids2[0 + i] == kids2[i]);
        assert(kids[0 + i] == kids[i]);
    }
    if olds.len() > news.len() {
        lemma_sibling(m2, base, parent, kids2, h2, n);
        let m3 = m2.go(Move::ToSibling(n as usize))->0;
        lemma_cut(m3, base, parent, kids2, n);
        let after = m3.remove_self_and_next_siblings()->0;
        lemma_identified_take(kids2, n, m2.fresh);
        assert(m.follow(in_order_steps(olds, news, t)) == Some(after));
        if neat(olds, news) {
            let tail = seq![go::<'a>(Move::ToSibling(news.len() as usize))].push(Step::Commit)
                + cut_steps();
            lemma_proper_plain(m2, tail);
            lemma_proper_joined(m, walked, tail);
        }
        assert forall|i: int| 0 <= i < news.len() && shown implies reflects(
            after.top.children[i],
            #[trigger] news[i],
        ) by {
            assert(after.top.children[i] == kids2[i]);
        }
        after
    } else if olds.len() < news.len() {
        lemma_ascend(m2, base, parent, kids2, h2);
        let m3 = m2.ascend()->0;
        let rest = news.skip(olds.len() as int);
        assert forall|i: int| 0 <= i < rest.len() implies renderable(#[trigger] rest[i]) by {
            assert(rest[i] == news[i + olds.len()]);
        }
        let (after, added) = lemma_append_outside(m3, base, parent, kids2, rest);
        assert(m.follow(in_order_steps(olds, news, t)) == Some(after));
        if neat(olds, news) {
            lemma_tidy_part(news, olds.len() as int, news.len() as int);
            assert(rest =~= news.subrange(olds.len() as int, news.len() as int));
            let tail = seq![go::<'a>(Move::Up)].push(Step::Commit);
            lemma_proper_plain(m2, tail);
            lemma_proper_joined(m2, tail, append_steps(rest));
            lemma_proper_joined(m, walked, tail + append_steps(rest));
        }
        let all = kids2 + added;
        assert forall|i: int| 0 <= i < news.len() && shown implies reflects(
            all[i],
            #[trigger] news[i],
        ) by {
            if i < olds.len() {
                assert(all[i] == kids2[i]);
            } else {
                assert(all[i] == added[i - olds.len()]);
                assert(rest[i - olds.len()] == news[i]);
            }
        }
        after
    } else {
        lemma_ascend(m2, base, parent, kids2, h2);
        let after = m2.ascend()->0;
        assert(m.follow(in_order_steps(olds, news, t)) == Some(after));
        if neat(olds, news) {
            lemma_proper_plain(m2, seq![go::<'a>(Move::Up)]);
            lemma_proper_joined(m, walked, seq![go(Move::Up)]);
        }
        after
    }
}

/// Some of a list of tidy trees are tidy.
proof fn lemma_tidy_part<'a>(ns: Seq<VNode<'a>>, i: int, j: int)
    requires
        tidy_all(ns),
        0 <= i <= j <= ns.len(),
    ensures
        tidy_all(ns.subrange(i, j)),
{
    let part = ns.subrange(i, j);
    assert forall|x: int| 0 <= x < part.len() implies tidy(#[trigger] part[x]) by {
        assert(part[x] == ns[i + x]);
    }
}

/// A new node for which there is no old one can be created.
proof fn lemma_no_source<'a>(sc: Scene, plan: Plan<'a>, j: int)
    requires
        feasible(plan, sc.t),
        0 <= j < plan.news.len(),
        !has_source(plan.olds, plan.news, j),
    ensures
        forall|i: int| !#[trigger] plan.pair(i, j),
        renderable(plan.news[j]),
{
    reveal(feasible);
    plan.lemma_pairs();
    assert(sources(plan.olds, plan.news)[j] >= plan.olds.len());
}

/// The physical node of an old node, which is on top of the path, is diffed.
proof fn lemma_diff_one<'a>(
    sc: Scene,
    plan: Plan<'a>,
    m: Machine,
    nodes: Seq<PNode>,
    q: int,
    i: int,
    j: int,
) -> (after: Machine)
    requires
        feasible(plan, sc.t),
        0 <= q < nodes.len(),
        inside(m, sc.base, sc.parent, sc.kids(nodes), sc.pre.len() + q),
        identified_all(sc.kids(nodes), m.fresh),
        plan.start <= m.fresh,
        saved_from(m.temps, reused(plan.olds, plan.news), sc.t, plan.mid, 0),
        plan.pair(i, j),
        m.top == plan.mid[i],
        temps_end(plan.olds, plan.news, sc.t) + slots(plan.olds[i], plan.news[j]) <= u32::MAX,
        size(plan.olds[i]) <= size_all(plan.olds),
    ensures
        m.follow(
            node_steps(plan.olds[i], plan.news[j], temps_end(plan.olds, plan.news, sc.t)),
        ) == Some(after),
        inside(
            after,
            sc.base,
            sc.parent,
            sc.kids(nodes.update(q, after.top)),
            sc.pre.len() + q,
        ),
        identified_all(sc.kids(nodes.update(q, after.top)), after.fresh),
        m.fresh <= after.fresh,
        saved_from(after.temps, reused(plan.olds, plan.news), sc.t, plan.mid, 0),
        same_below(m.temps, after.temps, temps_end(plan.olds, plan.news, sc.t)),
        plan.good(j, after.top),
        keeps_node(plan.olds[i], plan.news[j]) ==> after.top.id == plan.mid[i].id,
        neat(plan.olds, plan.news) ==> all_proper(
            m,
            node_steps(plan.olds[i], plan.news[j], temps_end(plan.olds, plan.news, sc.t)),
        ),
    decreases size_all(plan.olds), 1nat, 0int,
{
    reveal(renewed);
    reveal(feasible);
    let kids = sc.kids(nodes);
    let pq = sc.pre.len() + q;
    let t2 = temps_end(plan.olds, plan.news, sc.t);
    lemma_ascend(m, sc.base, sc.parent, kids, pq);
    assert(identified(kids[pq], m.fresh));
    assert(nearly_reflects(plan.mid[i], plan.olds[i], plan.news[j]));
    let after = lemma_node(m, plan.olds[i], plan.news[j], t2);
    lemma_change(m, after, sc.base, sc.parent, kids, pq);
    lemma_identified_update(kids, pq, after.top, m.fresh, after.fresh);
    lemma_kids_update(sc, nodes, q, after.top);
    lemma_good_turned(plan, i, j, after.top, m.fresh);
    lemma_still_saved(m.temps, after.temps, reused(plan.olds, plan.news), sc.t, plan.mid);
    after
}

/// A node that is of the increasing subsequence is diffed where it stands.
#[verifier::rlimit(60)]
proof fn lemma_place_staying<'a>(
    sc: Scene,
    plan: Plan<'a>,
    m: Machine,
    k: int,
    nodes: Seq<PNode>,
    tags: Seq<Option<int>>,
    c: int,
) -> (r: (Machine, Seq<PNode>, Seq<Option<int>>, int))
    requires
        feasible(plan, sc.t),
        staged(sc, plan, m, k, nodes, tags, c),
        k > 0,
        has_source(plan.olds, plan.news, k - 1),
        plan.lis.contains((k - 1) as usize),
    ensures
        m.follow(place_one_steps(plan.olds, plan.news, plan.lis, k - 1, sc.t)) == Some(r.0),
        staged(sc, plan, r.0, k - 1, r.1, r.2, r.3),
        m.fresh <= r.0.fresh,
        same_below(m.temps, r.0.temps, temps_end(plan.olds, plan.news, sc.t)),
        neat(plan.olds, plan.news) ==> all_proper(
            m,
            place_one_steps(plan.olds, plan.news, plan.lis, k - 1, sc.t),
        ),
    decreases size_all(plan.olds), 2nat, 0int,
{
    reveal(feasible);
    let j = k - 1;
    let kids = sc.kids(nodes);
    let (i, q) = lemma_source_facts(sc, plan, m, k, nodes, tags, c);
    let temp = source_temp(plan.olds, plan.news, j, sc.t);
    let pq = sc.pre.len() + q;
    lemma_ascend(m, sc.base, sc.parent, kids, sc.pre.len() + c);
    let m1 = m.ascend()->0;
    lemma_descend_to_temp(m1, sc.base, sc.parent, kids, pq, temp);
    let m2 = m1.descend_to_temp(temp)->0;
    let m3 = lemma_diff_one(sc, plan, m2, nodes, q, i, j);
    if neat(plan.olds, plan.news) {
        let head = seq![go::<'a>(Move::ToTempSibling(temp))];
        let t2 = temps_end(plan.olds, plan.news, sc.t);
        assert(m.follow(head) == Some(m2));
        lemma_proper_plain(m, head);
        lemma_proper_joined(m, head, node_steps(plan.olds[i], plan.news[j], t2));
    }
    plan.lemma_stay(k, nodes, tags, c, i, q, m3.top);
    (m3, nodes.update(q, m3.top), tags.update(q, None), q)
}

/// A saved node goes before the node on top of the path.
proof fn lemma_move_before<'a>(
    sc: Scene,
    m: Machine,
    nodes: Seq<PNode>,
    c: int,
    q: int,
    temp: u32,
) -> (after: Machine)
    requires
        inside(m, sc.base, sc.parent, sc.kids(nodes), sc.pre.len() + c),
        identified_all(sc.kids(nodes), m.fresh),
        0 <= c <= nodes.len(),
        0 <= q < nodes.len(),
        q != c,
        m.temps.contains_key(temp as nat),
        m.temps[temp as nat] == nodes[q].id,
    ensures
        m.follow(
            seq![Step::<'a>::Commit].push(Step::Do(Edit::PushTemporary(temp))).push(
                Step::Do(Edit::InsertBefore),
            ),
        ) == Some(after),
        ({
            let at = if q < c {
                c - 1
            } else {
                c
            };
            let nodes2 = nodes.remove(q).insert(at, nodes[q]);
            &&& inside(after, sc.base, sc.parent, sc.kids(nodes2), sc.pre.len() + at)
            &&& identified_all(sc.kids(nodes2), m.fresh)
        }),
        after.top == nodes[q],
        after.temps == m.temps,
        after.fresh == m.fresh,
{
    let kids = sc.kids(nodes);
    let at = if q < c {
        c - 1
    } else {
        c
    };
    let x = nodes[q];
    let pq = sc.pre.len() + q;
    let pat = sc.pre.len() + at;
    assert(kids[pq] == x);
    lemma_index_of_id(kids, pq);
    let m1 = Machine { loose: m.loose.push(Loose::Moving(x.id)), ..m };
    assert(m1.loose =~= seq![Loose::Moving(x.id)]);
    assert(m1.parent().children == kids);
    let m2 = m1.insert_before()->0;
    lemma_kids_remove(sc, nodes, q);
    lemma_kids_insert(sc, nodes.remove(q), at, x);
    let kids2 = kids.remove(pq).insert(pat, x);
    assert(m2.frames.drop_last() =~= sc.base);
    assert(kids2.update(pat, x) =~= kids2);
    lemma_identified_move(kids, pq, pat, m.fresh);
    m2
}

/// A node that is not of the increasing subsequence is moved and diffed.
#[verifier::rlimit(60)]
proof fn lemma_place_moving<'a>(
    sc: Scene,
    plan: Plan<'a>,
    m: Machine,
    k: int,
    nodes: Seq<PNode>,
    tags: Seq<Option<int>>,
    c: int,
) -> (r: (Machine, Seq<PNode>, Seq<Option<int>>, int))
    requires
        feasible(plan, sc.t),
        staged(sc, plan, m, k, nodes, tags, c),
        k > 0,
        has_source(plan.olds, plan.news, k - 1),
        !plan.lis.contains((k - 1) as usize),
    ensures
        m.follow(place_one_steps(plan.olds, plan.news, plan.lis, k - 1, sc.t)) == Some(r.0),
        staged(sc, plan, r.0, k - 1, r.1, r.2, r.3),
        m.fresh <= r.0.fresh,
        same_below(m.temps, r.0.temps, temps_end(plan.olds, plan.news, sc.t)),
        neat(plan.olds, plan.news) ==> all_proper(
            m,
            place_one_steps(plan.olds, plan.news, plan.lis, k - 1, sc.t),
        ),
    decreases size_all(plan.olds), 2nat, 0int,
{
    reveal(feasible);
    let j = k - 1;
    let (i, q) = lemma_source_facts(sc, plan, m, k, nodes, tags, c);
    let temp = source_temp(plan.olds, plan.news, j, sc.t);
    let at = if q < c {
        c - 1
    } else {
        c
    };
    plan.lemma_bounds(k, nodes, tags, c);
    let m2 = lemma_move_before(sc, m, nodes, c, q, temp);
    let nodes2 = nodes.remove(q).insert(at, nodes[q]);
    let m3 = lemma_diff_one(sc, plan, m2, nodes2, at, i, j);
    if neat(plan.olds, plan.news) {
        let head = seq![Step::<'a>::Commit].push(Step::Do(Edit::PushTemporary(temp))).push(
            Step::Do(Edit::InsertBefore),
        );
        let t2 = temps_end(plan.olds, plan.news, sc.t);
        lemma_proper_plain(m, head);
        lemma_proper_joined(m, head, node_steps(plan.olds[i], plan.news[j], t2));
    }
    let nodes3 = nodes.remove(q).insert(at, m3.top);
    assert(nodes2.update(at, m3.top) =~= nodes3);
    plan.lemma_move(k, nodes, tags, c, i, q, m3.top);
    (m3, nodes3, tags.remove(q).insert(at, None), at)
}

/// A new node is created before the node on top of the path.
#[verifier::rlimit(60)]
proof fn lemma_place_new<'a>(
    sc: Scene,
    plan: Plan<'a>,
    m: Machine,
    k: int,
    nodes: Seq<PNode>,
    tags: Seq<Option<int>>,
    c: int,
) -> (r: (Machine, Seq<PNode>, Seq<Option<int>>, int))
    requires
        feasible(plan, sc.t),
        staged(sc, plan, m, k, nodes, tags, c),
        k > 0,
        !has_source(plan.olds, plan.news, k - 1),
    ensures
        m.follow(place_one_steps(plan.olds, plan.news, plan.lis, k - 1, sc.t)) == Some(r.0),
        staged(sc, plan, r.0, k - 1, r.1, r.2, r.3),
        m.fresh <= r.0.fresh,
        r.0.temps == m.temps,
        neat(plan.olds, plan.news) ==> all_proper(
            m,
            place_one_steps(plan.olds, plan.news, plan.lis, k - 1, sc.t),
        ),
{
    reveal(feasible);
    let j = k - 1;
    let kids = sc.kids(nodes);
    let hole = sc.pre.len() + c;
    plan.lemma_bounds(k, nodes, tags, c);
    lemma_no_source(sc, plan, j);
    lemma_create(m, plan.news[j]);
    let m1 = m.follow(create_steps(plan.news[j]))->0;
    let x = m1.focus();
    assert(m1.loose[0] == m1.loose.last());
    assert(m1.parent().children == kids);
    let m2 = m1.insert_before()->0;
    if neat(plan.olds, plan.news) {
        let made = create_steps(plan.news[j]);
        let tail = seq![Step::<'a>::Do(Edit::InsertBefore)];
        law_create_fits(m, plan.news[j]);
        lemma_proper_plain(m, seq![Step::<'a>::Commit]);
        lemma_proper_joined(m, seq![Step::Commit], made);
        assert(m1.follow(tail) == Some(m2));
        lemma_proper_plain(m1, tail);
        lemma_proper_joined(m, seq![Step::Commit] + made, tail);
    }
    lemma_kids_insert(sc, nodes, c, x);
    let kids2 = kids.insert(hole, x);
    assert(m2.frames.drop_last() =~= sc.base);
    assert(kids2.update(hole, x) =~= kids2);
    lemma_identified_insert(kids, hole, x, m.fresh, m1.fresh);
    lemma_good_created(plan, j, x);
    plan.lemma_insert(k, nodes, tags, c, x);
    (m2, nodes.insert(c, x), tags.insert(c, None), c)
}

/// One new node is put into its place.
pub proof fn lemma_place_one<'a>(
    sc: Scene,
    plan: Plan<'a>,
    m: Machine,
    k: int,
    nodes: Seq<PNode>,
    tags: Seq<Option<int>>,
    c: int,
) -> (r: (Machine, Seq<PNode>, Seq<Option<int>>, int))
    requires
        feasible(plan, sc.t),
        staged(sc, plan, m, k, nodes, tags, c),
        k > 0,
    ensures
        m.follow(place_one_steps(plan.olds, plan.news, plan.lis, k - 1, sc.t)) == Some(r.0),
        staged(sc, plan, r.0, k - 1, r.1, r.2, r.3),
        m.fresh <= r.0.fresh,
        same_below(m.temps, r.0.temps, temps_end(plan.olds, plan.news, sc.t)),
        neat(plan.olds, plan.news) ==> all_proper(
            m,
            place_one_steps(plan.olds, plan.news, plan.lis, k - 1, sc.t),
        ),
    decreases size_all(plan.olds), 3nat, 0int,
{
    if !has_source(plan.olds, plan.news, k - 1) {
        lemma_place_new(sc, plan, m, k, nodes, tags, c)
    } else if plan.lis.contains((k - 1) as usize) {
        lemma_place_staying(sc, plan, m, k, nodes, tags, c)
    } else {
        lemma_place_moving(sc, plan, m, k, nodes, tags, c)
    }
}

/// The new nodes before `k` are put into their places.
pub proof fn lemma_place<'a>(
    sc: Scene,
    plan: Plan<'a>,
    m: Machine,
    k: int,
    nodes: Seq<PNode>,
    tags: Seq<Option<int>>,
    c: int,
) -> (r: (Machine, Seq<PNode>, Seq<Option<int>>, int))
    requires
        feasible(plan, sc.t),
        staged(sc, plan, m, k, nodes, tags, c),
    ensures
        m.follow(place_steps(plan.olds, plan.news, plan.lis, k, sc.t)) == Some(r.0),
        staged(sc, plan, r.0, 0, r.1, r.2, r.3),
        m.fresh <= r.0.fresh,
        same_below(m.temps, r.0.temps, temps_end(plan.olds, plan.news, sc.t)),
        neat(plan.olds, plan.news) ==> all_proper(
            m,
            place_steps(plan.olds, plan.news, plan.lis, k, sc.t),
        ),
    decreases size_all(plan.olds), 4nat, k,
{
    plan.lemma_bounds(k, nodes, tags, c);
    lemma_proper_empty(m);
    if k <= 0 {
        (m, nodes, tags, c)
    } else {
        let (m1, nodes1, tags1, c1) = lemma_place_one(sc, plan, m, k, nodes, tags, c);
        let r = lemma_place(sc, plan, m1, k - 1, nodes1, tags1, c1);
        if neat(plan.olds, plan.news) {
            lemma_proper_joined(
                m,
                place_one_steps(plan.olds, plan.news, plan.lis, k - 1, sc.t),
                place_steps(plan.olds, plan.news, plan.lis, k - 1, sc.t),
            );
        }
        r
    }
}

/// The last new node is created after the others.
#[verifier::rlimit(60)]
proof fn lemma_anchor_new<'a>(
    sc: Scene,
    plan: Plan<'a>,
    m: Machine,
    nodes: Seq<PNode>,
    tags: Seq<Option<int>>,
) -> (r: (Machine, Seq<PNode>, Seq<Option<int>>, int))
    requires
        feasible(plan, sc.t),
        plan.news.len() > 0,
        sc.suf.len() == 0,
        !has_source(plan.olds, plan.news, plan.news.len() - 1),
        outside(m, sc.base, sc.parent, sc.kids(nodes)),
        laid_out(sc, plan, m, plan.news.len() as int, nodes, tags, nodes.len() as int),
    ensures
        m.follow(
            anchor_steps(
                plan.olds,
                plan.news,
                plan.lis,
                false,
                (sc.pre.len() + nodes.len()) as int,
                sc.t,
            ),
        ) == Some(r.0),
        staged(sc, plan, r.0, plan.news.len() - 1, r.1, r.2, r.3),
        m.fresh <= r.0.fresh,
        r.0.temps == m.temps,
        neat(plan.olds, plan.news) ==> all_proper(
            m,
            anchor_steps(
                plan.olds,
                plan.news,
                plan.lis,
                false,
                (sc.pre.len() + nodes.len()) as int,
                sc.t,
            ),
        ),
{
    reveal(feasible);
    let k = plan.news.len() as int;
    let j = k - 1;
    let kids = sc.kids(nodes);
    let c = nodes.len() as int;
    let hole = sc.pre.len() + c;
    lemma_no_source(sc, plan, j);
    lemma_create(m, plan.news[j]);
    let m1 = m.follow(create_steps(plan.news[j]))->0;
    let x = m1.focus();
    let m2 = m1.append_child()->0;
    let nodes1 = nodes.insert(c, x);
    lemma_kids_insert(sc, nodes, c, x);
    let kids1 = sc.kids(nodes1);
    assert(kids.push(x) =~= kids1);
    assert(m1.loose.drop_last() =~= m.loose);
    assert(outside(m2, sc.base, sc.parent, kids1));
    lemma_identified_insert(kids, hole, x, m.fresh, m1.fresh);
    lemma_good_created(plan, j, x);
    plan.lemma_insert(k, nodes, tags, c, x);
    lemma_descend(m2, sc.base, sc.parent, kids1, hole);
    if neat(plan.olds, plan.news) {
        let made = create_steps(plan.news[j]);
        let tail = seq![Step::<'a>::Do(Edit::AppendChild)].push(go(Move::DownToReverseChild(0)));
        law_create_fits(m, plan.news[j]);
        lemma_proper_plain(m, seq![Step::<'a>::Commit]);
        lemma_proper_joined(m, seq![Step::Commit], made);
        assert(m1.follow(tail) == Some(m2.descend(hole)->0));
        lemma_proper_plain(m1, tail);
        lemma_proper_joined(m, seq![Step::Commit] + made, tail);
    }
    (m2.descend(hole)->0, nodes1, tags.insert(c, None), c)
}

/// The node on top of the path goes after its siblings.
proof fn lemma_move_last(sc: Scene, m: Machine, nodes: Seq<PNode>, q: int)
    requires
        sc.suf.len() == 0,
        inside(m, sc.base, sc.parent, sc.kids(nodes), sc.pre.len() + q),
        identified_all(sc.kids(nodes), m.fresh),
        0 <= q < nodes.len(),
    ensures
        m.append_child() matches Some(x) && x.temps == m.temps && x.fresh == m.fresh && outside(
            x,
            sc.base,
            sc.parent,
            sc.kids(nodes.remove(q).push(m.top)),
        ),
        identified_all(sc.kids(nodes.remove(q).push(m.top)), m.fresh),
{
    let kids = sc.kids(nodes);
    let pq = sc.pre.len() + q;
    let nodes2 = nodes.remove(q).push(m.top);
    let kids2 = sc.kids(nodes2);
    let last = kids.len() - 1;
    lemma_ascend(m, sc.base, sc.parent, kids, pq);
    lemma_identified_move(kids, pq, last, m.fresh);
    assert(kids.remove(pq).insert(last, kids[pq]) =~= kids2);
    let x = m.append_child()->0;
    assert(x.top.children =~= kids2);
}

/// To append a node and go to it fits.
proof fn lemma_appended_fits<'a>(
    m: Machine,
    m2: Machine,
    m3: Machine,
    head: Seq<Step<'a>>,
    back: Move,
)
    requires
        m.follow(head) == Some(m2),
        all_proper(m, head),
        m2.append_child() == Some(m3),
        m3.go(back) is Some,
    ensures
        all_proper(
            m,
            head + seq![Step::<'a>::Commit].push(Step::Do(Edit::AppendChild)).push(go(back)),
        ),
{
    let tail = seq![Step::<'a>::Commit].push(Step::Do(Edit::AppendChild)).push(go(back));
    assert(m2.follow(tail) == m3.go(back));
    lemma_proper_plain(m2, tail);
    lemma_proper_joined(m, head, tail);
}

/// The last new node is diffed and, unless it stays in place, put after the
/// others.
#[verifier::rlimit(60)]
proof fn lemma_anchor_old<'a>(
    sc: Scene,
    plan: Plan<'a>,
    m: Machine,
    nodes: Seq<PNode>,
    tags: Seq<Option<int>>,
) -> (r: (Machine, Seq<PNode>, Seq<Option<int>>, int))
    requires
        feasible(plan, sc.t),
        plan.news.len() > 0,
        sc.suf.len() == 0,
        has_source(plan.olds, plan.news, plan.news.len() - 1),
        outside(m, sc.base, sc.parent, sc.kids(nodes)),
        laid_out(sc, plan, m, plan.news.len() as int, nodes, tags, nodes.len() as int),
    ensures
        m.follow(
            anchor_steps(
                plan.olds,
                plan.news,
                plan.lis,
                false,
                (sc.pre.len() + nodes.len()) as int,
                sc.t,
            ),
        ) == Some(r.0),
        staged(sc, plan, r.0, plan.news.len() - 1, r.1, r.2, r.3),
        m.fresh <= r.0.fresh,
        same_below(m.temps, r.0.temps, temps_end(plan.olds, plan.news, sc.t)),
        neat(plan.olds, plan.news) ==> all_proper(
            m,
            anchor_steps(
                plan.olds,
                plan.news,
                plan.lis,
                false,
                (sc.pre.len() + nodes.len()) as int,
                sc.t,
            ),
        ),
    decreases size_all(plan.olds), 2nat, 0int,
{
    reveal(feasible);
    let k = plan.news.len() as int;
    let j = k - 1;
    let kids = sc.kids(nodes);
    let c = nodes.len() as int;
    let (i, q) = lemma_source_facts(sc, plan, m, k, nodes, tags, c);
    let temp = source_temp(plan.olds, plan.news, j, sc.t);
    let pq = sc.pre.len() + q;
    lemma_descend_to_temp(m, sc.base, sc.parent, kids, pq, temp);
    let m1 = m.descend_to_temp(temp)->0;
    let m2 = lemma_diff_one(sc, plan, m1, nodes, q, i, j);
    let x = m2.top;
    let t2 = temps_end(plan.olds, plan.news, sc.t);
    let head = seq![go(Move::DownToTempChild(temp))] + node_steps(plan.olds[i], plan.news[j], t2);
    if neat(plan.olds, plan.news) {
        lemma_proper_plain(m, seq![go::<'a>(Move::DownToTempChild(temp))]);
        lemma_proper_joined(
            m,
            seq![go(Move::DownToTempChild(temp))],
            node_steps(plan.olds[i], plan.news[j], t2),
        );
    }
    if plan.lis.contains(j as usize) {
        assert(head + Seq::<Step<'a>>::empty() =~= head);
        plan.lemma_stay(k, nodes, tags, c, i, q, x);
        (m2, nodes.update(q, x), tags.update(q, None), q)
    } else {
        plan.lemma_move(k, nodes, tags, c, i, q, x);
        let at = c - 1;
        let nodes2 = nodes.remove(q).insert(at, x);
        let kids2 = sc.kids(nodes2);
        assert(nodes2 =~= nodes.update(q, x).remove(q).push(x));
        lemma_move_last(sc, m2, nodes.update(q, x), q);
        let m3 = m2.append_child()->0;
        let last = sc.pre.len() + at;
        assert(kids2[last] == x);
        assert(kids2.len() == last + 1);
        let tags2 = tags.remove(q).insert(at, None);
        if keeps_node(plan.olds[i], plan.news[j]) {
            lemma_source_saved(sc, plan, m2, i, j);
            lemma_descend_to_temp(m3, sc.base, sc.parent, kids2, last, temp);
            if neat(plan.olds, plan.news) {
                lemma_appended_fits(m, m2, m3, head, Move::DownToTempChild(temp));
            }
            (m3.descend_to_temp(temp)->0, nodes2, tags2, at)
        } else {
            lemma_descend(m3, sc.base, sc.parent, kids2, last);
            if neat(plan.olds, plan.news) {
                lemma_appended_fits(m, m2, m3, head, Move::DownToReverseChild(0));
            }
            (m3.descend(last)->0, nodes2, tags2, at)
        }
    }
}

/// The temporary of a new node holds the physical node of the old one.
proof fn lemma_source_saved<'a>(sc: Scene, plan: Plan<'a>, m: Machine, i: int, j: int)
    requires
        feasible(plan, sc.t),
        plan.pair(i, j),
        saved_from(m.temps, reused(plan.olds, plan.news), sc.t, plan.mid, 0),
    ensures
        m.temps.contains_key(source_temp(plan.olds, plan.news, j, sc.t) as nat),
        m.temps[source_temp(plan.olds, plan.news, j, sc.t) as nat] == plan.mid[i].id,
{
    reveal(feasible);
    reveal(saved_from);
    plan.lemma_pairs();
    let flags = reused(plan.olds, plan.news);
    assert(plan.news[j].key() == plan.olds[i].key());
    assert(flags[i]);
    lemma_count_below(flags, i);
    assert(plan.mid[i].id == m.temps[temp_of(flags, sc.t, i)]);
}

/// A node to insert the others before is put on the stack.
pub proof fn lemma_anchor<'a>(
    sc: Scene,
    plan: Plan<'a>,
    m: Machine,
    nodes: Seq<PNode>,
    tags: Seq<Option<int>>,
) -> (r: (Machine, Seq<PNode>, Seq<Option<int>>, int))
    requires
        feasible(plan, sc.t),
        plan.news.len() > 0,
        outside(m, sc.base, sc.parent, sc.kids(nodes)),
        laid_out(sc, plan, m, plan.news.len() as int, nodes, tags, nodes.len() as int),
        sc.pre.len() + nodes.len() <= usize::MAX,
    ensures
        m.follow(
            anchor_steps(
                plan.olds,
                plan.news,
                plan.lis,
                sc.suf.len() > 0,
                (sc.pre.len() + nodes.len()) as int,
                sc.t,
            ),
        ) == Some(r.0),
        staged(
            sc,
            plan,
            r.0,
            if sc.suf.len() > 0 {
                plan.news.len() as int
            } else {
                plan.news.len() - 1
            },
            r.1,
            r.2,
            r.3,
        ),
        m.fresh <= r.0.fresh,
        same_below(m.temps, r.0.temps, temps_end(plan.olds, plan.news, sc.t)),
        neat(plan.olds, plan.news) ==> all_proper(
            m,
            anchor_steps(
                plan.olds,
                plan.news,
                plan.lis,
                sc.suf.len() > 0,
                (sc.pre.len() + nodes.len()) as int,
                sc.t,
            ),
        ),
    decreases size_all(plan.olds), 3nat, 0int,
{
    if sc.suf.len() > 0 {
        let at = (sc.pre.len() + nodes.len()) as int;
        lemma_descend(m, sc.base, sc.parent, sc.kids(nodes), at);
        lemma_proper_plain(m, seq![go::<'a>(Move::DownToChild(at as usize))]);
        (m.descend(at)->0, nodes, tags, nodes.len() as int)
    } else if has_source(plan.olds, plan.news, plan.news.len() - 1) {
        lemma_anchor_old(sc, plan, m, nodes, tags)
    } else {
        lemma_anchor_new(sc, plan, m, nodes, tags)
    }
}

proof fn lemma_kept_len(nodes: Seq<PNode>, flags: Seq<bool>, n: int)
    requires
        nodes.len() == flags.len(),
        0 <= n <= flags.len(),
    ensures
        kept_from(nodes, flags, n).len() + count(flags.take(n)) == count(flags),
    decreases flags.len() - n,
{
    if n == flags.len() {
        assert(flags.take(n) =~= flags);
    } else {
        lemma_kept_len(nodes, flags, n + 1);
        assert(flags.take(n + 1).drop_last() =~= flags.take(n));
        assert(flags.take(n + 1).last() == flags[n]);
    }
}

/// The plan for the nodes between a shared prefix and a shared suffix.
pub open spec fn middle_plan<'a>(
    olds: Seq<VNode<'a>>,
    news: Seq<VNode<'a>>,
    mid: Seq<PNode>,
    start: nat,
) -> Plan<'a> {
    Plan { olds, news, mid, lis: picked(sources(olds, news)), start }
}

/// Where no old node is reused and nothing follows, the old nodes are removed
/// and the new ones created.
proof fn lemma_middle_anew<'a>(
    m: Machine,
    sc: Scene,
    mid: Seq<PNode>,
    olds: Seq<VNode<'a>>,
    news: Seq<VNode<'a>>,
) -> (r: (Machine, Seq<PNode>))
    requires
        outside(m, sc.base, sc.parent, sc.kids(mid)),
        identified_all(sc.kids(mid), m.fresh),
        sc.parent.label is Element,
        feasible(middle_plan(olds, news, mid, m.fresh), sc.t),
        sc.suf.len() == 0,
        sc.pre.len() > 0 ==> olds.len() > 0,
        none_reused(olds, news),
        sc.kids(mid).len() <= usize::MAX,
    ensures
        m.follow(
            middle_steps(
                olds,
                news,
                sc.pre.len() as int,
                0,
                (sc.pre.len() + olds.len()) as int,
                sc.t,
            ),
        ) == Some(r.0),
        outside(r.0, sc.base, sc.parent, sc.kids(r.1)),
        identified_all(sc.kids(r.1), r.0.fresh),
        m.fresh <= r.0.fresh,
        r.0.temps == m.temps,
        r.1.len() == news.len(),
        forall|j: int|
            0 <= j < news.len() ==> middle_plan(olds, news, mid, m.fresh).good(
                j,
                #[trigger] r.1[j],
            ),
        neat(olds, news) ==> all_proper(
            m,
            middle_steps(
                olds,
                news,
                sc.pre.len() as int,
                0,
                (sc.pre.len() + olds.len()) as int,
                sc.t,
            ),
        ),
{
    reveal(middle_steps);
    reveal(feasible);
    let plan = middle_plan(olds, news, mid, m.fresh);
    let kids = sc.kids(mid);
    let p = sc.pre.len() as int;
    assert forall|i: int, j: int| !#[trigger] plan.pair(i, j) by {
        if plan.pair(i, j) {
            assert(has_key(news, olds[i].key()));
        }
    }
    assert forall|j: int| 0 <= j < news.len() implies renderable(#[trigger] news[j]) by {
        assert(forall|i: int| !#[trigger] plan.pair(i, j));
    }
    lemma_feasible(plan, sc.t);
    let m1 = lemma_cleared(m, sc, mid);
    let (after, added) = lemma_append_outside(m1, sc.base, sc.parent, sc.pre, news);
    assert(sc.kids(added) =~= sc.pre + added);
    assert forall|j: int| 0 <= j < news.len() implies plan.good(j, #[trigger] added[j]) by {
        assert(clean(news[j]) ==> reflects(added[j], news[j]));
        lemma_good_created(plan, j, added[j]);
    }
    if neat(olds, news) {
        lemma_proper_joined(m, cleared_steps(p), append_steps(news));
    }
    (after, added)
}

/// Remove the children after the first `p`.
spec fn cleared_steps<'a>(p: int) -> Seq<Step<'a>> {
    if p == 0 {
        seq![Step::Commit] + clear_steps()
    } else {
        seq![go(Move::DownToChild(p as usize))].push(Step::Commit) + cut_steps()
    }
}

/// The nodes after `sc.pre` are removed.
proof fn lemma_cleared<'a>(m: Machine, sc: Scene, mid: Seq<PNode>) -> (after: Machine)
    requires
        outside(m, sc.base, sc.parent, sc.kids(mid)),
        identified_all(sc.kids(mid), m.fresh),
        sc.parent.label is Element,
        sc.suf.len() == 0,
        sc.pre.len() > 0 ==> mid.len() > 0,
        sc.kids(mid).len() <= usize::MAX,
    ensures
        m.follow(cleared_steps::<'a>(sc.pre.len() as int)) == Some(after),
        all_proper(m, cleared_steps::<'a>(sc.pre.len() as int)),
        outside(after, sc.base, sc.parent, sc.pre),
        identified_all(sc.pre, m.fresh),
        after.temps == m.temps,
        after.fresh == m.fresh,
{
    let kids = sc.kids(mid);
    let p = sc.pre.len() as int;
    assert(kids.take(p) =~= sc.pre);
    lemma_identified_take(kids, p, m.fresh);
    if p == 0 {
        reveal_strlit("");
        assert(""@ =~= Seq::<char>::empty());
        let after = m.set_text(Seq::empty())->0;
        assert(after.top.children =~= sc.pre);
        assert(m.follow(cleared_steps::<'a>(p)) == Some(after));
        lemma_proper_plain(m, cleared_steps::<'a>(p));
        after
    } else {
        lemma_descend(m, sc.base, sc.parent, kids, p);
        lemma_cut(m.descend(p)->0, sc.base, sc.parent, kids, p);
        let after = m.descend(p)->0.remove_self_and_next_siblings()->0;
        assert(m.follow(cleared_steps::<'a>(p)) == Some(after));
        lemma_proper_plain(m, cleared_steps::<'a>(p));
        after
    }
}

/// The reused nodes are saved, and the others removed.
proof fn lemma_save_and_drop<'a>(
    m: Machine,
    sc: Scene,
    mid: Seq<PNode>,
    flags: Seq<bool>,
) -> (after: Machine)
    requires
        outside(m, sc.base, sc.parent, sc.kids(mid)),
        identified_all(sc.kids(mid), m.fresh),
        mid.len() == flags.len(),
        sc.t + count(flags) <= u32::MAX,
        sc.kids(mid).len() <= usize::MAX,
    ensures
        m.follow(
            save_steps::<'a>(flags, 0, sc.pre.len() as int, sc.t) + drop_steps::<'a>(
                flags,
                flags.len() as int,
                sc.pre.len() as int,
            ),
        ) == Some(after),
        outside(after, sc.base, sc.parent, sc.kids(kept_from(mid, flags, 0))),
        identified_all(sc.kids(kept_from(mid, flags, 0)), m.fresh),
        after.fresh == m.fresh,
        same_below(m.temps, after.temps, sc.t),
        saved_from(after.temps, flags, sc.t, mid, 0),
        kept_from(mid, flags, 0).len() == count(flags),
        all_proper(
            m,
            save_steps::<'a>(flags, 0, sc.pre.len() as int, sc.t) + drop_steps::<'a>(
                flags,
                flags.len() as int,
                sc.pre.len() as int,
            ),
        ),
{
    let p = sc.pre.len() as int;
    let kids = sc.kids(mid);
    assert(flags.take(0) =~= Seq::<bool>::empty());
    lemma_kept_len(mid, flags, 0);
    assert(kids.subrange(p, p + flags.len()) =~= mid);
    let m1 = lemma_save(m, mid, flags, 0, p, sc.t);
    assert(kept_from(mid, flags, flags.len() as int) =~= Seq::<PNode>::empty());
    assert(kids =~= sc.pre + mid.take(flags.len() as int) + kept_from(
        mid,
        flags,
        flags.len() as int,
    ) + sc.suf);
    lemma_drop(m1, sc.pre, mid, sc.suf, flags, flags.len() as int);
    lemma_plain_save(flags, 0, p, sc.t);
    lemma_plain_drop(flags, flags.len() as int, p);
    lemma_proper_plain(
        m,
        save_steps::<'a>(flags, 0, p, sc.t) + drop_steps::<'a>(flags, flags.len() as int, p),
    );
    Machine { top: PNode { children: sc.kids(kept_from(mid, flags, 0)), ..m1.top }, ..m1 }
}

/// Diffing the nodes between a shared prefix and a shared suffix turns the
/// physical nodes, and leaves those around them as they are.
#[verifier::rlimit(60)]
pub proof fn lemma_middle<'a>(
    m: Machine,
    sc: Scene,
    mid: Seq<PNode>,
    olds: Seq<VNode<'a>>,
    news: Seq<VNode<'a>>,
) -> (r: (Machine, Seq<PNode>))
    requires
        outside(m, sc.base, sc.parent, sc.kids(mid)),
        identified_all(sc.kids(mid), m.fresh),
        sc.parent.label is Element,
        feasible(middle_plan(olds, news, mid, m.fresh), sc.t),
        sc.suf.len() == 0 && sc.pre.len() > 0 ==> olds.len() > 0,
        sc.kids(mid).len() <= usize::MAX,
    ensures
        m.follow(
            middle_steps(
                olds,
                news,
                sc.pre.len() as int,
                sc.suf.len() as int,
                (sc.pre.len() + olds.len()) as int,
                sc.t,
            ),
        ) == Some(r.0),
        outside(r.0, sc.base, sc.parent, sc.kids(r.1)),
        identified_all(sc.kids(r.1), r.0.fresh),
        m.fresh <= r.0.fresh,
        same_below(m.temps, r.0.temps, sc.t),
        r.1.len() == news.len(),
        forall|j: int|
            0 <= j < news.len() ==> middle_plan(olds, news, mid, m.fresh).good(
                j,
                #[trigger] r.1[j],
            ),
        neat(olds, news) ==> all_proper(
            m,
            middle_steps(
                olds,
                news,
                sc.pre.len() as int,
                sc.suf.len() as int,
                (sc.pre.len() + olds.len()) as int,
                sc.t,
            ),
        ),
    decreases size_all(olds), 6nat, 0int,
{
    reveal(middle_steps);
    let plan = middle_plan(olds, news, mid, m.fresh);
    lemma_feasible(plan, sc.t);
    if sc.suf.len() == 0 && none_reused(olds, news) {
        lemma_middle_anew(m, sc, mid, olds, news)
    } else {
        let flags = reused(olds, news);
        let nodes = kept_from(mid, flags, 0);
        let m2 = lemma_save_and_drop(m, sc, mid, flags);
        lemma_count_le(flags);
        if news.len() == 0 {
            assert forall|i: int| 0 <= i < flags.len() implies !#[trigger] flags[i] by {}
            lemma_count_none(flags);
            assert(nodes =~= Seq::<PNode>::empty());
            let done = save_steps::<'a>(flags, 0, sc.pre.len() as int, sc.t) + drop_steps(
                flags,
                flags.len() as int,
                sc.pre.len() as int,
            );
            assert(done + Seq::<Step<'a>>::empty() =~= done);
            (m2, nodes)
        } else {
            let (m5, nodes5) = lemma_settle(m2, sc, plan);
            if neat(olds, news) {
                lemma_proper_joined(
                    m,
                    save_steps::<'a>(flags, 0, sc.pre.len() as int, sc.t) + drop_steps(
                        flags,
                        flags.len() as int,
                        sc.pre.len() as int,
                    ),
                    settle_steps(
                        olds,
                        news,
                        plan.lis,
                        sc.suf.len() > 0,
                        (sc.pre.len() + count(flags)) as int,
                        sc.t,
                    ),
                );
            }
            (m5, nodes5)
        }
    }
}

/// The nodes are brought into order, from the last one to the first.
#[verifier::rlimit(60)]
proof fn lemma_settle<'a>(m: Machine, sc: Scene, plan: Plan<'a>) -> (r: (Machine, Seq<PNode>))
    requires
        feasible(plan, sc.t),
        plan.news.len() > 0,
        plan.start == m.fresh,
        outside(
            m,
            sc.base,
            sc.parent,
            sc.kids(kept_from(plan.mid, reused(plan.olds, plan.news), 0)),
        ),
        identified_all(
            sc.kids(kept_from(plan.mid, reused(plan.olds, plan.news), 0)),
            m.fresh,
        ),
        saved_from(m.temps, reused(plan.olds, plan.news), sc.t, plan.mid, 0),
        kept_from(plan.mid, reused(plan.olds, plan.news), 0).len() == count(
            reused(plan.olds, plan.news),
        ),
        sc.pre.len() + plan.mid.len() <= usize::MAX,
    ensures
        m.follow(
            settle_steps(
                plan.olds,
                plan.news,
                plan.lis,
                sc.suf.len() > 0,
                (sc.pre.len() + count(reused(plan.olds, plan.news))) as int,
                sc.t,
            ),
        ) == Some(r.0),
        outside(r.0, sc.base, sc.parent, sc.kids(r.1)),
        identified_all(sc.kids(r.1), r.0.fresh),
        m.fresh <= r.0.fresh,
        same_below(m.temps, r.0.temps, temps_end(plan.olds, plan.news, sc.t)),
        r.1.len() == plan.news.len(),
        forall|j: int| 0 <= j < plan.news.len() ==> plan.good(j, #[trigger] r.1[j]),
        neat(plan.olds, plan.news) ==> all_proper(
            m,
            settle_steps(
                plan.olds,
                plan.news,
                plan.lis,
                sc.suf.len() > 0,
                (sc.pre.len() + count(reused(plan.olds, plan.news))) as int,
                sc.t,
            ),
        ),
    decreases size_all(plan.olds), 5nat, 0int,
{
    let flags = reused(plan.olds, plan.news);
    let nodes = kept_from(plan.mid, flags, 0);
    let tags = kept_tags(flags, 0);
    lemma_feasible(plan, sc.t);
    lemma_count_le(flags);
    plan.lemma_arranged_begin();
    let (m3, nodes3, tags3, c3) = lemma_anchor(sc, plan, m, nodes, tags);
    let k = if sc.suf.len() > 0 {
        plan.news.len() as int
    } else {
        plan.news.len() - 1
    };
    let (m4, nodes4, tags4, c4) = lemma_place(sc, plan, m3, k, nodes3, tags3, c3);
    lemma_ascend(m4, sc.base, sc.parent, sc.kids(nodes4), sc.pre.len() + c4);
    plan.lemma_arranged_end(nodes4, tags4, c4);
    if neat(plan.olds, plan.news) {
        let begun = anchor_steps(
            plan.olds,
            plan.news,
            plan.lis,
            sc.suf.len() > 0,
            (sc.pre.len() + count(flags)) as int,
            sc.t,
        );
        let placed = place_steps(plan.olds, plan.news, plan.lis, k, sc.t);
        lemma_proper_joined(m, begun, placed);
        lemma_proper_plain(m4, seq![go::<'a>(Move::Up)]);
        lemma_proper_joined(m, begun + placed, seq![go(Move::Up)]);
    }
    (m4.ascend()->0, nodes4)
}

/// The first `p` physical nodes, which reflected old nodes, are now the right
/// ones for the new nodes.
#[verifier::opaque]
pub open spec fn prefix_renewed(
    kids: Seq<PNode>,
    kids2: Seq<PNode>,
    olds: Seq<VNode>,
    news: Seq<VNode>,
    p: int,
    start: nat,
) -> bool {
    forall|i: int|
        0 <= i < p ==> renewed(kids[i], kids2[i], olds[i], #[trigger] news[i], start)
}

/// From `p` on there are new physical nodes, one for each of the new nodes.
#[verifier::opaque]
pub open spec fn rest_created(kids2: Seq<PNode>, news: Seq<VNode>, p: int, start: nat) -> bool {
    forall|i: int|
        p <= i < news.len() ==> start <= kids2[i].id && (clean(#[trigger] news[i]) ==> reflects(
            kids2[i],
            news[i],
        ))
}

/// Diffing the shared prefix turns the physical nodes of the prefix, and all of
/// them where the prefix is all of the old or of the new nodes.
#[verifier::rlimit(60)]
pub proof fn lemma_prefix<'a>(
    m: Machine,
    olds: Seq<VNode<'a>>,
    news: Seq<VNode<'a>>,
    t: nat,
) -> (r: (Machine, Seq<PNode>))
    requires
        m.loose.len() == 0,
        0 < olds.len() <= usize::MAX,
        m.top.children.len() == olds.len(),
        forall|i: int|
            0 <= i < shared_prefix(olds, news) ==> nearly_reflects(
                m.top.children[i],
                #[trigger] olds[i],
                news[i],
            ),
        identified_all(m.top.children, m.fresh),
        forall|i: int|
            0 <= i < shared_prefix(olds, news) ==> can_diff(#[trigger] olds[i], news[i]),
        shared_prefix(olds, news) == olds.len() ==> forall|i: int|
            olds.len() <= i < news.len() ==> renderable(#[trigger] news[i]),
        t + slots_walk(olds, news, shared_prefix(olds, news)) <= u32::MAX,
    ensures
        m.follow(prefix_steps(olds, news, t)) == Some(r.0),
        outside(r.0, m.frames, m.top, r.1),
        m.fresh <= r.0.fresh,
        same_below(m.temps, r.0.temps, t),
        identified_all(r.1, r.0.fresh),
        ({
            let p = shared_prefix(olds, news);
            &&& 0 <= p <= olds.len()
            &&& p <= news.len()
            &&& p <= r.1.len()
            &&& prefix_renewed(m.top.children, r.1, olds, news, p, m.fresh)
            &&& if p == olds.len() {
                r.1.len() == news.len() && rest_created(r.1, news, p, m.fresh)
            } else if p == news.len() {
                r.1.len() == news.len()
            } else {
                r.1.len() == olds.len() && forall|i: int|
                    p <= i < olds.len() ==> #[trigger] r.1[i] == m.top.children[i]
            }
        }),
        neat(olds, news) ==> all_proper(m, prefix_steps(olds, news, t)),
    decreases size_all(olds), 2nat, 0int,
{
    reveal(prefix_renewed);
    reveal(rest_created);
    let base = m.frames;
    let parent = m.top;
    let kids = m.top.children;
    let p = shared_prefix(olds, news);
    lemma_prefix_from(olds, news, 0);
    lemma_descend(m, base, parent, kids, 0);
    let m1 = m.descend(0)->0;
    let (m2, kids2, h2) = lemma_walk(m1, base, parent, kids, 0, olds, news, 0, p, t);
    let walked = seq![go(Move::Down)] + walk_steps(olds, news, 0, p, t);
    if neat(olds, news) {
        lemma_proper_plain(m, seq![go::<'a>(Move::Down)]);
        lemma_proper_joined(m, seq![go(Move::Down)], walk_steps(olds, news, 0, p, t));
    }
    assert forall|i: int| 0 <= i < p implies renewed(
        kids[i],
        kids2[i],
        olds[i],
        #[trigger] news[i],
        m.fresh,
    ) by {
        assert(kids2[0 + i] == kids2[i]);
        assert(kids[0 + i] == kids[i]);
    }
    if p == olds.len() {
        lemma_ascend(m2, base, parent, kids2, h2);
        let m3 = m2.ascend()->0;
        let rest = news.skip(p);
        assert forall|i: int| 0 <= i < rest.len() implies renderable(#[trigger] rest[i]) by {
            assert(rest[i] == news[i + p]);
        }
        let (after, added) = lemma_append_outside(m3, base, parent, kids2, rest);
        assert(m.follow(prefix_steps(olds, news, t)) == Some(after));
        if neat(olds, news) {
            lemma_tidy_part(news, p, news.len() as int);
            assert(rest =~= news.subrange(p, news.len() as int));
            let tail = seq![go::<'a>(Move::Up)].push(Step::Commit);
            lemma_proper_plain(m2, tail);
            lemma_proper_joined(m2, tail, append_steps(rest));
            lemma_proper_joined(m, walked, tail + append_steps(rest));
        }
        let all = kids2 + added;
        assert forall|i: int| 0 <= i < p implies renewed(
            kids[i],
            all[i],
            olds[i],
            #[trigger] news[i],
            m.fresh,
        ) by {
            assert(all[i] == kids2[i]);
        }
        assert forall|i: int| p <= i < news.len() implies m.fresh <= all[i].id && (clean(
            #[trigger] news[i],
        ) ==> reflects(all[i], news[i])) by {
            assert(all[i] == added[i - p]);
            assert(rest[i - p] == news[i]);
            assert(m.fresh <= added[i - p].id);
        }
        (after, all)
    } else if p == news.len() {
        lemma_sibling(m2, base, parent, kids2, h2, p);
        let m3 = m2.go(Move::ToSibling(p as usize))->0;
        lemma_cut(m3, base, parent, kids2, p);
        let after = m3.remove_self_and_next_siblings()->0;
        lemma_identified_take(kids2, p, m2.fresh);
        assert(m.follow(prefix_steps(olds, news, t)) == Some(after));
        if neat(olds, news) {
            let tail = seq![go::<'a>(Move::ToSibling(p as usize))].push(Step::Commit)
                + cut_steps();
            lemma_proper_plain(m2, tail);
            lemma_proper_joined(m, walked, tail);
        }
        let all = kids2.take(p);
        assert forall|i: int| 0 <= i < p implies renewed(
            kids[i],
            all[i],
            olds[i],
            #[trigger] news[i],
            m.fresh,
        ) by {
            assert(all[i] == kids2[i]);
        }
        (after, all)
    } else {
        lemma_ascend(m2, base, parent, kids2, h2);
        let after = m2.ascend()->0;
        assert(m.follow(prefix_steps(olds, news, t)) == Some(after));
        if neat(olds, news) {
            lemma_proper_plain(m2, seq![go::<'a>(Move::Up)]);
            lemma_proper_joined(m, walked, seq![go(Move::Up)]);
        }
        (after, kids2)
    }
}

/// The physical nodes of the shared prefix can be turned.
pub proof fn lemma_prefix_near<'a>(
    kids: Seq<PNode>,
    olds: Seq<VNode<'a>>,
    news: Seq<VNode<'a>>,
)
    requires
        nearly_by_key(kids, olds, news),
    ensures
        kids.len() == olds.len(),
        forall|i: int|
            0 <= i < shared_prefix(olds, news) ==> nearly_reflects(
                kids[i],
                #[trigger] olds[i],
                news[i],
            ),
{
    reveal(nearly_by_key);
    lemma_prefix_from(olds, news, 0);
    assert forall|i: int| 0 <= i < shared_prefix(olds, news) implies nearly_reflects(
        kids[i],
        #[trigger] olds[i],
        news[i],
    ) by {
        assert(olds[i].key() == news[i].key());
    }
}

/// Diffing children with keys turns the children of the physical node.
#[verifier::rlimit(60)]
pub proof fn lemma_keyed<'a>(
    m: Machine,
    olds: Seq<VNode<'a>>,
    news: Seq<VNode<'a>>,
    t: nat,
) -> (after: Machine)
    requires
        m.loose.len() == 0,
        m.top.label is Element,
        0 < olds.len() <= usize::MAX,
        news.len() <= usize::MAX,
        nearly_by_key(m.top.children, olds, news),
        identified_all(m.top.children, m.fresh),
        can_turn_by_key(olds, news),
        middle_fits(olds, news),
        t + slots_keyed(olds, news) <= u32::MAX,
    ensures
        m.follow(keyed_steps(olds, news, t)) == Some(after),
        refilled(m, after, t),
        after.top.children.len() == news.len(),
        shows_by_key(olds, news) ==> reflects_all(after.top.children, news),
        reuses(olds, news, m.top.children, after.top.children, m.fresh),
        neat(olds, news) ==> all_proper(m, keyed_steps(olds, news, t)),
    decreases size_all(olds), 7nat, 0int,
{
    let kids = m.top.children;
    let p = shared_prefix(olds, news);
    lemma_slots_keyed(olds, news);
    lemma_keyed_steps(olds, news, t);
    lemma_prefix_ready(olds, news);
    lemma_prefix_near(kids, olds, news);
    let (m1, kids1) = lemma_prefix(m, olds, news, t);
    let (m2, kids2) = if p == olds.len() || p == news.len() {
        lemma_prefix_reuses(olds, news, kids, kids1, m.fresh);
        (m1, kids1)
    } else {
        let r = lemma_beyond_prefix(m, m1, kids1, olds, news, p, t);
        if neat(olds, news) {
            lemma_proper_joined(
                m,
                prefix_steps(olds, news, t),
                beyond_prefix_steps(olds, news, p, t),
            );
        }
        r
    };
    lemma_all_shown(olds, news, kids2);
    m2
}

proof fn lemma_all_shown<'a>(olds: Seq<VNode<'a>>, news: Seq<VNode<'a>>, kids: Seq<PNode>)
    requires
        kids.len() == news.len(),
        forall|j: int|
            0 <= j < news.len() && shown_at(olds, news, j) ==> reflects(kids[j], #[trigger] news[j]),
    ensures
        shows_by_key(olds, news) ==> reflects_all(kids, news),
{
    if shows_by_key(olds, news) {
        lemma_shown_at(olds, news);
        assert forall|j: int| 0 <= j < news.len() implies reflects(kids[j], #[trigger] news[j]) by {
            assert(shown_at(olds, news, j));
        }
    }
}

/// The nodes of the shared prefix can be turned.
pub proof fn lemma_prefix_ready<'a>(olds: Seq<VNode<'a>>, news: Seq<VNode<'a>>)
    requires
        can_turn_by_key(olds, news),
    ensures
        forall|i: int|
            0 <= i < shared_prefix(olds, news) ==> can_diff(#[trigger] olds[i], news[i]),
        shared_prefix(olds, news) == olds.len() ==> forall|i: int|
            olds.len() <= i < news.len() ==> renderable(#[trigger] news[i]),
{
    reveal(can_turn_by_key);
    lemma_prefix_from(olds, news, 0);
    lemma_keys_apart(news);
    assert forall|i: int| 0 <= i < shared_prefix(olds, news) implies can_diff(
        #[trigger] olds[i],
        news[i],
    ) by {
        assert(olds[i].key() == news[i].key());
    }
    if shared_prefix(olds, news) == olds.len() {
        assert forall|i: int| olds.len() <= i < news.len() implies renderable(
            #[trigger] news[i],
        ) by {
            if has_key(olds, news[i].key()) {
                let x = choose|x: int|
                    0 <= x < olds.len() && (#[trigger] olds[x]).key() == news[i].key();
                assert(news[x].key() == olds[x].key());
                assert(key_apart(news, x, i));
            }
        }
    }
}

/// Where the shared prefix is all of the old or of the new nodes, it tells
/// which physical nodes are reused.
proof fn lemma_prefix_reuses<'a>(
    olds: Seq<VNode<'a>>,
    news: Seq<VNode<'a>>,
    kids: Seq<PNode>,
    kids1: Seq<PNode>,
    start: nat,
)
    requires
        can_turn_by_key(olds, news),
        shared_prefix(olds, news) == olds.len() || shared_prefix(olds, news) == news.len(),
        kids1.len() == news.len(),
        prefix_renewed(kids, kids1, olds, news, shared_prefix(olds, news), start),
        shared_prefix(olds, news) == olds.len() ==> rest_created(
            kids1,
            news,
            shared_prefix(olds, news),
            start,
        ),
    ensures
        reuses(olds, news, kids, kids1, start),
        forall|j: int|
            0 <= j < news.len() && shown_at(olds, news, j) ==> reflects(kids1[j], #[trigger] news[j]),
{
    reveal(prefix_renewed);
    reveal(rest_created);
    reveal(renewed);
    reveal(can_turn_by_key);
    let p = shared_prefix(olds, news);
    lemma_prefix_from(olds, news, 0);
    lemma_keys_apart(olds);
    lemma_keys_apart(news);
    assert forall|i: int, j: int|
        #![trigger olds[i], news[j]]
        0 <= i < olds.len() && 0 <= j < news.len() && olds[i].key() == news[j].key() implies right_node(
        kids[i],
        kids1[j],
        olds[i],
        news[j],
        start,
    ) && right_tree(kids[i], kids1[j], olds[i], news[j], start) by {
        if i < p {
            assert(olds[i].key() == news[i].key());
            assert(key_apart(news, i, j));
        } else {
            assert(olds[j].key() == news[j].key());
            assert(key_apart(olds, i, j));
        }
    }
    assert forall|j: int|
        0 <= j < news.len() && !has_key(olds, (#[trigger] news[j]).key()) implies start
        <= kids1[j].id by {
        if j < p {
            assert(olds[j].key() == news[j].key());
        }
    }
    assert forall|j: int| 0 <= j < news.len() && shown_at(olds, news, j) implies reflects(
        kids1[j],
        #[trigger] news[j],
    ) by {
        if j < p {
            assert(olds[j].key() == news[j].key());
        } else if has_key(olds, news[j].key()) {
            let i = choose|i: int|
                0 <= i < olds.len() && (#[trigger] olds[i]).key() == news[j].key();
            assert(olds[i].key() == news[i].key());
            assert(key_apart(news, i, j));
        }
    }
}

/// The nodes at two places do not have the same key, unless it is one place.
pub open spec fn key_apart(ns: Seq<VNode>, i: int, j: int) -> bool {
    ns[i].key() == ns[j].key() ==> i == j
}

pub proof fn lemma_keys_apart(ns: Seq<VNode>)
    requires
        uniquely_keyed(ns),
    ensures
        forall|i: int, j: int|
            0 <= i < ns.len() && 0 <= j < ns.len() ==> #[trigger] key_apart(ns, i, j),
{
    assert forall|i: int, j: int| 0 <= i < ns.len() && 0 <= j < ns.len() implies #[trigger] key_apart(
        ns,
        i,
        j,
    ) by {
        if i < j {
            assert(ns[i].key() != ns[j].key());
        } else if j < i {
            assert(ns[j].key() != ns[i].key());
        }
    }
}

/// The nodes between the shared prefix and the shared suffix are turned.
proof fn lemma_beyond_middle<'a>(
    m: Machine,
    m1: Machine,
    kids1: Seq<PNode>,
    olds: Seq<VNode<'a>>,
    news: Seq<VNode<'a>>,
    p: int,
    s: int,
    t: nat,
) -> (r: (Machine, Seq<PNode>))
    requires
        m.top.label is Element,
        nearly_by_key(m.top.children, olds, news),
        can_turn_by_key(olds, news),
        middle_fits(olds, news),
        olds.len() <= usize::MAX,
        t + slots_beyond_prefix(olds, news, p) <= u32::MAX,
        p == shared_prefix(olds, news),
        s == shared_suffix(olds.skip(p), news.skip(p)),
        0 <= p <= olds.len() - s,
        p <= news.len() - s,
        0 <= s,
        p < olds.len(),
        p < news.len(),
        outside(m1, m.frames, m.top, kids1),
        identified_all(kids1, m1.fresh),
        kids1.len() == olds.len(),
        forall|i: int| p <= i < olds.len() ==> #[trigger] kids1[i] == m.top.children[i],
    ensures
        m1.follow(
            middle_steps(
                olds.subrange(p, olds.len() - s),
                news.subrange(p, news.len() - s),
                p,
                s,
                olds.len() - s,
                t,
            ),
        ) == Some(r.0),
        outside(
            r.0,
            m.frames,
            m.top,
            kids1.take(p) + r.1 + kids1.skip(olds.len() - s),
        ),
        identified_all(kids1.take(p) + r.1 + kids1.skip(olds.len() - s), r.0.fresh),
        m1.fresh <= r.0.fresh,
        same_below(m1.temps, r.0.temps, t),
        r.1.len() == news.len() - s - p,
        ({
            let plan = middle_plan(
                olds.subrange(p, olds.len() - s),
                news.subrange(p, news.len() - s),
                kids1.subrange(p, olds.len() - s),
                m1.fresh,
            );
            forall|j: int| 0 <= j < r.1.len() ==> plan.good(j, #[trigger] r.1[j])
        }),
        neat(olds, news) ==> all_proper(
            m1,
            middle_steps(
                olds.subrange(p, olds.len() - s),
                news.subrange(p, news.len() - s),
                p,
                s,
                olds.len() - s,
                t,
            ),
        ),
    decreases size_all(olds), 6nat, 1int,
{
    let os = olds.len() - s;
    let om = olds.subrange(p, os);
    let nm = news.subrange(p, news.len() - s);
    let mid = kids1.subrange(p, os);
    let sc = Scene { base: m.frames, parent: m.top, pre: kids1.take(p), suf: kids1.skip(os), t };
    assert(sc.kids(mid) =~= kids1);
    lemma_slots_beyond_prefix(olds, news, p);
    lemma_size_subrange(olds, p, os);
    lemma_middle_can_turn(olds, news, p, s);
    assert(nearly_by_key(mid, om, nm)) by {
        reveal(nearly_by_key);
        assert forall|i: int, j: int|
            #![trigger om[i], nm[j]]
            0 <= i < om.len() && 0 <= j < nm.len() && om[i].key()
                == nm[j].key() implies nearly_reflects(mid[i], om[i], nm[j]) by {
            assert(mid[i] == m.top.children[p + i]);
            assert(om[i] == olds[p + i]);
            assert(nm[j] == news[p + j]);
        }
    }
    lemma_plan_feasible(om, nm, mid, m1.fresh, t);
    if neat(olds, news) {
        lemma_tidy_part(olds, p, os);
        lemma_tidy_part(news, p, news.len() - s);
    }
    lemma_middle(m1, sc, mid, om, nm)
}

/// Whether the old children can be diffed with the new ones by key, as far as
/// the nodes go.
#[verifier::opaque]
pub open spec fn can_turn_by_key(olds: Seq<VNode>, news: Seq<VNode>) -> bool {
    &&& uniquely_keyed(olds)
    &&& uniquely_keyed(news)
    &&& forall|i: int, j: int|
        0 <= i < olds.len() && 0 <= j < news.len() && (#[trigger] olds[i]).key() == (
        #[trigger] news[j]).key() ==> can_diff(olds[i], news[j])
    &&& forall|j: int|
        0 <= j < news.len() && !has_key(olds, (#[trigger] news[j]).key()) ==> renderable(news[j])
}

/// The nodes of the shared suffix can be turned.
proof fn lemma_suffix_ready<'a>(
    kids: Seq<PNode>,
    olds: Seq<VNode<'a>>,
    news: Seq<VNode<'a>>,
    p: int,
    s: int,
    i: int,
)
    requires
        nearly_by_key(kids, olds, news),
        can_turn_by_key(olds, news),
        p == shared_prefix(olds, news),
        s == shared_suffix(olds.skip(p), news.skip(p)),
        0 <= p <= olds.len() - s,
        p <= news.len() - s,
        0 <= i < s,
    ensures
        nearly_reflects(
            kids[olds.len() - s + i],
            olds[olds.len() - s + i],
            news[news.len() - s + i],
        ),
        can_diff(olds[olds.len() - s + i], news[news.len() - s + i]),
{
    reveal(can_turn_by_key);
    reveal(nearly_by_key);
    lemma_suffix_keys(olds, news, p, s, i);
}

/// Diffing what follows the shared prefix turns the rest of the children.
#[verifier::rlimit(60)]
proof fn lemma_beyond_prefix<'a>(
    m: Machine,
    m1: Machine,
    kids1: Seq<PNode>,
    olds: Seq<VNode<'a>>,
    news: Seq<VNode<'a>>,
    p: int,
    t: nat,
) -> (r: (Machine, Seq<PNode>))
    requires
        m.top.label is Element,
        nearly_by_key(m.top.children, olds, news),
        can_turn_by_key(olds, news),
        middle_fits(olds, news),
        olds.len() <= usize::MAX,
        news.len() <= usize::MAX,
        t + slots_beyond_prefix(olds, news, p) <= u32::MAX,
        p == shared_prefix(olds, news),
        0 <= p < olds.len(),
        p < news.len(),
        outside(m1, m.frames, m.top, kids1),
        m.fresh <= m1.fresh,
        identified_all(kids1, m1.fresh),
        kids1.len() == olds.len(),
        prefix_renewed(m.top.children, kids1, olds, news, p, m.fresh),
        forall|i: int| p <= i < olds.len() ==> #[trigger] kids1[i] == m.top.children[i],
    ensures
        m1.follow(beyond_prefix_steps(olds, news, p, t)) == Some(r.0),
        outside(r.0, m.frames, m.top, r.1),
        m1.fresh <= r.0.fresh,
        same_below(m1.temps, r.0.temps, t),
        identified_all(r.1, r.0.fresh),
        r.1.len() == news.len(),
        forall|j: int|
            0 <= j < news.len() && shown_at(olds, news, j) ==> reflects(r.1[j], #[trigger] news[j]),
        reuses(olds, news, m.top.children, r.1, m.fresh),
        neat(olds, news) ==> all_proper(m1, beyond_prefix_steps(olds, news, p, t)),
    decreases size_all(olds), 6nat, 2int,
{
    let kids = m.top.children;
    assert(kids.len() == olds.len()) by {
        reveal(nearly_by_key);
    }
    let s = shared_suffix(olds.skip(p), news.skip(p));
    lemma_suffix_bounds(olds, news, p);
    lemma_beyond_prefix_steps(olds, news, p, s, t);
    let os = olds.len() - s;
    let ns = news.len() - s;
    let om = olds.subrange(p, os);
    let nm = news.subrange(p, ns);
    let (m2, mid2) = lemma_beyond_middle(m, m1, kids1, olds, news, p, s, t);
    let kids2 = kids1.take(p) + mid2 + kids1.skip(os);
    let middle = middle_steps(om, nm, p, s, os, t);
    if s == 0 {
        assert(middle + Seq::<Step<'a>>::empty() =~= middle);
        lemma_joined(olds, news, kids, kids1, kids2, mid2, p, s, m.fresh, m1.fresh, kids2);
        (m2, kids2)
    } else {
        let t2 = temps_end(om, nm, t);
        let ot = olds.subrange(os, olds.len() as int);
        let nt = news.subrange(ns, news.len() as int);
        lemma_slots_beyond_prefix(olds, news, p);
        lemma_size_subrange(olds, os, olds.len() as int);
        lemma_suffix_all_ready(kids, kids1, kids2, mid2, olds, news, p, s);
        let (m5, kids5) = lemma_suffix(m2, m.frames, m.top, kids2, ot, nt, ns, t2);
        if neat(olds, news) {
            lemma_tidy_part(olds, os, olds.len() as int);
            lemma_tidy_part(news, ns, news.len() as int);
            lemma_proper_joined(m1, middle, suffix_steps(ot, nt, ns, t2));
        }
        assert forall|i: int| 0 <= i < s implies renewed(
            kids2[ns + i],
            kids5[ns + i],
            ot[i],
            #[trigger] nt[i],
            m1.fresh,
        ) by {
            lemma_renewed(kids2[ns + i], kids5[ns + i], ot[i], nt[i], m2.fresh, m1.fresh);
        }
        lemma_joined(olds, news, kids, kids1, kids2, mid2, p, s, m.fresh, m1.fresh, kids5);
        (m5, kids5)
    }
}

proof fn lemma_suffix_bounds<'a>(olds: Seq<VNode<'a>>, news: Seq<VNode<'a>>, p: int)
    requires
        0 <= p <= olds.len(),
        p <= news.len(),
    ensures
        0 <= shared_suffix(olds.skip(p), news.skip(p)) <= olds.len() - p,
        shared_suffix(olds.skip(p), news.skip(p)) <= news.len() - p,
{
    lemma_suffix_from(olds.skip(p), news.skip(p), 0);
}

/// After the middle is turned, the nodes of the shared suffix can be turned.
proof fn lemma_suffix_all_ready<'a>(
    kids: Seq<PNode>,
    kids1: Seq<PNode>,
    kids2: Seq<PNode>,
    mid2: Seq<PNode>,
    olds: Seq<VNode<'a>>,
    news: Seq<VNode<'a>>,
    p: int,
    s: int,
)
    requires
        nearly_by_key(kids, olds, news),
        can_turn_by_key(olds, news),
        p == shared_prefix(olds, news),
        s == shared_suffix(olds.skip(p), news.skip(p)),
        0 <= p <= olds.len() - s,
        p <= news.len() - s,
        0 < s,
        kids1.len() == olds.len(),
        forall|i: int| p <= i < olds.len() ==> #[trigger] kids1[i] == kids[i],
        mid2.len() == news.len() - s - p,
        kids2 == kids1.take(p) + mid2 + kids1.skip(olds.len() - s),
    ensures
        kids2.len() == news.len(),
        ({
            let ot = olds.subrange(olds.len() - s, olds.len() as int);
            let nt = news.subrange(news.len() - s, news.len() as int);
            forall|i: int|
                0 <= i < s ==> nearly_reflects(
                    kids2[news.len() - s + i],
                    #[trigger] ot[i],
                    nt[i],
                ) && can_diff(ot[i], nt[i])
        }),
{
    let os = olds.len() - s;
    let ns = news.len() - s;
    let ot = olds.subrange(os, olds.len() as int);
    let nt = news.subrange(ns, news.len() as int);
    assert forall|i: int| 0 <= i < s implies nearly_reflects(
        kids2[ns + i],
        #[trigger] ot[i],
        nt[i],
    ) && can_diff(ot[i], nt[i]) by {
        lemma_suffix_ready(kids, olds, news, p, s, i);
        assert(kids2[ns + i] == kids1[os + i]);
    }
}

/// Diffing the shared suffix turns the physical nodes of the suffix.
pub proof fn lemma_suffix<'a>(
    m: Machine,
    base: Seq<Frame>,
    parent: PNode,
    kids: Seq<PNode>,
    olds: Seq<VNode<'a>>,
    news: Seq<VNode<'a>>,
    from: int,
    t: nat,
) -> (r: (Machine, Seq<PNode>))
    requires
        outside(m, base, parent, kids),
        identified_all(kids, m.fresh),
        0 <= from,
        olds.len() == news.len(),
        olds.len() > 0,
        from + olds.len() <= kids.len(),
        from + olds.len() <= usize::MAX,
        forall|i: int|
            0 <= i < olds.len() ==> nearly_reflects(kids[from + i], #[trigger] olds[i], news[i])
                && can_diff(olds[i], news[i]),
        t + slots_walk(olds, news, olds.len() as int) <= u32::MAX,
    ensures
        m.follow(suffix_steps(olds, news, from, t)) == Some(r.0),
        outside(r.0, base, parent, r.1),
        m.fresh <= r.0.fresh,
        same_below(m.temps, r.0.temps, t),
        r.1.len() == kids.len(),
        identified_all(r.1, r.0.fresh),
        forall|i: int|
            0 <= i < olds.len() ==> renewed(
                kids[from + i],
                r.1[from + i],
                olds[i],
                #[trigger] news[i],
                m.fresh,
            ),
        forall|x: int|
            0 <= x < kids.len() && !(from <= x < from + olds.len()) ==> #[trigger] r.1[x]
                == kids[x],
        neat(olds, news) ==> all_proper(m, suffix_steps(olds, news, from, t)),
    decreases size_all(olds), 2nat, 0int,
{
    lemma_descend(m, base, parent, kids, 0);
    let m1 = m.descend(0)->0;
    let n = olds.len() as int;
    let (m2, kids2, h2) = lemma_walk(m1, base, parent, kids, 0, olds, news, from, n, t);
    lemma_ascend(m2, base, parent, kids2, h2);
    if neat(olds, news) {
        let walked = walk_steps(olds, news, from, n, t);
        lemma_proper_plain(m, seq![go::<'a>(Move::Down)]);
        lemma_proper_joined(m, seq![go(Move::Down)], walked);
        lemma_proper_plain(m2, seq![go::<'a>(Move::Up)]);
        lemma_proper_joined(m, seq![go(Move::Down)] + walked, seq![go(Move::Up)]);
    }
    (m2.ascend()->0, kids2)
}

/// At the end of the two lists the keys are the same.
pub proof fn lemma_suffix_keys(olds: Seq<VNode>, news: Seq<VNode>, p: int, s: int, i: int)
    requires
        p == shared_prefix(olds, news),
        s == shared_suffix(olds.skip(p), news.skip(p)),
        0 <= i < s,
    ensures
        s <= olds.len() - p,
        s <= news.len() - p,
        olds[olds.len() - s + i].key() == news[news.len() - s + i].key(),
{
    lemma_prefix_from(olds, news, 0);
    let a = olds.skip(p);
    let b = news.skip(p);
    lemma_suffix_from(a, b, 0);
    let k = s - 1 - i;
    assert(a[a.len() - 1 - k] == olds[olds.len() - s + i]);
    assert(b[b.len() - 1 - k] == news[news.len() - s + i]);
}

/// The old node with the key of a new node in the middle is in the middle.
pub proof fn lemma_partner<'a>(
    olds: Seq<VNode<'a>>,
    news: Seq<VNode<'a>>,
    p: int,
    s: int,
    i: int,
    j: int,
)
    requires
        uniquely_keyed(olds),
        uniquely_keyed(news),
        p == shared_prefix(olds, news),
        s == shared_suffix(olds.skip(p), news.skip(p)),
        0 <= i < olds.len(),
        0 <= j < news.len(),
        olds[i].key() == news[j].key(),
    ensures
        0 <= p <= olds.len() - s,
        p <= news.len() - s,
        i < p ==> j == i,
        j < p ==> i == j,
        i >= olds.len() - s ==> j == i - olds.len() + news.len(),
        j >= news.len() - s ==> i == j - news.len() + olds.len(),
{
    lemma_prefix_from(olds, news, 0);
    lemma_suffix_from(olds.skip(p), news.skip(p), 0);
    lemma_keys_apart(olds);
    lemma_keys_apart(news);
    if i < p {
        assert(olds[i].key() == news[i].key());
        assert(key_apart(news, i, j));
    }
    if j < p {
        assert(olds[j].key() == news[j].key());
        assert(key_apart(olds, i, j));
    }
    if i >= olds.len() - s {
        lemma_suffix_keys(olds, news, p, s, i - (olds.len() - s));
        assert(key_apart(news, j, i - olds.len() + news.len()));
    }
    if j >= news.len() - s {
        lemma_suffix_keys(olds, news, p, s, j - (news.len() - s));
        assert(key_apart(olds, i, j - news.len() + olds.len()));
    }
}

/// What is between the shared prefix and the shared suffix can be turned by key.
proof fn lemma_middle_can_turn<'a>(olds: Seq<VNode<'a>>, news: Seq<VNode<'a>>, p: int, s: int)
    requires
        can_turn_by_key(olds, news),
        p == shared_prefix(olds, news),
        s == shared_suffix(olds.skip(p), news.skip(p)),
        0 <= p <= olds.len() - s,
        p <= news.len() - s,
        0 <= s,
    ensures
        can_turn_by_key(olds.subrange(p, olds.len() - s), news.subrange(p, news.len() - s)),
{
    reveal(can_turn_by_key);
    let om = olds.subrange(p, olds.len() - s);
    let nm = news.subrange(p, news.len() - s);
    lemma_keys_apart(olds);
    lemma_keys_apart(news);
    assert(uniquely_keyed(om)) by {
        assert forall|i: int| 0 <= i < om.len() implies (#[trigger] om[i]).key() is Some by {
            assert(om[i] == olds[p + i]);
        }
        assert forall|i: int, j: int| 0 <= i < j < om.len() implies (#[trigger] om[i]).key() != (
        #[trigger] om[j]).key() by {
            assert(key_apart(olds, p + i, p + j));
        }
    }
    assert(uniquely_keyed(nm)) by {
        assert forall|i: int| 0 <= i < nm.len() implies (#[trigger] nm[i]).key() is Some by {
            assert(nm[i] == news[p + i]);
        }
        assert forall|i: int, j: int| 0 <= i < j < nm.len() implies (#[trigger] nm[i]).key() != (
        #[trigger] nm[j]).key() by {
            assert(key_apart(news, p + i, p + j));
        }
    }
    assert forall|i: int, j: int|
        0 <= i < om.len() && 0 <= j < nm.len() && (#[trigger] om[i]).key() == (
        #[trigger] nm[j]).key() implies can_diff(om[i], nm[j]) by {
        assert(om[i] == olds[p + i]);
        assert(nm[j] == news[p + j]);
    }
    assert forall|j: int|
        0 <= j < nm.len() && !has_key(om, (#[trigger] nm[j]).key()) implies renderable(
        nm[j],
    ) by {
        let n = news[p + j];
        assert(nm[j] == n);
        if has_key(olds, n.key()) {
            let i = choose|i: int| 0 <= i < olds.len() && (#[trigger] olds[i]).key() == n.key();
            lemma_partner(olds, news, p, s, i, p + j);
            assert(om[i - p] == olds[i]);
            assert(has_key(om, n.key()));
        }
    }
}

/// The plan for children that can be turned by key can be carried out.
pub proof fn lemma_plan_feasible<'a>(
    olds: Seq<VNode<'a>>,
    news: Seq<VNode<'a>>,
    mid: Seq<PNode>,
    start: nat,
    t: nat,
)
    requires
        can_turn_by_key(olds, news),
        nearly_by_key(mid, olds, news),
        olds.len() <= u32::MAX,
        news.len() < u32::MAX,
        t + slots_middle(olds, news) <= u32::MAX,
    ensures
        feasible(middle_plan(olds, news, mid, start), t),
{
    reveal(feasible);
    reveal(nearly_by_key);
    reveal(can_turn_by_key);
    let plan = middle_plan(olds, news, mid, start);
    lemma_picked_increasing(sources(olds, news));
    assert forall|j: int|
        0 <= j < plan.news.len() && (forall|i: int| !#[trigger] plan.pair(i, j)) implies renderable(
        #[trigger] plan.news[j],
    ) by {
        if has_key(olds, news[j].key()) {
            let i = choose|i: int|
                0 <= i < olds.len() && (#[trigger] olds[i]).key() == news[j].key();
            assert(plan.pair(i, j));
        }
    }
}

/// What can be shown among all the children can be shown in the middle.
proof fn lemma_shown_in_middle<'a>(
    olds: Seq<VNode<'a>>,
    news: Seq<VNode<'a>>,
    p: int,
    s: int,
    j: int,
)
    requires
        uniquely_keyed(olds),
        uniquely_keyed(news),
        p == shared_prefix(olds, news),
        s == shared_suffix(olds.skip(p), news.skip(p)),
        0 <= s,
        0 <= p <= olds.len() - s,
        p <= j < news.len() - s,
        shown_at(olds, news, j),
    ensures
        shown_at(
            olds.subrange(p, olds.len() - s),
            news.subrange(p, news.len() - s),
            j - p,
        ),
{
    let om = olds.subrange(p, olds.len() - s);
    let nm = news.subrange(p, news.len() - s);
    assert(nm[j - p] == news[j]);
    assert forall|i: int|
        0 <= i < om.len() && (#[trigger] om[i]).key() == nm[j - p].key() implies shows(
        om[i],
        nm[j - p],
    ) by {
        assert(om[i] == olds[p + i]);
    }
    if has_key(olds, news[j].key()) {
        let i = choose|i: int| 0 <= i < olds.len() && (#[trigger] olds[i]).key() == news[j].key();
        lemma_partner(olds, news, p, s, i, j);
        assert(om[i - p] == olds[i]);
        assert(has_key(om, nm[j - p].key()));
    }
}

/// The prefix, the middle and the suffix together reflect the new nodes.
#[verifier::rlimit(60)]
proof fn lemma_joined<'a>(
    olds: Seq<VNode<'a>>,
    news: Seq<VNode<'a>>,
    kids: Seq<PNode>,
    kids1: Seq<PNode>,
    kids2: Seq<PNode>,
    mid2: Seq<PNode>,
    p: int,
    s: int,
    f: nat,
    f1: nat,
    last: Seq<PNode>,
)
    requires
        can_turn_by_key(olds, news),
        p == shared_prefix(olds, news),
        s == shared_suffix(olds.skip(p), news.skip(p)),
        0 <= p <= olds.len() - s,
        p <= news.len() - s,
        0 <= s,
        kids.len() == olds.len(),
        kids1.len() == olds.len(),
        f <= f1,
        mid2.len() == news.len() - s - p,
        kids2 == kids1.take(p) + mid2 + kids1.skip(olds.len() - s),
        last.len() == kids2.len(),
        forall|x: int| 0 <= x < news.len() - s ==> #[trigger] last[x] == kids2[x],
        prefix_renewed(kids, kids1, olds, news, p, f),
        forall|i: int| p <= i < olds.len() ==> #[trigger] kids1[i] == kids[i],
        ({
            let plan = middle_plan(
                olds.subrange(p, olds.len() - s),
                news.subrange(p, news.len() - s),
                kids1.subrange(p, olds.len() - s),
                f1,
            );
            forall|j: int| 0 <= j < mid2.len() ==> plan.good(j, #[trigger] mid2[j])
        }),
        ({
            let ot = olds.subrange(olds.len() - s, olds.len() as int);
            let nt = news.subrange(news.len() - s, news.len() as int);
            forall|i: int|
                0 <= i < s ==> renewed(
                    kids2[news.len() - s + i],
                    last[news.len() - s + i],
                    ot[i],
                    #[trigger] nt[i],
                    f1,
                )
        }),
    ensures
        forall|j: int|
            0 <= j < news.len() && shown_at(olds, news, j) ==> reflects(last[j], #[trigger] news[j]),
        reuses(olds, news, kids, last, f),
{
    reveal(prefix_renewed);
    reveal(renewed);
    reveal(can_turn_by_key);
    let os = olds.len() - s;
    let ns = news.len() - s;
    let om = olds.subrange(p, os);
    let nm = news.subrange(p, ns);
    let ot = olds.subrange(os, olds.len() as int);
    let nt = news.subrange(ns, news.len() as int);
    let mid = kids1.subrange(p, os);
    let plan = middle_plan(om, nm, mid, f1);
    assert forall|j: int| 0 <= j < news.len() && shown_at(olds, news, j) implies reflects(
        last[j],
        #[trigger] news[j],
    ) by {
        if j < p {
            lemma_prefix_from(olds, news, 0);
            assert(olds[j].key() == news[j].key());
            assert(last[j] == kids1[j]);
        } else if j < ns {
            assert(last[j] == mid2[j - p]);
            assert(plan.good(j - p, mid2[j - p]));
            assert(nm[j - p] == news[j]);
            lemma_shown_in_middle(olds, news, p, s, j);
        } else {
            assert(nt[j - ns] == news[j]);
            assert(last[ns + (j - ns)] == last[j]);
            lemma_suffix_keys(olds, news, p, s, j - ns);
            assert(ot[j - ns] == olds[os + (j - ns)]);
        }
    }
    assert forall|i: int, j: int|
        #![trigger olds[i], news[j]]
        0 <= i < olds.len() && 0 <= j < news.len() && olds[i].key() == news[j].key() implies right_node(
        kids[i],
        last[j],
        olds[i],
        news[j],
        f,
    ) && right_tree(kids[i], last[j], olds[i], news[j], f) by {
        lemma_partner(olds, news, p, s, i, j);
        if i < p {
            assert(last[j] == kids1[j]);
        } else if i < os {
            assert(p <= j < ns);
            assert(last[j] == mid2[j - p]);
            assert(plan.good(j - p, mid2[j - p]));
            assert(om[i - p] == olds[i]);
            assert(nm[j - p] == news[j]);
            assert(plan.pair(i - p, j - p));
            assert(mid[i - p] == kids1[i]);
            lemma_keys_apart(olds);
            assert forall|i2: int| #[trigger] plan.pair(i2, j - p) implies i2 == i - p by {
                assert(om[i2] == olds[p + i2]);
                assert(key_apart(olds, p + i2, i));
            }
            lemma_right_earlier(kids[i], last[j], olds[i], news[j], f1, f);
        } else {
            assert(nt[j - ns] == news[j]);
            assert(ot[i - os] == olds[i]);
            assert(last[ns + (j - ns)] == last[j]);
            assert(kids2[ns + (j - ns)] == kids1[i]);
            lemma_right_earlier(kids[i], last[j], olds[i], news[j], f1, f);
        }
    }
    assert forall|j: int| 0 <= j < news.len() && !has_key(olds, (#[trigger] news[j]).key()) implies f
        <= last[j].id by {
        if j < p {
            lemma_prefix_from(olds, news, 0);
            assert(olds[j].key() == news[j].key());
        } else if j < ns {
            assert(last[j] == mid2[j - p]);
            assert(plan.good(j - p, mid2[j - p]));
            assert forall|i2: int| #[trigger] plan.pair(i2, j - p) implies false by {
                assert(om[i2] == olds[p + i2]);
                assert(nm[j - p] == news[j]);
                assert(has_key(olds, news[j].key()));
            }
        } else {
            lemma_suffix_keys(olds, news, p, s, j - ns);
            assert(olds[os + (j - ns)].key() == news[j].key());
        }
    }
}

} // verus!
